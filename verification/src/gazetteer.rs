//! Reading the GeoNames dumps and filtering them down to places worth putting
//! on a clock: which rows to keep, how duplicates collapse, and the lookup
//! tables for country and region names.

use vstd::prelude::*;
use vstd::hash_map::StringHashMap;
use vstd::hash_set::StringHashSet;

use crate::order::{pair_le, sort_pairs};
use crate::text::{
    same_text, chars_of, decimal, parsed_u32, parsed_u64, piece_bounds, pieces, fields, lemma_lines_step, lemma_text_lt_total,
    lemma_text_lt_trans, line_end, lines, push_char, push_decimal, string_of, text_less, text_lt, without_cr,
};

verus! {

broadcast use vstd::seq_lib::group_to_multiset_ensures;

/// The number of columns in a row of cities5000.txt.
pub const CITY_COLUMNS: usize = 19;
/// The number of columns in a row of countryInfo.txt.
pub const COUNTRY_COLUMNS: usize = 19;
/// The number of columns in a row of admin1CodesASCII.txt.
pub const ADMIN1_COLUMNS: usize = 4;

/// The columns of a cities5000.txt row that the filters read. The coordinate
/// columns are floating point and stay with the caller.
#[derive(Debug)]
pub struct RawCity {
    pub geonameid: u32,
    pub name: String,
    pub asciiname: String,
    pub alternatenames: Vec<String>,
    pub feature_class: char,
    pub feature_code: String,
    pub country_code: String,
    pub admin1_code: String,
    pub population: u64,
    pub timezone: String,
}

/// Feature codes worth keeping: real, currently populated places. Everything
/// else is dropped, notably PPLX (sections of a city), PPLH (historical),
/// PPLQ (abandoned), PPLW (destroyed), PPLR, PPLCH and STLMT.
pub open spec fn kept_codes() -> Seq<Seq<char>> {
    seq![
        seq!['P', 'P', 'L'],
        seq!['P', 'P', 'L', 'A'],
        seq!['P', 'P', 'L', 'A', '2'],
        seq!['P', 'P', 'L', 'A', '3'],
        seq!['P', 'P', 'L', 'A', '4'],
        seq!['P', 'P', 'L', 'A', '5'],
        seq!['P', 'P', 'L', 'C'],
        seq!['P', 'P', 'L', 'F'],
        seq!['P', 'P', 'L', 'G'],
        seq!['P', 'P', 'L', 'L'],
        seq!['P', 'P', 'L', 'S'],
    ]
}

/// Whether rows with feature code `code` are kept.
pub open spec fn is_kept_code(code: Seq<char>) -> bool {
    kept_codes().contains(code)
}

/// The rows of `cities` whose feature code is kept, in order.
pub open spec fn kept_rows(cities: Seq<RawCity>) -> Seq<RawCity>
    decreases cities.len(),
{
    if cities.len() == 0 {
        Seq::empty()
    } else {
        let rest = kept_rows(cities.drop_last());
        if is_kept_code(cities.last().feature_code@) {
            rest.push(cities.last())
        } else {
            rest
        }
    }
}

/// `city` should replace `kept` as its group's row: it is more populous, or
/// as populous with a lower geonameid.
pub open spec fn beats_spec(city: RawCity, kept: RawCity) -> bool {
    city.population > kept.population || (city.population == kept.population && city.geonameid
        < kept.geonameid)
}

/// "line ".
pub open spec fn line_word() -> Seq<char> {
    seq!['l', 'i', 'n', 'e', ' ']
}

/// ": expected ".
pub open spec fn expected_word() -> Seq<char> {
    seq![':', ' ', 'e', 'x', 'p', 'e', 'c', 't', 'e', 'd', ' ']
}

/// " columns, got ".
pub open spec fn got_word() -> Seq<char> {
    seq![' ', 'c', 'o', 'l', 'u', 'm', 'n', 's', ',', ' ', 'g', 'o', 't', ' ']
}

/// The message for a row with the wrong number of columns.
pub open spec fn columns_message(lineno: nat, expected: nat, got: nat) -> Seq<char> {
    line_word() + decimal(lineno) + expected_word() + decimal(expected) + got_word() + decimal(got)
}

/// Whether rows with feature code `feature_code` are kept.
pub fn is_kept(feature_code: &str) -> (r: bool)
    ensures
        r == is_kept_code(feature_code@),
{
    proof {
        reveal_strlit("PPL");
        reveal_strlit("PPLA");
        reveal_strlit("PPLA2");
        reveal_strlit("PPLA3");
        reveal_strlit("PPLA4");
        reveal_strlit("PPLA5");
        reveal_strlit("PPLC");
        reveal_strlit("PPLF");
        reveal_strlit("PPLG");
        reveal_strlit("PPLL");
        reveal_strlit("PPLS");
        let ks = kept_codes();
        assert(ks[0] == "PPL"@ && ks[1] == "PPLA"@ && ks[2] == "PPLA2"@ && ks[3] == "PPLA3"@);
        assert(ks[4] == "PPLA4"@ && ks[5] == "PPLA5"@ && ks[6] == "PPLC"@ && ks[7] == "PPLF"@);
        assert(ks[8] == "PPLG"@ && ks[9] == "PPLL"@ && ks[10] == "PPLS"@);
        assert(ks.contains(feature_code@) ==> exists|k: int|
            0 <= k < 11 && ks[k] == feature_code@);
    }
    same_text(feature_code, "PPL") || same_text(feature_code, "PPLA") || same_text(
        feature_code,
        "PPLA2",
    ) || same_text(feature_code, "PPLA3") || same_text(feature_code, "PPLA4") || same_text(
        feature_code,
        "PPLA5",
    ) || same_text(feature_code, "PPLC") || same_text(feature_code, "PPLF") || same_text(
        feature_code,
        "PPLG",
    ) || same_text(feature_code, "PPLL") || same_text(feature_code, "PPLS")
}

/// The rows whose feature code is kept, in their order.
pub fn keep_by_feature(cities: Vec<RawCity>) -> (r: Vec<RawCity>)
    ensures
        r@ == kept_rows(cities@),
{
    let ghost all = cities@;
    let mut out: Vec<RawCity> = Vec::new();
    for city in it: cities.into_iter()
        invariant
            it.seq() == all,
            out@ == kept_rows(all.take(it.index() as int)),
    {
        proof {
            assert(all.take(it.index() + 1).drop_last() =~= all.take(it.index() as int));
        }
        if is_kept(city.feature_code.as_str()) {
            out.push(city);
        }
    }
    proof {
        assert(all.take(all.len() as int) =~= all);
    }
    out
}

/// Whether `city` should replace `kept` as its group's row.
pub fn beats(city: &RawCity, kept: &RawCity) -> (r: bool)
    ensures
        r == beats_spec(*city, *kept),
{
    city.population > kept.population || (city.population == kept.population && city.geonameid
        < kept.geonameid)
}

/// The message for a row with the wrong number of columns.
pub fn columns_error(lineno: usize, expected: usize, got: usize) -> (r: String)
    ensures
        r@ == columns_message(lineno as nat, expected as nat, got as nat),
{
    proof {
        reveal_strlit("line ");
        reveal_strlit(": expected ");
        reveal_strlit(" columns, got ");
    }
    let mut out = String::from_str("line ");
    push_decimal(&mut out, lineno as u64);
    out.append(": expected ");
    push_decimal(&mut out, expected as u64);
    out.append(" columns, got ");
    push_decimal(&mut out, got as u64);
    out
}

/// The message of the error `str::parse::<u32>` gives for the text `s`.
pub uninterp spec fn u32_parse_error(s: Seq<char>) -> Seq<char>;

/// The message of the error `str::parse::<u64>` gives for the text `s`.
pub uninterp spec fn u64_parse_error(s: Seq<char>) -> Seq<char>;

/// What `str::parse::<u32>` gives for the text `s`: the number its optional
/// `+` and decimal digits spell, when it fits; otherwise an error, by its
/// message.
pub open spec fn u32_parse(s: Seq<char>) -> Result<u32, Seq<char>> {
    match parsed_u32(s) {
        Some(n) => Ok(n),
        None => Err(u32_parse_error(s)),
    }
}

/// What `str::parse::<u64>` gives for the text `s`, as for `u32_parse`.
pub open spec fn u64_parse(s: Seq<char>) -> Result<u64, Seq<char>> {
    match parsed_u64(s) {
        Some(n) => Ok(n),
        None => Err(u64_parse_error(s)),
    }
}

/// What `str::parse::<char>` gives for the text `s`, an error by its message.
pub uninterp spec fn char_parse(s: Seq<char>) -> Result<char, Seq<char>>;

/// What `{:?}` writes for the text `s`: quoted, with escapes.
pub uninterp spec fn debug_quoted(s: Seq<char>) -> Seq<char>;

/// A result whose error is a `String`, seen with the error's text.
pub open spec fn text_result<T>(r: Result<T, String>) -> Result<T, Seq<char>> {
    match r {
        Ok(v) => Ok(v),
        Err(e) => Err(e@),
    }
}

/// The texts of `v`.
pub open spec fn texts_of(v: Seq<String>) -> Seq<Seq<char>> {
    v.map_values(|c: String| c@)
}

/// `str::parse::<u32>`, its error turned into its message. std documents
/// the text an unsigned integer parses from as an optional `+` followed by
/// decimal digits only, and an error where the value does not fit; the
/// error's message is left to the name `u32_parse_error`.
#[verifier::external_body]
fn parse_u32_text(s: &str) -> (r: Result<u32, String>)
    ensures
        r matches Ok(n) ==> parsed_u32(s@) == Some(n),
        r matches Err(e) ==> parsed_u32(s@) is None && e@ == u32_parse_error(s@),
{
    match s.parse::<u32>() {
        Ok(n) => Ok(n),
        Err(e) => Err(e.to_string()),
    }
}

/// `str::parse::<u64>`, its error turned into its message; as for
/// `parse_u32_text`, with the message left to the name `u64_parse_error`.
#[verifier::external_body]
fn parse_u64_text(s: &str) -> (r: Result<u64, String>)
    ensures
        r matches Ok(n) ==> parsed_u64(s@) == Some(n),
        r matches Err(e) ==> parsed_u64(s@) is None && e@ == u64_parse_error(s@),
{
    match s.parse::<u64>() {
        Ok(n) => Ok(n),
        Err(e) => Err(e.to_string()),
    }
}

/// `str::parse::<char>`, its error turned into its message.
#[verifier::external_body]
fn parse_char_text(s: &str) -> (r: Result<char, String>)
    ensures
        text_result(r) == char_parse(s@),
{
    match s.parse::<char>() {
        Ok(c) => Ok(c),
        Err(e) => Err(e.to_string()),
    }
}

/// `s` as `{:?}` writes it.
#[verifier::external_body]
fn quoted(s: &str) -> (r: String)
    ensures
        r@ == debug_quoted(s@),
{
    format!("{s:?}")
}

/// ": bad ".
pub open spec fn bad_word() -> Seq<char> {
    seq![':', ' ', 'b', 'a', 'd', ' ']
}

/// The message for column `name` of line `lineno`, whose `value` does not
/// parse, for `reason`.
pub open spec fn field_message(lineno: nat, name: Seq<char>, value: Seq<char>, reason: Seq<char>) -> Seq<char> {
    line_word() + decimal(lineno) + bad_word() + name + seq![' '] + debug_quoted(value) + seq![':', ' ']
        + reason
}

/// What a column parses to, or the message when it does not.
pub open spec fn field_result<T>(
    p: Result<T, Seq<char>>,
    lineno: nat,
    name: Seq<char>,
    value: Seq<char>,
) -> Result<T, Seq<char>> {
    match p {
        Ok(v) => Ok(v),
        Err(e) => Err(field_message(lineno, name, value, e)),
    }
}

/// The message for column `name` of line `lineno`, whose `value` does not
/// parse, for `reason`.
pub fn field_error(lineno: usize, name: &str, value: &str, reason: &str) -> (r: String)
    ensures
        r@ == field_message(lineno as nat, name@, value@, reason@),
{
    proof {
        reveal_strlit("line ");
        reveal_strlit(": bad ");
        reveal_strlit(" ");
        reveal_strlit(": ");
    }
    let mut out = String::from_str("line ");
    push_decimal(&mut out, lineno as u64);
    out.append(": bad ");
    out.append(name);
    out.append(" ");
    let q = quoted(value);
    out.append(q.as_str());
    out.append(": ");
    out.append(reason);
    out
}

/// A `u32` column.
fn u32_field(value: &str, lineno: usize, name: &str) -> (r: Result<u32, String>)
    ensures
        text_result(r) == field_result(u32_parse(value@), lineno as nat, name@, value@),
{
    match parse_u32_text(value) {
        Ok(n) => Ok(n),
        Err(e) => Err(field_error(lineno, name, value, e.as_str())),
    }
}

/// A `u64` column.
fn u64_field(value: &str, lineno: usize, name: &str) -> (r: Result<u64, String>)
    ensures
        text_result(r) == field_result(u64_parse(value@), lineno as nat, name@, value@),
{
    match parse_u64_text(value) {
        Ok(n) => Ok(n),
        Err(e) => Err(field_error(lineno, name, value, e.as_str())),
    }
}

/// A one-character column.
fn char_field(value: &str, lineno: usize, name: &str) -> (r: Result<char, String>)
    ensures
        text_result(r) == field_result(char_parse(value@), lineno as nat, name@, value@),
{
    match parse_char_text(value) {
        Ok(c) => Ok(c),
        Err(e) => Err(field_error(lineno, name, value, e.as_str())),
    }
}

/// The pieces of `s` that are not empty, in order.
pub open spec fn non_empty(s: Seq<Seq<char>>) -> Seq<Seq<char>>
    decreases s.len(),
{
    if s.len() == 0 {
        Seq::empty()
    } else {
        let rest = non_empty(s.drop_last());
        if s.last().len() > 0 {
            rest.push(s.last())
        } else {
            rest
        }
    }
}

/// The texts of `s` between occurrences of `sep`, leaving out the empty ones.
fn non_empty_pieces(s: &str, sep: char) -> (r: Vec<String>)
    ensures
        texts_of(r@) == non_empty(pieces(s@, sep)),
{
    let chars = chars_of(s);
    let n = chars.len();
    let bounds = piece_bounds(chars.as_slice(), 0, n, sep);
    let ghost all = pieces(s@, sep);
    proof {
        assert(chars@.subrange(0, n as int) =~= s@);
    }
    let mut out: Vec<String> = Vec::new();
    let mut k: usize = 0;
    while k < bounds.len()
        invariant
            k <= bounds@.len() == all.len(),
            chars@ == s@,
            n == chars@.len(),
            all == pieces(s@, sep),
            forall|j: int|
                0 <= j < bounds@.len() ==> (#[trigger] bounds@[j]).0 <= bounds@[j].1 <= n
                    && chars@.subrange(bounds@[j].0 as int, bounds@[j].1 as int) == all[j],
            texts_of(out@) == non_empty(all.take(k as int)),
        decreases bounds@.len() - k,
    {
        let (a, b) = bounds[k];
        let ghost before = out@;
        proof {
            assert(all.take(k + 1).drop_last() =~= all.take(k as int));
            assert(all.take(k + 1).last() == all[k as int]);
        }
        if a < b {
            let piece = string_of(&chars.as_slice()[a..b]);
            out.push(piece);
            proof {
                assert(texts_of(out@) =~= texts_of(before).push(piece@));
            }
        }
        k = k + 1;
    }
    proof {
        assert(all.take(all.len() as int) =~= all);
    }
    out
}

/// The tab-separated columns of a cities5000.txt row, or the message for a
/// row without `CITY_COLUMNS` of them.
pub fn city_columns(line: &str, lineno: usize) -> (r: Result<Vec<String>, String>)
    ensures
        match r {
            Ok(cols) => fields(line@).len() == CITY_COLUMNS && texts_of(cols@) == fields(line@),
            Err(e) => fields(line@).len() != CITY_COLUMNS && e@ == columns_message(
                lineno as nat,
                CITY_COLUMNS as nat,
                fields(line@).len(),
            ),
        },
{
    let chars = chars_of(line);
    let n = chars.len();
    let bounds = piece_bounds(chars.as_slice(), 0, n, '\t');
    let ghost all = fields(line@);
    proof {
        assert(chars@.subrange(0, n as int) =~= line@);
    }
    if bounds.len() != CITY_COLUMNS {
        return Err(columns_error(lineno, CITY_COLUMNS, bounds.len()));
    }
    let mut cols: Vec<String> = Vec::new();
    let mut k: usize = 0;
    while k < bounds.len()
        invariant
            k <= bounds@.len() == all.len(),
            chars@ == line@,
            n == chars@.len(),
            all == fields(line@),
            forall|j: int|
                0 <= j < bounds@.len() ==> (#[trigger] bounds@[j]).0 <= bounds@[j].1 <= n
                    && chars@.subrange(bounds@[j].0 as int, bounds@[j].1 as int) == all[j],
            texts_of(cols@) == all.take(k as int),
        decreases bounds@.len() - k,
    {
        let (a, b) = bounds[k];
        let ghost before = cols@;
        let column = string_of(&chars.as_slice()[a..b]);
        cols.push(column);
        proof {
            assert(texts_of(cols@) =~= texts_of(before).push(column@));
            assert(all.take(k + 1) =~= all.take(k as int).push(all[k as int]));
        }
        k = k + 1;
    }
    proof {
        assert(all.take(all.len() as int) =~= all);
    }
    Ok(cols)
}

/// The geonameid of a row split into its columns, or the message when it does
/// not parse.
pub fn city_geonameid(cols: &Vec<String>, lineno: usize) -> (r: Result<u32, String>)
    requires
        cols@.len() == CITY_COLUMNS,
    ensures
        text_result(r) == field_result(
            u32_parse(cols@[0]@),
            lineno as nat,
            "geonameid"@,
            cols@[0]@,
        ),
{
    u32_field(cols[0].as_str(), lineno, "geonameid")
}

/// What the feature class and population columns parse to, or the message
/// for the first of them that does not.
pub open spec fn class_and_population(cols: Seq<Seq<char>>, lineno: nat) -> Result<
    (char, u64),
    Seq<char>,
> {
    match field_result(char_parse(cols[6]), lineno, "feature class"@, cols[6]) {
        Err(e) => Err(e),
        Ok(c) => match field_result(u64_parse(cols[14]), lineno, "population"@, cols[14]) {
            Err(e) => Err(e),
            Ok(p) => Ok((c, p)),
        },
    }
}

/// `c` is the row of columns `cols`, with the geonameid, feature class and
/// population they parse to: its names, codes and zone are the columns'
/// texts, and its alternate names are the non-empty pieces of their
/// comma-separated column.
pub open spec fn holds_row(
    c: RawCity,
    cols: Seq<Seq<char>>,
    geonameid: u32,
    feature_class: char,
    population: u64,
) -> bool {
    &&& c.geonameid == geonameid
    &&& c.name@ == cols[1]
    &&& c.asciiname@ == cols[2]
    &&& texts_of(c.alternatenames@) == non_empty(pieces(cols[3], ','))
    &&& c.feature_class == feature_class
    &&& c.feature_code@ == cols[7]
    &&& c.country_code@ == cols[8]
    &&& c.admin1_code@ == cols[10]
    &&& c.population == population
    &&& c.timezone@ == cols[17]
}

/// Where a parsed row's fields come from in the line of cities5000.txt: its
/// names from the second and third tab-separated fields, its feature code
/// from the eighth, its country code from the ninth, its admin1 code from the
/// eleventh and its zone from the eighteenth, counting from one; its
/// alternate names are the non-empty comma-separated pieces of the fourth.
pub proof fn lemma_row_fields(line: Seq<char>, cols: Seq<String>, c: RawCity, geonameid: u32)
    requires
        fields(line).len() == CITY_COLUMNS,
        texts_of(cols) == fields(line),
        holds_row(c, texts_of(cols), geonameid, c.feature_class, c.population),
    ensures
        c.geonameid == geonameid,
        c.name@ == fields(line)[1],
        c.asciiname@ == fields(line)[2],
        texts_of(c.alternatenames@) == non_empty(pieces(fields(line)[3], ',')),
        c.feature_code@ == fields(line)[7],
        c.country_code@ == fields(line)[8],
        c.admin1_code@ == fields(line)[10],
        c.timezone@ == fields(line)[17],
{
}

/// The rest of a row split into its columns, once its geonameid and its
/// coordinates have parsed: the feature class and the population parse in
/// turn, and the other columns are kept as they are.
pub fn city_from_columns(cols: &Vec<String>, geonameid: u32, lineno: usize) -> (r: Result<
    RawCity,
    String,
>)
    requires
        cols@.len() == CITY_COLUMNS,
    ensures
        match r {
            Ok(c) => class_and_population(texts_of(cols@), lineno as nat) == Ok::<
                (char, u64),
                Seq<char>,
            >((c.feature_class, c.population)) && holds_row(
                c,
                texts_of(cols@),
                geonameid,
                c.feature_class,
                c.population,
            ),
            Err(e) => class_and_population(texts_of(cols@), lineno as nat) == Err::<
                (char, u64),
                Seq<char>,
            >(e@),
        },
        r matches Ok(c) ==> c.geonameid == geonameid && c.name@ == cols@[1]@ && c.asciiname@
            == cols@[2]@ && c.feature_code@ == cols@[7]@ && c.country_code@ == cols@[8]@
            && c.admin1_code@ == cols@[10]@ && c.timezone@ == cols@[17]@,
{
    let ghost t = texts_of(cols@);
    assert(t[6] == cols@[6]@ && t[14] == cols@[14]@ && t[3] == cols@[3]@);
    assert(t[1] == cols@[1]@ && t[2] == cols@[2]@ && t[7] == cols@[7]@ && t[8] == cols@[8]@);
    assert(t[10] == cols@[10]@ && t[17] == cols@[17]@);
    let feature_class = match char_field(cols[6].as_str(), lineno, "feature class") {
        Ok(c) => c,
        Err(e) => return Err(e),
    };
    let population = match u64_field(cols[14].as_str(), lineno, "population") {
        Ok(p) => p,
        Err(e) => return Err(e),
    };
    let alternatenames = non_empty_pieces(cols[3].as_str(), ',');
    Ok(
        RawCity {
            geonameid,
            name: cols[1].clone(),
            asciiname: cols[2].clone(),
            alternatenames,
            feature_class,
            feature_code: cols[7].clone(),
            country_code: cols[8].clone(),
            admin1_code: cols[10].clone(),
            population,
            timezone: cols[17].clone(),
        },
    )
}


/// The table that the lines `ls` of a tab-separated file hold: `columns`
/// fields per row, column `key` mapped to column `value`, a later row
/// replacing an earlier one with the same key. When `skip_comments`, empty
/// lines and lines starting with `#` hold no row. The first row with the
/// wrong number of fields is an error, numbered from 1.
pub open spec fn table_from(
    ls: Seq<Seq<char>>,
    columns: nat,
    key: int,
    value: int,
    skip_comments: bool,
) -> Result<Map<Seq<char>, Seq<char>>, Seq<char>>
    decreases ls.len(),
{
    if ls.len() == 0 {
        Ok(Map::empty())
    } else {
        match table_from(ls.drop_last(), columns, key, value, skip_comments) {
            Err(e) => Err(e),
            Ok(m) => {
                let l = ls.last();
                if skip_comments && (l.len() == 0 || l[0] == '#') {
                    Ok(m)
                } else {
                    let f = fields(l);
                    if f.len() != columns {
                        Err(columns_message(ls.len(), columns, f.len()))
                    } else {
                        Ok(m.insert(f[key], f[value]))
                    }
                }
            },
        }
    }
}

/// The texts a table maps to.
pub open spec fn texts(m: Map<Seq<char>, String>) -> Map<Seq<char>, Seq<char>> {
    m.map_values(|v: String| v@)
}

/// What `table` returns, seen as texts.
pub open spec fn table_view(
    r: Result<StringHashMap<String>, String>,
) -> Result<Map<Seq<char>, Seq<char>>, Seq<char>> {
    match r {
        Ok(m) => Ok(texts(m@)),
        Err(e) => Err(e@),
    }
}

proof fn lemma_table_err_sticks(
    ls: Seq<Seq<char>>,
    n: int,
    columns: nat,
    key: int,
    value: int,
    skip_comments: bool,
)
    requires
        0 <= n <= ls.len(),
        table_from(ls.take(n), columns, key, value, skip_comments) is Err,
    ensures
        table_from(ls, columns, key, value, skip_comments) == table_from(
            ls.take(n),
            columns,
            key,
            value,
            skip_comments,
        ),
    decreases ls.len() - n,
{
    if n < ls.len() {
        assert(ls.take(n + 1).drop_last() =~= ls.take(n));
        lemma_table_err_sticks(ls, n + 1, columns, key, value, skip_comments);
    } else {
        assert(ls.take(n) =~= ls);
    }
}

/// Reads a tab-separated table out of `text`.
fn table(text: &str, columns: usize, key: usize, value: usize, skip_comments: bool) -> (r: Result<
    StringHashMap<String>,
    String,
>)
    requires
        key < columns,
        value < columns,
    ensures
        table_view(r) == table_from(
            lines(text@),
            columns as nat,
            key as int,
            value as int,
            skip_comments,
        ),
{
    let chars = chars_of(text);
    let n = chars.len();
    let mut out: StringHashMap<String> = StringHashMap::new();
    let mut p: usize = 0;
    let mut lineno: usize = 0;
    let ghost mut done: Seq<Seq<char>> = Seq::empty();
    assert(chars@.skip(0) =~= chars@);
    assert(texts(out@) =~= Map::<Seq<char>, Seq<char>>::empty());
    while p < n
        invariant
            p <= n == chars@.len(),
            chars@ == text@,
            key < columns,
            value < columns,
            lineno == done.len(),
            lineno <= p,
            lines(chars@) == done + lines(chars@.skip(p as int)),
            table_from(done, columns as nat, key as int, value as int, skip_comments) == Ok::<
                Map<Seq<char>, Seq<char>>,
                Seq<char>,
            >(texts(out@)),
        decreases n - p,
    {
        let e = line_end(chars.as_slice(), p);
        proof {
            lemma_lines_step(chars@, p as int, e as int);
        }
        let mut b = e;
        if e < n && e > p && chars[e - 1] == '\r' {
            b = e - 1;
        }
        let ghost line = chars@.subrange(p as int, b as int);
        proof {
            if e < n {
                assert(without_cr(chars@.subrange(p as int, e as int)) =~= line);
            }
        }
        let ghost d2 = done.push(line);
        proof {
            assert(d2.drop_last() =~= done);
            assert(d2.last() == line);
            if e < n {
                assert(lines(chars@.skip(p as int)) == seq![line] + lines(chars@.skip(e + 1)));
                assert(done + lines(chars@.skip(p as int)) =~= d2 + lines(chars@.skip(e + 1)));
            } else {
                assert(lines(chars@.skip(n as int)) == Seq::<Seq<char>>::empty());
                assert(done + lines(chars@.skip(p as int)) =~= d2 + lines(chars@.skip(n as int)));
            }
        }
        lineno = lineno + 1;
        let comment = b == p || chars[p] == '#';
        if !(skip_comments && comment) {
            let bounds = piece_bounds(chars.as_slice(), p, b, '\t');
            if bounds.len() != columns {
                let msg = columns_error(lineno, columns, bounds.len());
                proof {
                    let all = lines(chars@);
                    assert(all.take(d2.len() as int) =~= d2);
                    lemma_table_err_sticks(
                        all,
                        d2.len() as int,
                        columns as nat,
                        key as int,
                        value as int,
                        skip_comments,
                    );
                }
                return Err(msg);
            }
            let k = string_of(&chars.as_slice()[bounds[key].0..bounds[key].1]);
            let v = string_of(&chars.as_slice()[bounds[value].0..bounds[value].1]);
            let ghost before = out@;
            out.insert(k, v);
            proof {
                assert(texts(out@) =~= texts(before).insert(k@, v@));
            }
        }
        proof {
            done = d2;
        }
        p = if e < n {
            e + 1
        } else {
            n
        };
    }
    proof {
        assert(lines(chars@.skip(n as int)) == Seq::<Seq<char>>::empty());
        assert(done + Seq::<Seq<char>>::empty() =~= done);
    }
    Ok(out)
}

/// Country code to country name, from countryInfo.txt.
pub fn parse_countries(text: &str) -> (r: Result<StringHashMap<String>, String>)
    ensures
        table_view(r) == table_from(lines(text@), COUNTRY_COLUMNS as nat, 0, 4, true),
{
    table(text, COUNTRY_COLUMNS, 0, 4, true)
}

/// "CC.ADM1" code to region name, from admin1CodesASCII.txt.
pub fn parse_admin1(text: &str) -> (r: Result<StringHashMap<String>, String>)
    ensures
        table_view(r) == table_from(lines(text@), ADMIN1_COLUMNS as nat, 0, 1, false),
{
    table(text, ADMIN1_COLUMNS, 0, 1, false)
}


/// Two rows describe the same place: same name, country and region.
pub open spec fn same_place(a: RawCity, b: RawCity) -> bool {
    &&& a.name@ == b.name@
    &&& a.country_code@ == b.country_code@
    &&& a.admin1_code@ == b.admin1_code@
}

/// Row `i` is the row its place keeps among the first `n` rows: no row of the
/// same place beats it, and it beats every earlier one, so that of rows
/// that tie the first stays.
pub open spec fn wins_among(s: Seq<RawCity>, n: int, i: int) -> bool {
    &&& 0 <= i < n <= s.len()
    &&& forall|j: int|
        #![trigger s[j]]
        0 <= j < n && same_place(s[j], s[i]) ==> !beats_spec(s[j], s[i]) && (j < i ==> beats_spec(
            s[i],
            s[j],
        ))
}

/// Row `i` is the row its place keeps.
pub open spec fn keeps(s: Seq<RawCity>, i: int) -> bool {
    wins_among(s, s.len() as int, i)
}

/// `ix` lists the kept rows of `s`, each once, by geonameid (then by
/// position, for equal geonameids).
pub open spec fn dedup_order(s: Seq<RawCity>, ix: Seq<int>) -> bool {
    &&& forall|k: int| 0 <= k < ix.len() ==> keeps(s, #[trigger] ix[k])
    &&& forall|i: int| keeps(s, i) ==> ix.contains(i)
    &&& forall|k1: int, k2: int|
        0 <= k1 < k2 < ix.len() ==> (s[#[trigger] ix[k1]].geonameid < s[#[trigger] ix[k2]].geonameid
            || (s[ix[k1]].geonameid == s[ix[k2]].geonameid && ix[k1] < ix[k2]))
}

/// At most one row of a place is kept.
proof fn lemma_one_winner(s: Seq<RawCity>, n: int, i: int, j: int)
    requires
        wins_among(s, n, i),
        wins_among(s, n, j),
        same_place(s[i], s[j]),
    ensures
        i == j,
{
    if i < j {
        assert(same_place(s[i], s[j]));
        assert(beats_spec(s[j], s[i]));
    } else if j < i {
        assert(same_place(s[j], s[i]));
        assert(beats_spec(s[i], s[j]));
    }
}

/// The winners found so far: one per place among the first `n` rows, and
/// `by_name` lists, for each name, the places that carry it.
spec fn groups_ok(
    s: Seq<RawCity>,
    n: int,
    best: Seq<usize>,
    by_name: Map<Seq<char>, Vec<usize>>,
) -> bool {
    &&& forall|g: int| 0 <= g < best.len() ==> wins_among(s, n, #[trigger] best[g] as int)
    &&& forall|g1: int, g2: int|
        0 <= g1 < g2 < best.len() ==> !same_place(
            s[#[trigger] best[g1] as int],
            s[#[trigger] best[g2] as int],
        )
    &&& forall|j: int|
        0 <= j < n ==> exists|g: int| 0 <= g < best.len() && same_place(#[trigger] s[j], s[best[g] as int])
    &&& forall|g: int|
        0 <= g < best.len() ==> by_name.contains_key(s[#[trigger] best[g] as int].name@)
            && by_name[s[best[g] as int].name@]@.contains(g as usize)
    &&& forall|nm: Seq<char>, k: int|
        by_name.contains_key(nm) && 0 <= k < by_name[nm]@.len() ==> (#[trigger] by_name[nm]@[k])
            < best.len() && s[best[by_name[nm]@[k] as int] as int].name@ == nm
}

#[verifier::spinoff_prover]
#[verifier::rlimit(40)]
proof fn lemma_step_replace(
    s: Seq<RawCity>,
    i: int,
    best: Seq<usize>,
    by_name: Map<Seq<char>, Vec<usize>>,
    g: int,
)
    requires
        0 <= i < s.len(),
        i <= usize::MAX,
        groups_ok(s, i, best, by_name),
        0 <= g < best.len(),
        same_place(s[best[g] as int], s[i]),
        beats_spec(s[i], s[best[g] as int]),
    ensures
        groups_ok(s, i + 1, best.update(g, i as usize), by_name),
{
    let w = best[g] as int;
    assert(wins_among(s, i, w));
        let b2 = best.update(g, i as usize);
        assert forall|h: int| 0 <= h < b2.len() implies wins_among(s, i + 1, #[trigger] b2[h] as int) by {
            if h == g {
                assert forall|j: int| #![trigger s[j]] 0 <= j < i + 1 && same_place(s[j], s[i]) implies !beats_spec(
                    s[j],
                    s[i],
                ) && (j < i ==> beats_spec(s[i], s[j])) by {
                    if j < i {
                        assert(same_place(s[j], s[w]));
                        assert(!beats_spec(s[j], s[w]));
                    }
                }
            } else {
                assert(b2[h] == best[h]);
                assert(wins_among(s, i, best[h] as int));
                assert(!same_place(s[best[h] as int], s[w]));
                assert forall|j: int| #![trigger s[j]] 0 <= j < i + 1 && same_place(s[j], s[best[h] as int]) implies !beats_spec(
                    s[j],
                    s[best[h] as int],
                ) && (j < best[h] ==> beats_spec(s[best[h] as int], s[j])) by {
                    if j == i {
                        assert(same_place(s[best[h] as int], s[w]));
                    }
                }
            }
        }
        assert forall|g1: int, g2: int| 0 <= g1 < g2 < b2.len() implies !same_place(
            s[#[trigger] b2[g1] as int],
            s[#[trigger] b2[g2] as int],
        ) by {
            assert(!same_place(s[best[g1] as int], s[best[g2] as int]));
        }
        assert forall|j: int| 0 <= j < i + 1 implies exists|h: int|
            0 <= h < b2.len() && same_place(#[trigger] s[j], s[b2[h] as int]) by {
            if j == i {
                assert(same_place(s[j], s[b2[g] as int]));
            } else {
                let h = choose|h: int| 0 <= h < best.len() && same_place(#[trigger] s[j], s[best[h] as int]);
                if h == g {
                    assert(same_place(s[j], s[b2[g] as int]));
                } else {
                    assert(same_place(s[j], s[b2[h] as int]));
                }
            }
        }
        assert forall|h: int| 0 <= h < b2.len() implies by_name.contains_key(s[#[trigger] b2[h] as int].name@)
            && by_name[s[b2[h] as int].name@]@.contains(h as usize) by {
            assert(by_name.contains_key(s[best[h] as int].name@));
        }
}

#[verifier::spinoff_prover]
#[verifier::rlimit(40)]
proof fn lemma_step_keep(
    s: Seq<RawCity>,
    i: int,
    best: Seq<usize>,
    by_name: Map<Seq<char>, Vec<usize>>,
    g: int,
)
    requires
        0 <= i < s.len(),
        i <= usize::MAX,
        groups_ok(s, i, best, by_name),
        0 <= g < best.len(),
        same_place(s[best[g] as int], s[i]),
        !beats_spec(s[i], s[best[g] as int]),
    ensures
        groups_ok(s, i + 1, best, by_name),
{
    let w = best[g] as int;
    assert(wins_among(s, i, w));
    assert forall|h: int| 0 <= h < best.len() implies wins_among(s, i + 1, #[trigger] best[h] as int) by {
        let b = best[h] as int;
        assert(wins_among(s, i, b));
        if h != g {
            if h < g {
                assert(!same_place(s[best[h] as int], s[best[g] as int]));
            } else {
                assert(!same_place(s[best[g] as int], s[best[h] as int]));
            }
            assert(!same_place(s[i], s[b]));
        }
    }
    assert forall|j: int| 0 <= j < i + 1 implies exists|h: int|
        0 <= h < best.len() && same_place(#[trigger] s[j], s[best[h] as int]) by {
        if j == i {
            assert(same_place(s[j], s[best[g] as int]));
        }
    }
}

proof fn lemma_step_new(
    s: Seq<RawCity>,
    i: int,
    best: Seq<usize>,
    by_name: Map<Seq<char>, Vec<usize>>,
    list: Vec<usize>,
)
    requires
        0 <= i < s.len(),
        i <= usize::MAX,
        best.len() < usize::MAX,
        groups_ok(s, i, best, by_name),
        forall|g: int| 0 <= g < best.len() ==> !same_place(s[#[trigger] best[g] as int], s[i]),
        list@ == (if by_name.contains_key(s[i].name@) {
            by_name[s[i].name@]@
        } else {
            Seq::empty()
        }).push(best.len() as usize),
    ensures
        groups_ok(s, i + 1, best.push(i as usize), by_name.insert(s[i].name@, list)),
{
    let b2 = best.push(i as usize);
    let m2 = by_name.insert(s[i].name@, list);
    let g = best.len() as int;
    assert forall|h: int| 0 <= h < b2.len() implies wins_among(s, i + 1, #[trigger] b2[h] as int) by {
        if h == g {
            assert forall|j: int| #![trigger s[j]] 0 <= j < i + 1 && same_place(s[j], s[i]) implies !beats_spec(
                s[j],
                s[i],
            ) && (j < i ==> beats_spec(s[i], s[j])) by {
                if j < i {
                    let h2 = choose|h2: int| 0 <= h2 < best.len() && same_place(#[trigger] s[j], s[best[h2] as int]);
                    assert(!same_place(s[best[h2] as int], s[i]));
                }
            }
        } else {
            assert(b2[h] == best[h]);
            assert(wins_among(s, i, best[h] as int));
            assert forall|j: int| #![trigger s[j]] 0 <= j < i + 1 && same_place(s[j], s[best[h] as int]) implies !beats_spec(
                s[j],
                s[best[h] as int],
            ) && (j < best[h] ==> beats_spec(s[best[h] as int], s[j])) by {
                if j == i {
                    assert(!same_place(s[best[h] as int], s[i]));
                }
            }
        }
    }
    assert forall|g1: int, g2: int| 0 <= g1 < g2 < b2.len() implies !same_place(
        s[#[trigger] b2[g1] as int],
        s[#[trigger] b2[g2] as int],
    ) by {
        if g2 == g {
            assert(b2[g1] == best[g1]);
            assert(!same_place(s[best[g1] as int], s[i]));
        } else {
            assert(!same_place(s[best[g1] as int], s[best[g2] as int]));
        }
    }
    assert forall|j: int| 0 <= j < i + 1 implies exists|h: int|
        0 <= h < b2.len() && same_place(#[trigger] s[j], s[b2[h] as int]) by {
        if j == i {
            assert(same_place(s[j], s[b2[g] as int]));
        } else {
            let h = choose|h: int| 0 <= h < best.len() && same_place(#[trigger] s[j], s[best[h] as int]);
            assert(same_place(s[j], s[b2[h] as int]));
        }
    }
    assert forall|h: int| 0 <= h < b2.len() implies m2.contains_key(s[#[trigger] b2[h] as int].name@)
        && m2[s[b2[h] as int].name@]@.contains(h as usize) by {
        if h == g {
            assert(list@[list@.len() - 1] == g as usize);
        } else {
            assert(b2[h] == best[h]);
            let nm = s[best[h] as int].name@;
            if nm == s[i].name@ {
                let k = choose|k: int| 0 <= k < by_name[nm]@.len() && by_name[nm]@[k] == h as usize;
                assert(list@[k] == h as usize);
            }
        }
    }
    assert forall|nm: Seq<char>, k: int| m2.contains_key(nm) && 0 <= k < m2[nm]@.len() implies (
    #[trigger] m2[nm]@[k]) < b2.len() && s[b2[m2[nm]@[k] as int] as int].name@ == nm by {
        if nm == s[i].name@ {
            if k < list@.len() - 1 {
                assert(list@[k] == by_name[nm]@[k]);
                assert(by_name[nm]@[k] < best.len());
                assert(b2[list@[k] as int] == best[list@[k] as int]);
            } else {
                assert(list@[k] == g as usize);
            }
        } else {
            assert(m2[nm] == by_name[nm]);
            assert(b2[by_name[nm]@[k] as int] == best[by_name[nm]@[k] as int]);
        }
    }
}

/// Collapses rows sharing a (name, country, admin1) key, keeping the most
/// populous one; ties go to the lower geonameid, then to the earlier row.
/// The result is ordered by geonameid, so a run is reproducible.
#[verifier::rlimit(40)]
pub fn dedup(cities: Vec<RawCity>) -> (r: Vec<RawCity>)
    ensures
        exists|ix: Seq<int>|
            dedup_order(cities@, ix) && r@.len() == ix.len() && (forall|k: int|
                0 <= k < ix.len() ==> r@[k] == cities@[#[trigger] ix[k]]) && r@ == rows_at(
                cities@,
                ix,
            ),
{
    let ghost s = cities@;
    let n = cities.len();
    let mut best: Vec<usize> = Vec::new();
    let mut by_name: StringHashMap<Vec<usize>> = StringHashMap::new();
    let mut i: usize = 0;
    while i < n
        invariant
            i <= n == s.len() == cities@.len(),
            s == cities@,
            best@.len() <= i,
            groups_ok(s, i as int, best@, by_name@),
        decreases n - i,
    {
        let city = &cities[i];
        let mut found: Option<usize> = None;
        let mut seen: Vec<usize> = Vec::new();
        let known = by_name.contains_key(city.name.as_str());
        match by_name.get(city.name.as_str()) {
            Some(gs) => {
                let mut k: usize = 0;
                while found.is_none() && k < gs.len()
                    invariant
                        k <= gs@.len(),
                        s == cities@,
                        i < n == s.len(),
                        *city == s[i as int],
                        by_name@.contains_key(city.name@),
                        *gs == by_name@[city.name@],
                        groups_ok(s, i as int, best@, by_name@),
                        found is None ==> seen@ == gs@.take(k as int),
                        found is None ==> forall|m: int|
                            0 <= m < k ==> !same_place(s[best@[gs@[m] as int] as int], s[i as int]),
                        found matches Some(g) ==> g < best@.len() && same_place(
                            s[best@[g as int] as int],
                            s[i as int],
                        ),
                    decreases gs@.len() - k + (if found is None {
                        1int
                    } else {
                        0int
                    }),
                {
                    let g = gs[k];
                    let w = best[g];
                    if cities[w].country_code == city.country_code && cities[w].admin1_code
                        == city.admin1_code {
                        found = Some(g);
                    } else {
                        seen.push(g);
                        proof {
                            assert(gs@.take(k + 1) =~= gs@.take(k as int).push(g));
                        }
                        k = k + 1;
                    }
                }
                proof {
                    if found is None {
                        assert(gs@.take(gs@.len() as int) =~= gs@);
                        assert(seen@ == by_name@[city.name@]@);
                        assert(forall|m: int|
                            0 <= m < by_name@[city.name@]@.len() ==> !same_place(
                                s[best@[by_name@[city.name@]@[m] as int] as int],
                                s[i as int],
                            ));
                    }
                }
            },
            None => {
                assert(!by_name@.contains_key(city.name@));
                assert(seen@ == Seq::<usize>::empty());
            },
        }
        match found {
            Some(g) => {
                let w = best[g];
                if beats(city, &cities[w]) {
                    proof {
                        lemma_step_replace(s, i as int, best@, by_name@, g as int);
                    }
                    best.set(g, i);
                } else {
                    proof {
                        lemma_step_keep(s, i as int, best@, by_name@, g as int);
                    }
                }
            },
            None => {
                proof {
                    assert forall|g: int| 0 <= g < best@.len() implies !same_place(
                        s[#[trigger] best@[g] as int],
                        s[i as int],
                    ) by {
                        if same_place(s[best@[g] as int], s[i as int]) {
                            assert(by_name@.contains_key(s[best@[g] as int].name@));
                            let gs = by_name@[city.name@]@;
                            assert(gs.contains(g as usize));
                            let k = choose|k: int| 0 <= k < gs.len() && gs[k] == g as usize;
                            assert(!same_place(s[best@[gs[k] as int] as int], s[i as int]));
                        }
                    }
                }
                let g = best.len();
                seen.push(g);
                proof {
                    lemma_step_new(s, i as int, best@, by_name@, seen);
                }
                best.push(i);
                by_name.insert(city.name.clone(), seen);
            },
        }
        i = i + 1;
    }
    let ghost groups = best@;
    proof {
        assert forall|g1: int, g2: int| 0 <= g1 < best@.len() && 0 <= g2 < best@.len() && g1 != g2 implies best@[g1] != best@[g2] by {
            if g1 < g2 {
                assert(!same_place(s[best@[g1] as int], s[best@[g2] as int]));
            } else {
                assert(!same_place(s[best@[g2] as int], s[best@[g1] as int]));
            }
        }
    }
    let mut pairs: Vec<(u32, usize)> = Vec::new();
    let mut g: usize = 0;
    while g < best.len()
        invariant
            g <= best@.len(),
            best@ == groups,
            s == cities@,
            n == s.len(),
            groups_ok(s, n as int, groups, by_name@),
            pairs@.len() == g,
            forall|k: int| 0 <= k < g ==> #[trigger] pairs@[k] == (s[groups[k] as int].geonameid, groups[k]),
        decreases best@.len() - g,
    {
        let w = best[g];
        pairs.push((cities[w].geonameid, w));
        g = g + 1;
    }
    proof {
        assert(pairs@.no_duplicates()) by {
            assert forall|a: int, b: int| 0 <= a < pairs@.len() && 0 <= b < pairs@.len() && a != b implies pairs@[a] != pairs@[b] by {
                assert(groups[a] != groups[b]);
            }
        }
        pairs@.lemma_multiset_has_no_duplicates();
    }
    let ghost unsorted = pairs@;
    let sorted = sort_pairs(pairs);
    proof {
        assert forall|x: (u32, usize)| sorted@.to_multiset().contains(x) implies sorted@.to_multiset().count(x) == 1 by {
            assert(unsorted.to_multiset().contains(x));
        }
        sorted@.lemma_multiset_has_no_duplicates_conv();
    }
    let mut slots: Vec<Option<RawCity>> = Vec::new();
    for c in it: cities.into_iter()
        invariant
            it.seq() == s,
            slots@.len() == it.index(),
            forall|p: int| 0 <= p < slots@.len() ==> #[trigger] slots@[p] == Some(s[p]),
    {
        slots.push(Some(c));
    }
    let mut out: Vec<RawCity> = Vec::new();
    let mut k: usize = 0;
    while k < sorted.len()
        invariant
            k <= sorted@.len(),
            slots@.len() == n == s.len(),
            sorted@.no_duplicates(),
            sorted@.to_multiset() == unsorted.to_multiset(),
            forall|m: int| 0 <= m < unsorted.len() ==> #[trigger] unsorted[m] == (s[groups[m] as int].geonameid, groups[m]),
            groups.len() == unsorted.len(),
            forall|g: int| 0 <= g < groups.len() ==> (#[trigger] groups[g]) < n,
            out@.len() == k,
            forall|m: int| 0 <= m < k ==> #[trigger] out@[m] == s[sorted@[m].1 as int],
            forall|p: int| 0 <= p < n && !(exists|m: int| 0 <= m < k && #[trigger] sorted@[m].1 == p) ==> slots@[p] == Some(s[p]),
        decreases sorted@.len() - k,
    {
        let p = sorted[k].1;
        proof {
            assert(sorted@.contains(sorted@[k as int]));
            assert(unsorted.to_multiset().count(sorted@[k as int]) > 0);
            assert(unsorted.contains(sorted@[k as int]));
            let m = choose|m: int| 0 <= m < unsorted.len() && unsorted[m] == sorted@[k as int];
            assert(p == groups[m]);
            assert(!(exists|m2: int| 0 <= m2 < k && #[trigger] sorted@[m2].1 == p)) by {
                if exists|m2: int| 0 <= m2 < k && #[trigger] sorted@[m2].1 == p {
                    let m2 = choose|m2: int| 0 <= m2 < k && #[trigger] sorted@[m2].1 == p;
                    assert(sorted@.contains(sorted@[m2]));
                    assert(unsorted.to_multiset().count(sorted@[m2]) > 0);
                    assert(unsorted.contains(sorted@[m2]));
                    let m3 = choose|m3: int| 0 <= m3 < unsorted.len() && unsorted[m3] == sorted@[m2];
                    assert(sorted@[m2] == sorted@[k as int]);
                }
            }
        }
        let mut slot: Option<RawCity> = None;
        slots.set_and_swap(p, &mut slot);
        match slot {
            Some(c) => {
                out.push(c);
            },
            None => {
                proof {
                    assert(false);
                }
            },
        }
        k = k + 1;
    }
    proof {
        let ix = sorted@.map_values(|q: (u32, usize)| q.1 as int);
        assert forall|m: int| 0 <= m < ix.len() implies keeps(s, #[trigger] ix[m]) by {
            assert(sorted@.contains(sorted@[m]));
            assert(unsorted.to_multiset().count(sorted@[m]) > 0);
            assert(unsorted.contains(sorted@[m]));
            let j = choose|j: int| 0 <= j < unsorted.len() && unsorted[j] == sorted@[m];
            assert(wins_among(s, n as int, groups[j] as int));
        }
        assert forall|i: int| keeps(s, i) implies ix.contains(i) by {
            let h = choose|h: int| 0 <= h < groups.len() && same_place(#[trigger] s[i], s[groups[h] as int]);
            lemma_one_winner(s, n as int, i, groups[h] as int);
            assert(unsorted.contains(unsorted[h]));
            assert(sorted@.to_multiset().count(unsorted[h]) > 0);
            assert(sorted@.contains(unsorted[h]));
            let m = choose|m: int| 0 <= m < sorted@.len() && sorted@[m] == unsorted[h];
            assert(ix[m] == i);
        }
        assert forall|k1: int, k2: int| 0 <= k1 < k2 < ix.len() implies (s[#[trigger] ix[k1]].geonameid
            < s[#[trigger] ix[k2]].geonameid || (s[ix[k1]].geonameid == s[ix[k2]].geonameid && ix[k1]
            < ix[k2])) by {
            assert(pair_le(sorted@[k1], sorted@[k2]));
            assert(sorted@[k1] != sorted@[k2]);
            assert(sorted@.contains(sorted@[k1]));
            assert(sorted@.contains(sorted@[k2]));
            assert(unsorted.to_multiset().count(sorted@[k1]) > 0);
            assert(unsorted.to_multiset().count(sorted@[k2]) > 0);
            assert(unsorted.contains(sorted@[k1]));
            assert(unsorted.contains(sorted@[k2]));
            let j1 = choose|j: int| 0 <= j < unsorted.len() && unsorted[j] == sorted@[k1];
            let j2 = choose|j: int| 0 <= j < unsorted.len() && unsorted[j] == sorted@[k2];
        }
        assert(dedup_order(s, ix));
        assert(out@ =~= rows_at(s, ix));
    }
    out
}


/// How many rows of `s` carry feature code `c`.
pub open spec fn code_count(s: Seq<RawCity>, c: Seq<char>) -> nat
    decreases s.len(),
{
    if s.len() == 0 {
        0
    } else {
        code_count(s.drop_last(), c) + if s.last().feature_code@ == c {
            1nat
        } else {
            0nat
        }
    }
}

/// Rows with feature code `c` occur in `s` and are dropped.
pub open spec fn is_dropped(s: Seq<RawCity>, c: Seq<char>) -> bool {
    !is_kept_code(c) && code_count(s, c) > 0
}

/// A tally of `a` rows comes before one of `b` rows: more rows first, then
/// by code.
pub open spec fn tally_before(ca: Seq<char>, a: nat, cb: Seq<char>, b: nat) -> bool {
    a > b || (a == b && text_lt(ca, cb))
}

/// `r` tallies the dropped rows of `s`: one entry per dropped feature code,
/// with its count, most common first, ties by code.
pub open spec fn dropped_tally(s: Seq<RawCity>, r: Seq<(String, usize)>) -> bool {
    &&& forall|k: int|
        0 <= k < r.len() ==> is_dropped(s, (#[trigger] r[k]).0@) && r[k].1 == code_count(s, r[k].0@)
    &&& forall|c: Seq<char>|
        is_dropped(s, c) ==> exists|k: int| 0 <= k < r.len() && (#[trigger] r[k]).0@ == c
    &&& forall|k1: int, k2: int|
        0 <= k1 < k2 < r.len() ==> tally_before(
            (#[trigger] r[k1]).0@,
            r[k1].1 as nat,
            (#[trigger] r[k2]).0@,
            r[k2].1 as nat,
        )
}

/// The tallies gathered from the first `n` rows.
spec fn tallies_ok(
    s: Seq<RawCity>,
    n: int,
    codes: Seq<String>,
    counts: Seq<usize>,
    index: Map<Seq<char>, usize>,
) -> bool {
    &&& codes.len() == counts.len()
    &&& forall|k: int|
        0 <= k < codes.len() ==> !is_kept_code((#[trigger] codes[k])@) && counts[k] == code_count(
            s.take(n),
            codes[k]@,
        ) && code_count(s.take(n), codes[k]@) > 0 && index.contains_key(codes[k]@) && index[codes[k]@]
            == k
    &&& forall|c: Seq<char>| #[trigger] index.contains_key(c) ==> index[c] < codes.len() && codes[index[c] as int]@ == c
    &&& forall|c: Seq<char>| is_dropped(s.take(n), c) ==> #[trigger] index.contains_key(c)
}

proof fn lemma_code_count_step(s: Seq<RawCity>, n: int, c: Seq<char>)
    requires
        0 <= n < s.len(),
    ensures
        code_count(s.take(n + 1), c) == code_count(s.take(n), c) + if s[n].feature_code@ == c {
            1nat
        } else {
            0nat
        },
{
    assert(s.take(n + 1).drop_last() =~= s.take(n));
}

proof fn lemma_code_count_bound(s: Seq<RawCity>, c: Seq<char>)
    ensures
        code_count(s, c) <= s.len(),
    decreases s.len(),
{
    if s.len() > 0 {
        lemma_code_count_bound(s.drop_last(), c);
    }
}

proof fn lemma_tally_order(ca: Seq<char>, a: nat, cb: Seq<char>, b: nat, cc: Seq<char>, c: nat)
    ensures
        !tally_before(ca, a, ca, a),
        !(tally_before(ca, a, cb, b) && tally_before(cb, b, ca, a)),
        ca != cb ==> tally_before(ca, a, cb, b) || tally_before(cb, b, ca, a),
        tally_before(ca, a, cb, b) && tally_before(cb, b, cc, c) ==> tally_before(ca, a, cc, c),
{
    lemma_text_lt_total(ca, cb);
    if text_lt(ca, cb) && text_lt(cb, cc) {
        lemma_text_lt_trans(ca, cb, cc);
    }
}

/// Whether a tally of `a` rows of code `ca` comes before one of `b` rows of
/// code `cb`.
fn tally_first(ca: &String, a: usize, cb: &String, b: usize) -> (r: bool)
    ensures
        r == tally_before(ca@, a as nat, cb@, b as nat),
{
    a > b || (a == b && text_less(ca.as_str(), cb.as_str()))
}

/// Rows whose feature code is not kept, counted per code, most common first
/// (ties by code).
#[verifier::rlimit(40)]
pub fn dropped_per_feature(cities: &[RawCity]) -> (r: Vec<(String, usize)>)
    ensures
        dropped_tally(cities@, r@),
{
    let ghost s = cities@;
    let n = cities.len();
    let mut codes: Vec<String> = Vec::new();
    let mut counts: Vec<usize> = Vec::new();
    let mut index: StringHashMap<usize> = StringHashMap::new();
    let mut i: usize = 0;
    proof {
        assert forall|c: Seq<char>| is_dropped(s.take(0), c) implies #[trigger] index@.contains_key(c) by {
            assert(s.take(0) =~= Seq::<RawCity>::empty());
        }
    }
    while i < n
        invariant
            i <= n == s.len(),
            s == cities@,
            tallies_ok(s, i as int, codes@, counts@, index@),
        decreases n - i,
    {
        let code = &cities[i].feature_code;
        proof {
            assert forall|c: Seq<char>| true implies code_count(s.take(i + 1), c) == code_count(s.take(i as int), c)
                + if s[i as int].feature_code@ == c {
                1nat
            } else {
                0nat
            } by {
                lemma_code_count_step(s, i as int, c);
            }
            lemma_code_count_bound(s.take(i as int), code@);
        }
        if !is_kept(code.as_str()) {
            match index.get(code.as_str()) {
                Some(k) => {
                    let k = *k;
                    let c = counts[k];
                    counts.set(k, c + 1);
                },
                None => {
                    let k = codes.len();
                    codes.push(code.clone());
                    counts.push(1);
                    index.insert(code.clone(), k);
                },
            }
        }
        i = i + 1;
    }
    let m = codes.len();
    proof {
        assert(s.take(n as int) =~= s);
        assert forall|j: int, k: int| 0 <= j < m && 0 <= k < m && j != k implies (#[trigger] codes@[j])@
            != (#[trigger] codes@[k])@ by {
            assert(index@[codes@[j]@] == j);
            assert(index@[codes@[k]@] == k);
        }
    }
    let mut order: Vec<usize> = Vec::new();
    let mut k: usize = 0;
    while k < m
        invariant
            k <= m == codes@.len() == counts@.len(),
            forall|j1: int, j2: int| 0 <= j1 < m && 0 <= j2 < m && j1 != j2 ==> (#[trigger] codes@[j1])@
                != (#[trigger] codes@[j2])@,
            order@.len() == k,
            forall|a: int| 0 <= a < order@.len() ==> (#[trigger] order@[a]) < k,
            forall|j: int| 0 <= j < k ==> #[trigger] order@.contains(j as usize),
            forall|a: int, b: int|
                0 <= a < b < order@.len() ==> tally_before(
                    codes@[#[trigger] order@[a] as int]@,
                    counts@[order@[a] as int] as nat,
                    codes@[#[trigger] order@[b] as int]@,
                    counts@[order@[b] as int] as nat,
                ),
        decreases m - k,
    {
        let ghost before = order@;
        let mut pos: usize = 0;
        while pos < order.len() && tally_first(&codes[order[pos]], counts[order[pos]], &codes[k], counts[k])
            invariant
                order@ == before,
                pos <= before.len(),
                k < m == codes@.len() == counts@.len(),
                forall|a: int| 0 <= a < before.len() ==> (#[trigger] before[a]) < k,
                forall|a: int|
                    0 <= a < pos ==> tally_before(
                        codes@[#[trigger] before[a] as int]@,
                        counts@[before[a] as int] as nat,
                        codes@[k as int]@,
                        counts@[k as int] as nat,
                    ),
            decreases before.len() - pos,
        {
            pos = pos + 1;
        }
        let ghost key = |j: int| (codes@[j]@, counts@[j] as nat);
        proof {
            assert forall|a: int| pos <= a < before.len() implies tally_before(
                codes@[k as int]@,
                counts@[k as int] as nat,
                codes@[#[trigger] before[a] as int]@,
                counts@[before[a] as int] as nat,
            ) by {
                let p = before[pos as int] as int;
                lemma_tally_order(
                    codes@[k as int]@,
                    counts@[k as int] as nat,
                    codes@[p]@,
                    counts@[p] as nat,
                    codes@[before[a] as int]@,
                    counts@[before[a] as int] as nat,
                );
                assert(codes@[k as int]@ != codes@[p]@);
            }
        }
        order.insert(pos, k);
        proof {
            let o = order@;
            assert forall|a: int, b: int| 0 <= a < b < o.len() implies tally_before(
                codes@[#[trigger] o[a] as int]@,
                counts@[o[a] as int] as nat,
                codes@[#[trigger] o[b] as int]@,
                counts@[o[b] as int] as nat,
            ) by {
                if a < pos && b > pos {
                    lemma_tally_order(
                        codes@[o[a] as int]@,
                        counts@[o[a] as int] as nat,
                        codes@[k as int]@,
                        counts@[k as int] as nat,
                        codes@[o[b] as int]@,
                        counts@[o[b] as int] as nat,
                    );
                } else if a < pos && b < pos {
                    assert(o[a] == before[a] && o[b] == before[b]);
                } else if a > pos {
                    assert(o[a] == before[a - 1] && o[b] == before[b - 1]);
                } else if a == pos {
                    assert(o[b] == before[b - 1]);
                } else {
                    assert(o[a] == before[a]);
                }
            }
            assert forall|a: int| 0 <= a < o.len() implies (#[trigger] o[a]) < k + 1 by {
                if a < pos {
                    assert(o[a] == before[a]);
                } else if a > pos {
                    assert(o[a] == before[a - 1]);
                }
            }
            assert forall|j: int| 0 <= j < k + 1 implies #[trigger] o.contains(j as usize) by {
                if j < k {
                    assert(before.contains(j as usize));
                    let a = choose|a: int| 0 <= a < before.len() && before[a] == j as usize;
                    if a < pos {
                        assert(o[a] == j as usize);
                    } else {
                        assert(o[a + 1] == j as usize);
                    }
                } else {
                    assert(o[pos as int] == k);
                }
            }
        }
        k = k + 1;
    }
    let mut out: Vec<(String, usize)> = Vec::new();
    let mut a: usize = 0;
    while a < m
        invariant
            a <= m == codes@.len() == counts@.len() == order@.len(),
            forall|b: int| 0 <= b < m ==> (#[trigger] order@[b]) < m,
            out@.len() == a,
            forall|b: int|
                0 <= b < a ==> (#[trigger] out@[b]).0@ == codes@[order@[b] as int]@ && out@[b].1
                    == counts@[order@[b] as int],
        decreases m - a,
    {
        let j = order[a];
        out.push((codes[j].clone(), counts[j]));
        a = a + 1;
    }
    proof {
        let r = out@;
        assert forall|b: int| 0 <= b < r.len() implies is_dropped(s, (#[trigger] r[b]).0@) && r[b].1
            == code_count(s, r[b].0@) by {
            let j = order@[b] as int;
            assert(codes@[j] == codes@[j]);
        }
        assert forall|c: Seq<char>| is_dropped(s, c) implies exists|b: int| 0 <= b < r.len() && (
        #[trigger] r[b]).0@ == c by {
            assert(index@.contains_key(c));
            let j = index@[c];
            assert(order@.contains((j as int) as usize));
            let b = choose|b: int| 0 <= b < order@.len() && order@[b] == j;
            assert(r[b].0@ == c);
        }
        assert forall|k1: int, k2: int| 0 <= k1 < k2 < r.len() implies tally_before(
            (#[trigger] r[k1]).0@,
            r[k1].1 as nat,
            (#[trigger] r[k2]).0@,
            r[k2].1 as nat,
        ) by {
            assert(tally_before(
                codes@[order@[k1] as int]@,
                counts@[order@[k1] as int] as nat,
                codes@[order@[k2] as int]@,
                counts@[order@[k2] as int] as nat,
            ));
        }
    }
    out
}


/// When no two rows of a place tie on both population and geonameid, the row
/// kept for it is the one that beats every other row of the place, wherever
/// the rows stand: the choice does not depend on their order.
pub proof fn lemma_keeps_the_best(s: Seq<RawCity>, i: int)
    requires
        0 <= i < s.len(),
        forall|j: int, k: int|
            0 <= j < s.len() && 0 <= k < s.len() && j != k && same_place(s[j], s[k]) ==> !(
            #[trigger] s[j].population == #[trigger] s[k].population && s[j].geonameid
                == s[k].geonameid),
    ensures
        keeps(s, i) <==> forall|j: int|
            0 <= j < s.len() && j != i && same_place(#[trigger] s[j], s[i]) ==> beats_spec(s[i], s[j]),
{
    if keeps(s, i) {
        assert forall|j: int|
            0 <= j < s.len() && j != i && same_place(#[trigger] s[j], s[i]) implies beats_spec(s[i], s[j]) by {
            assert(!beats_spec(s[j], s[i]));
            assert(!(s[j].population == s[i].population && s[j].geonameid == s[i].geonameid));
        }
    }
}


/// The rows of `s` at the positions `ix`, in that order.
pub open spec fn rows_at(s: Seq<RawCity>, ix: Seq<int>) -> Seq<RawCity> {
    ix.map_values(|i: int| s[i])
}

/// Some row of `rows` is of the same place as `c`.
pub open spec fn has_place(rows: Seq<RawCity>, c: RawCity) -> bool {
    exists|k: int| 0 <= k < rows.len() && same_place(#[trigger] rows[k], c)
}

/// No two rows of `s` share a geonameid.
pub open spec fn distinct_ids(s: Seq<RawCity>) -> bool {
    forall|j: int, k: int|
        0 <= j < s.len() && 0 <= k < s.len() && j != k ==> #[trigger] s[j].geonameid
            != #[trigger] s[k].geonameid
}

/// Among the first `n` rows, every place has a row that wins among them.
proof fn lemma_winner_exists(s: Seq<RawCity>, n: int, j: int)
    requires
        0 <= j < n <= s.len(),
    ensures
        exists|i: int| wins_among(s, n, i) && same_place(s[i], s[j]),
    decreases n,
{
    let last = n - 1;
    let earlier = exists|j2: int| 0 <= j2 < last && same_place(s[j2], s[j]);
    if j < last || earlier {
        let j2 = if j < last {
            j
        } else {
            choose|j2: int| 0 <= j2 < last && same_place(s[j2], s[j])
        };
        lemma_winner_exists(s, last, j2);
        let i = choose|i: int| wins_among(s, last, i) && same_place(s[i], s[j2]);
        if same_place(s[last], s[i]) && beats_spec(s[last], s[i]) {
            assert forall|k: int|
                #![trigger s[k]]
                0 <= k < n && same_place(s[k], s[last]) implies !beats_spec(s[k], s[last]) && (k < last
                    ==> beats_spec(s[last], s[k])) by {
                if k < last {
                    assert(same_place(s[k], s[i]));
                    assert(!beats_spec(s[k], s[i]));
                }
            }
            assert(wins_among(s, n, last));
        } else {
            assert forall|k: int|
                #![trigger s[k]]
                0 <= k < n && same_place(s[k], s[i]) implies !beats_spec(s[k], s[i]) && (k < i
                    ==> beats_spec(s[i], s[k])) by {
                if k < last {
                    assert(wins_among(s, last, i));
                }
            }
            assert(wins_among(s, n, i));
        }
    } else {
        assert(j == last);
        assert forall|k: int|
            #![trigger s[k]]
            0 <= k < n && same_place(s[k], s[last]) implies !beats_spec(s[k], s[last]) && (k < last
                ==> beats_spec(s[last], s[k])) by {
            if k < last {
                assert(same_place(s[k], s[j]));
            }
        }
        assert(wins_among(s, n, last));
    }
}

/// What deduplication keeps, where no two rows share a geonameid: the kept
/// rows run in strictly ascending geonameid; no two are of the same place;
/// every place of the input keeps a row; and each kept row is a row of the
/// input that every other row of its place is less populous than, or as
/// populous with a higher geonameid.
pub proof fn lemma_dedup_law(s: Seq<RawCity>, ix: Seq<int>)
    requires
        distinct_ids(s),
        dedup_order(s, ix),
    ensures
        forall|k1: int, k2: int|
            0 <= k1 < k2 < ix.len() ==> (#[trigger] rows_at(s, ix)[k1]).geonameid < (
            #[trigger] rows_at(s, ix)[k2]).geonameid,
        forall|k1: int, k2: int|
            0 <= k1 < ix.len() && 0 <= k2 < ix.len() && k1 != k2 ==> !same_place(
                #[trigger] rows_at(s, ix)[k1],
                #[trigger] rows_at(s, ix)[k2],
            ),
        forall|j: int| 0 <= j < s.len() ==> has_place(rows_at(s, ix), #[trigger] s[j]),
        forall|k: int|
            0 <= k < ix.len() ==> s.contains(#[trigger] rows_at(s, ix)[k]) && forall|j: int|
                0 <= j < s.len() && same_place(#[trigger] s[j], rows_at(s, ix)[k]) ==> s[j].population
                    < rows_at(s, ix)[k].population || (s[j].population == rows_at(s, ix)[k].population
                    && s[j].geonameid >= rows_at(s, ix)[k].geonameid),
{
    let out = rows_at(s, ix);
    assert forall|k1: int, k2: int| 0 <= k1 < k2 < ix.len() implies (#[trigger] out[k1]).geonameid
        < (#[trigger] out[k2]).geonameid by {
        assert(keeps(s, ix[k1]) && keeps(s, ix[k2]));
        if ix[k1] != ix[k2] {
            assert(s[ix[k1]].geonameid != s[ix[k2]].geonameid);
        }
    }
    assert forall|k1: int, k2: int|
        0 <= k1 < ix.len() && 0 <= k2 < ix.len() && k1 != k2 implies !same_place(
            #[trigger] out[k1],
            #[trigger] out[k2],
        ) by {
        assert(keeps(s, ix[k1]) && keeps(s, ix[k2]));
        if same_place(out[k1], out[k2]) {
            lemma_one_winner(s, s.len() as int, ix[k1], ix[k2]);
            if k1 < k2 {
                assert(out[k1].geonameid < out[k2].geonameid || ix[k1] < ix[k2]);
            } else {
                assert(out[k2].geonameid < out[k1].geonameid || ix[k2] < ix[k1]);
            }
        }
    }
    assert forall|j: int| 0 <= j < s.len() implies has_place(out, #[trigger] s[j]) by {
        lemma_winner_exists(s, s.len() as int, j);
        let i = choose|i: int| wins_among(s, s.len() as int, i) && same_place(s[i], s[j]);
        assert(keeps(s, i));
        assert(ix.contains(i));
        let k = choose|k: int| 0 <= k < ix.len() && ix[k] == i;
        assert(out[k] == s[i]);
        assert(same_place(out[k], s[j]));
    }
    assert forall|k: int| 0 <= k < ix.len() implies s.contains(#[trigger] out[k]) && forall|j: int|
        0 <= j < s.len() && same_place(#[trigger] s[j], out[k]) ==> s[j].population
            < out[k].population || (s[j].population == out[k].population && s[j].geonameid
            >= out[k].geonameid) by {
        assert(keeps(s, ix[k]));
        assert(out[k] == s[ix[k]]);
        assert forall|j: int|
            0 <= j < s.len() && same_place(#[trigger] s[j], out[k]) implies s[j].population
                < out[k].population || (s[j].population == out[k].population && s[j].geonameid
                >= out[k].geonameid) by {
            assert(!beats_spec(s[j], s[ix[k]]));
        }
    }
}

/// Some row of `rows` has the name, country code and admin1 code of `c`.
pub open spec fn has_key(rows: Seq<RawCity>, c: RawCity) -> bool {
    exists|k: int|
        0 <= k < rows.len() && (#[trigger] rows[k]).name@ == c.name@ && rows[k].country_code@
            == c.country_code@ && rows[k].admin1_code@ == c.admin1_code@
}

/// Every (name, country code, admin1 code) of the input has a kept row with
/// that name, country code and admin1 code, so rows that differ in any of the
/// three are never collapsed into one another; and no two kept rows agree in
/// all three.
pub proof fn lemma_dedup_keeps_every_key(s: Seq<RawCity>, ix: Seq<int>)
    requires
        dedup_order(s, ix),
    ensures
        forall|j: int| 0 <= j < s.len() ==> has_key(rows_at(s, ix), #[trigger] s[j]),
        forall|k1: int, k2: int|
            0 <= k1 < ix.len() && 0 <= k2 < ix.len() && k1 != k2 ==> !((#[trigger] rows_at(
                s,
                ix,
            )[k1]).name@ == (#[trigger] rows_at(s, ix)[k2]).name@ && rows_at(s, ix)[k1].country_code@
                == rows_at(s, ix)[k2].country_code@ && rows_at(s, ix)[k1].admin1_code@ == rows_at(
                s,
                ix,
            )[k2].admin1_code@),
{
    let out = rows_at(s, ix);
    assert forall|j: int| 0 <= j < s.len() implies has_key(out, #[trigger] s[j]) by {
        lemma_winner_exists(s, s.len() as int, j);
        let i = choose|i: int| wins_among(s, s.len() as int, i) && same_place(s[i], s[j]);
        assert(keeps(s, i));
        assert(ix.contains(i));
        let k = choose|k: int| 0 <= k < ix.len() && ix[k] == i;
        assert(out[k] == s[i]);
        assert(out[k].name@ == s[j].name@ && out[k].country_code@ == s[j].country_code@
            && out[k].admin1_code@ == s[j].admin1_code@);
    }
    assert forall|k1: int, k2: int|
        0 <= k1 < ix.len() && 0 <= k2 < ix.len() && k1 != k2 implies !((#[trigger] out[k1]).name@
            == (#[trigger] out[k2]).name@ && out[k1].country_code@ == out[k2].country_code@
            && out[k1].admin1_code@ == out[k2].admin1_code@) by {
        assert(keeps(s, ix[k1]) && keeps(s, ix[k2]));
        if out[k1].name@ == out[k2].name@ && out[k1].country_code@ == out[k2].country_code@
            && out[k1].admin1_code@ == out[k2].admin1_code@ {
            assert(same_place(s[ix[k1]], s[ix[k2]]));
            lemma_one_winner(s, s.len() as int, ix[k1], ix[k2]);
            if k1 < k2 {
                assert(s[ix[k1]].geonameid < s[ix[k2]].geonameid || ix[k1] < ix[k2]);
            } else {
                assert(s[ix[k2]].geonameid < s[ix[k1]].geonameid || ix[k2] < ix[k1]);
            }
        }
    }
}

/// Two lists in strictly ascending geonameid that hold the same rows are the
/// same list.
proof fn lemma_ascending_unique(a: Seq<RawCity>, b: Seq<RawCity>)
    requires
        forall|k1: int, k2: int| 0 <= k1 < k2 < a.len() ==> (#[trigger] a[k1]).geonameid < (#[trigger] a[k2]).geonameid,
        forall|k1: int, k2: int| 0 <= k1 < k2 < b.len() ==> (#[trigger] b[k1]).geonameid < (#[trigger] b[k2]).geonameid,
        forall|x: RawCity| a.contains(x) <==> b.contains(x),
    ensures
        a == b,
    decreases a.len(),
{
    if a.len() == 0 {
        if b.len() > 0 {
            assert(b.contains(b[0]));
        }
        assert(a =~= b);
    } else {
        assert(a.contains(a[0]));
        let p = choose|p: int| 0 <= p < b.len() && b[p] == a[0];
        assert(b.contains(b[0]));
        let q = choose|q: int| 0 <= q < a.len() && a[q] == b[0];
        if q > 0 {
            assert(a[0].geonameid < a[q].geonameid);
        }
        if p > 0 {
            assert(b[0].geonameid < b[p].geonameid);
        }
        assert(p == 0);
        let a2 = a.drop_first();
        let b2 = b.drop_first();
        assert forall|x: RawCity| a2.contains(x) <==> b2.contains(x) by {
            if a2.contains(x) {
                let k = choose|k: int| 0 <= k < a2.len() && a2[k] == x;
                assert(a[k + 1] == x);
                assert(a[0].geonameid < a[k + 1].geonameid);
                assert(a.contains(x));
                let m = choose|m: int| 0 <= m < b.len() && b[m] == x;
                assert(m != 0);
                assert(b2[m - 1] == x);
            }
            if b2.contains(x) {
                let k = choose|k: int| 0 <= k < b2.len() && b2[k] == x;
                assert(b[k + 1] == x);
                assert(b[0].geonameid < b[k + 1].geonameid);
                assert(b.contains(x));
                let m = choose|m: int| 0 <= m < a.len() && a[m] == x;
                assert(m != 0);
                assert(a2[m - 1] == x);
            }
        }
        lemma_ascending_unique(a2, b2);
        assert(a =~= seq![a[0]] + a2);
        assert(b =~= seq![b[0]] + b2);
    }
}

/// A row kept from `s1` is kept from any reordering `s2` of it, where no two
/// rows share a geonameid.
proof fn lemma_kept_in_reordering(s1: Seq<RawCity>, s2: Seq<RawCity>, i: int) -> (i2: int)
    requires
        distinct_ids(s1),
        distinct_ids(s2),
        s2.to_multiset() == s1.to_multiset(),
        0 <= i < s1.len(),
        keeps(s1, i),
    ensures
        0 <= i2 < s2.len(),
        s2[i2] == s1[i],
        keeps(s2, i2),
{
    let x = s1[i];
    assert(s1.contains(x));
    assert(s1.to_multiset().count(x) > 0);
    assert(s2.contains(x));
    let i2 = choose|i2: int| 0 <= i2 < s2.len() && s2[i2] == x;
    assert forall|j: int|
        #![trigger s2[j]]
        0 <= j < s2.len() && same_place(s2[j], s2[i2]) implies !beats_spec(s2[j], s2[i2]) && (j < i2
            ==> beats_spec(s2[i2], s2[j])) by {
        if j != i2 {
            let y = s2[j];
            assert(s2.contains(y));
            assert(s2.to_multiset().count(y) > 0);
            assert(s1.contains(y));
            let j1 = choose|j1: int| 0 <= j1 < s1.len() && s1[j1] == y;
            assert(s2[j].geonameid != s2[i2].geonameid);
            assert(j1 != i);
            assert(!beats_spec(s1[j1], s1[i]));
        }
    }
    i2
}

/// Deduplication does not depend on the order of its input: any reordering
/// of rows that share no geonameid keeps the same rows, in the same order.
pub proof fn lemma_dedup_any_order(s1: Seq<RawCity>, ix1: Seq<int>, s2: Seq<RawCity>, ix2: Seq<int>)
    requires
        distinct_ids(s1),
        distinct_ids(s2),
        s2.to_multiset() == s1.to_multiset(),
        dedup_order(s1, ix1),
        dedup_order(s2, ix2),
    ensures
        rows_at(s1, ix1) == rows_at(s2, ix2),
{
    let a = rows_at(s1, ix1);
    let b = rows_at(s2, ix2);
    lemma_dedup_law(s1, ix1);
    lemma_dedup_law(s2, ix2);
    assert forall|x: RawCity| a.contains(x) implies b.contains(x) by {
        let k = choose|k: int| 0 <= k < a.len() && a[k] == x;
        assert(keeps(s1, ix1[k]));
        let i2 = lemma_kept_in_reordering(s1, s2, ix1[k]);
        assert(ix2.contains(i2));
        let m = choose|m: int| 0 <= m < ix2.len() && ix2[m] == i2;
        assert(b[m] == x);
    }
    assert forall|x: RawCity| b.contains(x) implies a.contains(x) by {
        let k = choose|k: int| 0 <= k < b.len() && b[k] == x;
        assert(keeps(s2, ix2[k]));
        let i1 = lemma_kept_in_reordering(s2, s1, ix2[k]);
        assert(ix1.contains(i1));
        let m = choose|m: int| 0 <= m < ix1.len() && ix1[m] == i1;
        assert(a[m] == x);
    }
    lemma_ascending_unique(a, b);
}

/// The zones of `cities`.
pub open spec fn zones_of(cities: Seq<RawCity>) -> Set<Seq<char>> {
    Set::new(
        |tz: Seq<char>| exists|k: int| 0 <= k < cities.len() && (#[trigger] cities[k]).timezone@ == tz,
    )
}

/// The country codes of `cities` that `known` has no name for.
pub open spec fn unknown_countries(cities: Seq<RawCity>, known: Set<Seq<char>>) -> Set<Seq<char>> {
    Set::new(
        |code: Seq<char>|
            !known.contains(code) && exists|k: int|
                0 <= k < cities.len() && (#[trigger] cities[k]).country_code@ == code,
    )
}

/// How many of `cities` have no admin1 code.
pub open spec fn empty_admin1_count(cities: Seq<RawCity>) -> nat
    decreases cities.len(),
{
    if cities.len() == 0 {
        0
    } else {
        empty_admin1_count(cities.drop_last()) + if cities.last().admin1_code@.len() == 0 {
            1nat
        } else {
            0nat
        }
    }
}

/// What the kept rows span.
pub struct Span {
    /// How many distinct zones they are in.
    pub timezones: usize,
    /// How many have no admin1 code.
    pub empty_admin1: usize,
    /// How many distinct country codes among them have no country name.
    pub unknown_countries: usize,
}

/// What `cities` span, against the country names `countries`.
pub fn span(cities: &[RawCity], countries: &StringHashMap<String>) -> (r: Span)
    ensures
        r.timezones == zones_of(cities@).len(),
        r.empty_admin1 == empty_admin1_count(cities@),
        r.unknown_countries == unknown_countries(cities@, countries@.dom()).len(),
{
    let ghost s = cities@;
    let mut timezones = StringHashSet::new();
    let mut unknown = StringHashSet::new();
    let mut empty_admin1: usize = 0;
    let mut i: usize = 0;
    proof {
        assert(zones_of(s.take(0)) =~= timezones@);
        assert(unknown_countries(s.take(0), countries@.dom()) =~= unknown@);
        assert(s.take(0) =~= Seq::<RawCity>::empty());
    }
    while i < cities.len()
        invariant
            i <= s.len(),
            s == cities@,
            timezones@ == zones_of(s.take(i as int)),
            unknown@ == unknown_countries(s.take(i as int), countries@.dom()),
            empty_admin1 == empty_admin1_count(s.take(i as int)),
            empty_admin1 <= i,
        decreases s.len() - i,
    {
        let city = &cities[i];
        let ghost pre = s.take(i as int);
        let ghost next = s.take(i + 1);
        proof {
            assert(next.drop_last() =~= pre);
            assert(next.last() == s[i as int]);
        }
        timezones.insert(city.timezone.clone());
        if city.admin1_code.as_str().is_empty() {
            empty_admin1 = empty_admin1 + 1;
        }
        if !countries.contains_key(city.country_code.as_str()) {
            unknown.insert(city.country_code.clone());
        }
        proof {
            assert forall|tz: Seq<char>| zones_of(next).contains(tz) implies timezones@.contains(tz) by {
                let k = choose|k: int| 0 <= k < next.len() && (#[trigger] next[k]).timezone@ == tz;
                if k < i {
                    assert(next[k] == pre[k]);
                    assert(zones_of(pre).contains(tz));
                }
            }
            assert forall|tz: Seq<char>| timezones@.contains(tz) implies zones_of(next).contains(tz) by {
                if tz == city.timezone@ {
                    assert(next[i as int].timezone@ == tz);
                } else {
                    let k = choose|k: int| 0 <= k < pre.len() && (#[trigger] pre[k]).timezone@ == tz;
                    assert(next[k] == pre[k]);
                }
            }
            assert(timezones@ =~= zones_of(next));
            let dom = countries@.dom();
            assert forall|c: Seq<char>| unknown_countries(next, dom).contains(c) implies unknown@.contains(c) by {
                let k = choose|k: int| 0 <= k < next.len() && (#[trigger] next[k]).country_code@ == c;
                if k < i {
                    assert(next[k] == pre[k]);
                    assert(unknown_countries(pre, dom).contains(c));
                }
            }
            assert forall|c: Seq<char>| unknown@.contains(c) implies unknown_countries(next, dom).contains(c) by {
                if c == city.country_code@ && !dom.contains(c) {
                    assert(next[i as int].country_code@ == c);
                } else {
                    let k = choose|k: int| 0 <= k < pre.len() && (#[trigger] pre[k]).country_code@ == c;
                    assert(next[k] == pre[k]);
                }
            }
            assert(unknown@ =~= unknown_countries(next, dom));
        }
        i = i + 1;
    }
    proof {
        assert(s.take(s.len() as int) =~= s);
    }
    Span { timezones: timezones.len(), empty_admin1, unknown_countries: unknown.len() }
}

/// `n` spaces.
pub open spec fn spaces(n: int) -> Seq<char> {
    Seq::new(if n > 0 { n as nat } else { 0 }, |i: int| ' ')
}

/// `s` followed by spaces up to `width` characters, as `{:<width}` writes it.
pub open spec fn pad_right(s: Seq<char>, width: int) -> Seq<char> {
    s + spaces(width - s.len())
}

/// `s` after spaces up to `width` characters, as `{:>width}` writes it.
pub open spec fn pad_left(s: Seq<char>, width: int) -> Seq<char> {
    spaces(width - s.len()) + s
}

/// One line of the per-code tally: the code and its count, in columns.
pub open spec fn tally_line(code: Seq<char>, count: nat) -> Seq<char> {
    seq![' ', ' '] + pad_right(code, 6) + seq![' '] + pad_left(decimal(count), 5) + seq!['\n']
}

/// The per-code tally, a line each.
pub open spec fn tally_lines(d: Seq<(String, usize)>) -> Seq<char>
    decreases d.len(),
{
    if d.len() == 0 {
        Seq::empty()
    } else {
        tally_lines(d.drop_last()) + tally_line(d.last().0@, d.last().1 as nat)
    }
}

/// What the run found, for the report.
pub struct Summary {
    /// Rows read from cities5000.txt.
    pub parsed: usize,
    /// Rows left once the feature codes are filtered.
    pub filtered: usize,
    /// Rows left once duplicates collapse.
    pub kept: usize,
    /// The rows dropped per feature code, as `dropped_per_feature` counts them.
    pub dropped: Vec<(String, usize)>,
    /// Entries of the country table.
    pub countries: usize,
    /// Entries of the admin1 table.
    pub admin1: usize,
    /// What the kept rows span.
    pub span: Span,
}

/// The report's text: the counts at each stage, the tally of dropped codes,
/// the sizes of the lookup tables and what the kept rows span.
pub open spec fn report_text(s: Summary) -> Seq<char> {
    "parsed rows        "@ + decimal(s.parsed as nat) + seq!['\n'] + "dropped by feature "@ + decimal(
        (s.parsed - s.filtered) as nat,
    ) + seq!['\n'] + "collapsed by dedup "@ + decimal((s.filtered - s.kept) as nat) + seq!['\n']
        + "kept rows          "@ + decimal(s.kept as nat) + seq!['\n']
        + "\ndropped per feature code:\n"@ + tally_lines(s.dropped@) + "\nlookup tables:\n"@
        + "  countries "@ + decimal(s.countries as nat) + seq!['\n'] + "  admin1    "@ + decimal(
        s.admin1 as nat,
    ) + seq!['\n'] + "\nkept rows span:\n"@ + "  timezones             "@ + decimal(
        s.span.timezones as nat,
    ) + seq!['\n'] + "  empty admin1 codes    "@ + decimal(s.span.empty_admin1 as nat) + seq!['\n']
        + "  unknown country codes "@ + decimal(s.span.unknown_countries as nat) + seq!['\n']
}

/// Pushes `n` spaces.
fn push_spaces(out: &mut String, n: usize)
    ensures
        final(out)@ == old(out)@ + spaces(n as int),
{
    let mut k: usize = 0;
    while k < n
        invariant
            k <= n,
            out@ == old(out)@ + spaces(k as int),
        decreases n - k,
    {
        push_char(out, ' ');
        proof {
            assert(spaces(k as int).push(' ') =~= spaces(k + 1));
        }
        k = k + 1;
    }
}

/// Pushes `text`, padded on the right to `width` characters.
fn push_left_aligned(out: &mut String, text: &str, width: usize)
    ensures
        final(out)@ == old(out)@ + pad_right(text@, width as int),
{
    let n = chars_of(text).len();
    out.append(text);
    let pad = if n < width {
        width - n
    } else {
        0
    };
    push_spaces(out, pad);
    assert(spaces(pad as int) =~= spaces(width - text@.len()));
}

/// Pushes `n` in decimal, padded on the left to `width` characters.
fn push_right_aligned(out: &mut String, n: usize, width: usize)
    ensures
        final(out)@ == old(out)@ + pad_left(decimal(n as nat), width as int),
{
    let mut digits = String::new();
    push_decimal(&mut digits, n as u64);
    assert(digits@ =~= decimal(n as nat));
    let len = chars_of(digits.as_str()).len();
    let pad = if len < width {
        width - len
    } else {
        0
    };
    push_spaces(out, pad);
    assert(spaces(pad as int) =~= spaces(width - decimal(n as nat).len()));
    out.append(digits.as_str());
}

/// Pushes `n` in decimal and ends the line.
fn push_count_line(out: &mut String, n: usize)
    ensures
        final(out)@ == old(out)@ + decimal(n as nat) + seq!['\n'],
{
    push_decimal(out, n as u64);
    push_char(out, '\n');
}

/// The report on a run, for the terminal.
pub fn report(s: &Summary) -> (r: String)
    requires
        s.kept <= s.filtered <= s.parsed,
    ensures
        r@ == report_text(*s),
{
    let mut out = String::new();
    out.append("parsed rows        ");
    push_count_line(&mut out, s.parsed);
    out.append("dropped by feature ");
    push_count_line(&mut out, s.parsed - s.filtered);
    out.append("collapsed by dedup ");
    push_count_line(&mut out, s.filtered - s.kept);
    out.append("kept rows          ");
    push_count_line(&mut out, s.kept);
    out.append("\ndropped per feature code:\n");
    let ghost head = out@;
    let mut k: usize = 0;
    while k < s.dropped.len()
        invariant
            k <= s.dropped@.len(),
            out@ == head + tally_lines(s.dropped@.take(k as int)),
        decreases s.dropped@.len() - k,
    {
        let (code, count) = (&s.dropped[k].0, s.dropped[k].1);
        proof {
            assert(s.dropped@.take(k + 1).drop_last() =~= s.dropped@.take(k as int));
        }
        out.append("  ");
        push_left_aligned(&mut out, code.as_str(), 6);
        push_char(&mut out, ' ');
        push_right_aligned(&mut out, count, 5);
        push_char(&mut out, '\n');
        proof {
            reveal_strlit("  ");
            let t = s.dropped@.take(k + 1);
            assert(t.last() == s.dropped@[k as int]);
            assert(tally_lines(t) == tally_lines(t.drop_last()) + tally_line(
                t.last().0@,
                t.last().1 as nat,
            ));
            assert(out@ =~= head + tally_lines(s.dropped@.take(k + 1)));
        }
        k = k + 1;
    }
    assert(s.dropped@.take(s.dropped@.len() as int) =~= s.dropped@);
    out.append("\nlookup tables:\n");
    out.append("  countries ");
    push_count_line(&mut out, s.countries);
    out.append("  admin1    ");
    push_count_line(&mut out, s.admin1);
    out.append("\nkept rows span:\n");
    out.append("  timezones             ");
    push_count_line(&mut out, s.span.timezones);
    out.append("  empty admin1 codes    ");
    push_count_line(&mut out, s.span.empty_admin1);
    out.append("  unknown country codes ");
    push_count_line(&mut out, s.span.unknown_countries);
    proof {
        assert(out@ =~= report_text(*s));
    }
    out
}

} // verus!
