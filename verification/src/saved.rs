//! The saved city list on disk. It is nothing but an ordered set of
//! geonameids, so plain text, one id per line, says everything a format
//! would, and stays readable and hand-editable. Anything the file cannot
//! offer, from a missing config dir to a garbled line, degrades to fewer
//! cities rather than an error.

use vstd::prelude::*;

use crate::text::{
    chars_of, decimal, lines, parse_u32, parsed_u32, push_char, push_decimal, trim,
    trim_range, without_cr, line_end, lemma_lines_step, lemma_lines_cons, lemma_decimal,
    lemma_trim_unpadded, is_space,
};

verus! {

/// The comment the file opens with, so a curious reader knows what it holds.
pub const HEADER: &'static str = "# elsewhere saved cities, one geonameid per line, in list order";

/// The id a line of the file holds: none for a blank line, a comment, or
/// anything that does not read as a number.
pub open spec fn line_id(line: Seq<char>) -> Option<u32> {
    let t = trim(line);
    if t.len() == 0 || t[0] == '#' {
        None
    } else {
        parsed_u32(t)
    }
}

/// The ids of `ls`, in order, each kept the first time it appears.
pub open spec fn collect_ids(ls: Seq<Seq<char>>) -> Seq<u32>
    decreases ls.len(),
{
    if ls.len() == 0 {
        Seq::empty()
    } else {
        let prev = collect_ids(ls.drop_last());
        match line_id(ls.last()) {
            Some(id) => if prev.contains(id) {
                prev
            } else {
                prev.push(id)
            },
            None => prev,
        }
    }
}

/// The geonameids that the file text `text` holds.
pub open spec fn saved_ids(text: Seq<char>) -> Seq<u32> {
    collect_ids(lines(text))
}

/// One line per id, each after a line feed.
pub open spec fn id_lines(ids: Seq<u32>) -> Seq<char>
    decreases ids.len(),
{
    if ids.len() == 0 {
        Seq::empty()
    } else {
        seq!['\n'] + decimal(ids[0] as nat) + id_lines(ids.drop_first())
    }
}

/// The file text for `ids`: the header, one id per line, a final line feed.
pub open spec fn rendered(ids: Seq<u32>) -> Seq<char> {
    HEADER@ + id_lines(ids) + seq!['\n']
}

/// The name of the directory the list lives in.
pub open spec fn app_dir() -> Seq<char> {
    seq!['e', 'l', 's', 'e', 'w', 'h', 'e', 'r', 'e']
}

/// The conventional config directory under a home directory.
pub open spec fn config_part() -> Seq<char> {
    seq!['.', 'c', 'o', 'n', 'f', 'i', 'g']
}

/// The name of the file the list is kept in.
pub open spec fn file_part() -> Seq<char> {
    seq!['s', 'a', 'v', 'e', 'd']
}

/// `part` appended to the path `base` as `PathBuf::join` does for a relative
/// part: with a `/` between them unless `base` already ends in one.
pub open spec fn joined(base: Seq<char>, part: Seq<char>) -> Seq<char> {
    if base.len() > 0 && base.last() == '/' {
        base + part
    } else {
        base + seq!['/'] + part
    }
}

/// The text of an optional string.
pub open spec fn text_of(s: Option<&str>) -> Option<Seq<char>> {
    match s {
        Some(t) => Some(t@),
        None => None,
    }
}

/// Where the list lives, given `XDG_CONFIG_HOME` and `HOME`, an empty
/// variable counting as unset.
pub open spec fn config_dir(xdg: Option<Seq<char>>, home: Option<Seq<char>>) -> Option<Seq<char>> {
    if xdg is Some && xdg->0.len() > 0 {
        Some(joined(xdg->0, app_dir()))
    } else if home is Some && home->0.len() > 0 {
        Some(joined(joined(home->0, config_part()), app_dir()))
    } else {
        None
    }
}

fn contains_id(v: &Vec<u32>, id: u32) -> (r: bool)
    ensures
        r == v@.contains(id),
{
    let mut k: usize = 0;
    while k < v.len()
        invariant
            k <= v@.len(),
            forall|m: int| 0 <= m < k ==> v@[m] != id,
        decreases v@.len() - k,
    {
        if v[k] == id {
            return true;
        }
        k = k + 1;
    }
    false
}

proof fn lemma_collect_no_dups(ls: Seq<Seq<char>>)
    ensures
        collect_ids(ls).no_duplicates(),
    decreases ls.len(),
{
    if ls.len() > 0 {
        lemma_collect_no_dups(ls.drop_last());
    }
}

/// The geonameids of `text`, in order. Blank lines, comments and anything
/// unparseable are dropped, as are repeats of an id already seen.
pub fn parse(text: &str) -> (r: Vec<u32>)
    ensures
        r@ == saved_ids(text@),
        r@.no_duplicates(),
{
    let chars = chars_of(text);
    let n = chars.len();
    let mut saved: Vec<u32> = Vec::new();
    let mut p: usize = 0;
    let ghost mut done: Seq<Seq<char>> = Seq::empty();
    assert(chars@.skip(0) =~= chars@);
    while p < n
        invariant
            p <= n == chars@.len(),
            chars@ == text@,
            lines(chars@) == done + lines(chars@.skip(p as int)),
            saved@ == collect_ids(done),
        decreases n - p,
    {
        let e = line_end(chars.as_slice(), p);
        proof {
            lemma_lines_step(chars@, p as int, e as int);
        }
        let mut b = e;
        if e < n && e > p && chars[e - 1] == '\r' {
            b = e - 1;
        }
        let ghost line = chars@.subrange(p as int, b as int);
        proof {
            if e < n {
                assert(without_cr(chars@.subrange(p as int, e as int)) =~= line);
            }
        }
        let (a, z) = trim_range(chars.as_slice(), p, b);
        if a < z && chars[a] != '#' {
            match parse_u32(chars.as_slice(), a, z) {
                Some(id) => {
                    if !contains_id(&saved, id) {
                        saved.push(id);
                    }
                },
                None => {},
            }
        }
        proof {
            let t = chars@.subrange(a as int, z as int);
            assert(t.len() > 0 ==> t[0] == chars@[a as int]);
            let d2 = done.push(line);
            assert(d2.drop_last() =~= done);
            assert(d2.last() == line);
            if e < n {
                assert(lines(chars@.skip(p as int)) == seq![line] + lines(chars@.skip(e + 1)));
                assert(done + lines(chars@.skip(p as int)) =~= d2 + lines(chars@.skip(e + 1)));
            } else {
                assert(lines(chars@.skip(n as int)) == Seq::<Seq<char>>::empty());
                assert(done + lines(chars@.skip(p as int)) =~= d2 + lines(chars@.skip(n as int)));
            }
            done = d2;
        }
        p = if e < n {
            e + 1
        } else {
            n
        };
    }
    proof {
        assert(lines(chars@.skip(n as int)) == Seq::<Seq<char>>::empty());
        assert(done + Seq::<Seq<char>>::empty() =~= done);
        lemma_collect_no_dups(lines(text@));
    }
    saved
}

proof fn lemma_id_lines_push(ids: Seq<u32>, x: u32)
    ensures
        id_lines(ids.push(x)) == id_lines(ids) + seq!['\n'] + decimal(x as nat),
    decreases ids.len(),
{
    if ids.len() == 0 {
        assert(ids.push(x).drop_first() =~= ids);
        assert(id_lines(ids.push(x)) =~= id_lines(ids) + seq!['\n'] + decimal(x as nat));
    } else {
        assert(ids.push(x).drop_first() =~= ids.drop_first().push(x));
        lemma_id_lines_push(ids.drop_first(), x);
        assert(id_lines(ids.push(x)) =~= id_lines(ids) + seq!['\n'] + decimal(x as nat));
    }
}

/// The file text for `saved`: the header, then one id per line.
pub fn render(saved: &[u32]) -> (r: String)
    ensures
        r@ == rendered(saved@),
{
    let mut out = String::from_str(HEADER);
    let mut k: usize = 0;
    while k < saved.len()
        invariant
            k <= saved@.len(),
            out@ == HEADER@ + id_lines(saved@.take(k as int)),
        decreases saved@.len() - k,
    {
        proof {
            lemma_id_lines_push(saved@.take(k as int), saved@[k as int]);
            assert(saved@.take(k as int).push(saved@[k as int]) =~= saved@.take(k + 1));
        }
        push_char(&mut out, '\n');
        push_decimal(&mut out, saved[k] as u64);
        proof {
            assert(out@ =~= HEADER@ + id_lines(saved@.take(k + 1)));
        }
        k = k + 1;
    }
    push_char(&mut out, '\n');
    assert(saved@.take(saved@.len() as int) =~= saved@);
    out
}

/// Where the list lives, given the environment's `XDG_CONFIG_HOME` and
/// `HOME`. `None` means there is nowhere sensible to write, and persistence
/// is silently skipped.
pub fn dir(xdg: Option<&str>, home: Option<&str>) -> (r: Option<String>)
    ensures
        r matches Some(d) ==> config_dir(text_of(xdg), text_of(home)) == Some(d@),
        r is None ==> config_dir(text_of(xdg), text_of(home)) is None,
{
    proof {
        reveal_strlit("elsewhere");
        reveal_strlit(".config");
    }
    match xdg {
        Some(x) if !x.is_empty() => {
            let mut out = String::from_str(x);
            join_onto(&mut out, "elsewhere");
            return Some(out);
        },
        _ => {},
    }
    match home {
        Some(h) if !h.is_empty() => {
            let mut out = String::from_str(h);
            join_onto(&mut out, ".config");
            join_onto(&mut out, "elsewhere");
            Some(out)
        },
        _ => None,
    }
}

/// The saved file's path, given the same variables as `dir`.
pub fn path(xdg: Option<&str>, home: Option<&str>) -> (r: Option<String>)
    ensures
        r matches Some(p) ==> config_dir(text_of(xdg), text_of(home)) matches Some(
            d,
        ) && p@ == joined(d, file_part()),
        r is None ==> config_dir(text_of(xdg), text_of(home)) is None,
{
    proof {
        reveal_strlit("saved");
    }
    match dir(xdg, home) {
        Some(mut d) => {
            join_onto(&mut d, "saved");
            Some(d)
        },
        None => None,
    }
}

/// Appends the relative path `part` to `base`, as `PathBuf::join` would.
fn join_onto(base: &mut String, part: &str)
    requires
        old(base)@.len() > 0,
    ensures
        final(base)@ == joined(old(base)@, part@),
{
    let chars = chars_of(base.as_str());
    if chars[chars.len() - 1] != '/' {
        push_char(base, '/');
    }
    base.append(part);
}


/// The text of the header line.
proof fn lemma_header()
    ensures
        HEADER@.len() > 0,
        HEADER@[0] == '#',
        !is_space(HEADER@[0]),
        !is_space(HEADER@.last()),
        HEADER@.last() != '\r',
        forall|k: int| 0 <= k < HEADER@.len() ==> HEADER@[k] != '\n',
{
    reveal_strlit("# elsewhere saved cities, one geonameid per line, in list order");
}

proof fn lemma_rendered_lines(ids: Seq<u32>)
    requires
        ids.len() > 0,
    ensures
        lines(id_lines(ids).drop_first() + seq!['\n']) == ids.map_values(|id: u32| decimal(id as nat)),
    decreases ids.len(),
{
    let d = decimal(ids[0] as nat);
    lemma_decimal(ids[0] as nat);
    let rest = ids.drop_first();
    if rest.len() == 0 {
        assert(id_lines(rest) == Seq::<char>::empty());
        assert(id_lines(ids).drop_first() + seq!['\n'] =~= d + seq!['\n'] + Seq::<char>::empty());
        lemma_lines_cons(d, Seq::<char>::empty());
        assert(lines(Seq::<char>::empty()) == Seq::<Seq<char>>::empty());
    } else {
        lemma_rendered_lines(rest);
        assert(id_lines(ids).drop_first() + seq!['\n'] =~= d + seq!['\n'] + (id_lines(rest).drop_first()
            + seq!['\n']));
        lemma_lines_cons(d, id_lines(rest).drop_first() + seq!['\n']);
    }
    assert(ids.map_values(|id: u32| decimal(id as nat)) =~= seq![d] + rest.map_values(
        |id: u32| decimal(id as nat),
    ));
}

/// The ids of `ids` in order, each kept the first time it appears.
pub open spec fn first_occurrences(ids: Seq<u32>) -> Seq<u32>
    decreases ids.len(),
{
    if ids.len() == 0 {
        Seq::empty()
    } else {
        let prev = first_occurrences(ids.drop_last());
        if prev.contains(ids.last()) {
            prev
        } else {
            prev.push(ids.last())
        }
    }
}

/// A list that holds no id twice keeps all of its ids.
proof fn lemma_first_occurrences_no_dups(ids: Seq<u32>)
    requires
        ids.no_duplicates(),
    ensures
        first_occurrences(ids) == ids,
    decreases ids.len(),
{
    if ids.len() > 0 {
        let init = ids.drop_last();
        lemma_first_occurrences_no_dups(init);
        let x = ids.last();
        assert(!init.contains(x)) by {
            if init.contains(x) {
                let k = choose|k: int| 0 <= k < init.len() && init[k] == x;
                assert(ids[k] == ids[ids.len() - 1]);
            }
        }
        assert(init.push(x) =~= ids);
    }
}

proof fn lemma_collect_rendered(ids: Seq<u32>)
    ensures
        collect_ids(seq![HEADER@] + ids.map_values(|id: u32| decimal(id as nat)))
            == first_occurrences(ids),
    decreases ids.len(),
{
    let ls = seq![HEADER@] + ids.map_values(|id: u32| decimal(id as nat));
    if ids.len() == 0 {
        lemma_header();
        lemma_trim_unpadded(HEADER@);
        assert(ls.drop_last() =~= Seq::<Seq<char>>::empty());
        assert(ls.last() == HEADER@);
        assert(line_id(HEADER@) is None);
        assert(collect_ids(ls.drop_last()) == Seq::<u32>::empty());
        assert(collect_ids(ls) == Seq::<u32>::empty());
    } else {
        let init = ids.drop_last();
        assert(ls.drop_last() =~= seq![HEADER@] + init.map_values(|id: u32| decimal(id as nat)));
        lemma_collect_rendered(init);
        let x = ids.last();
        assert(ls.last() == decimal(x as nat));
        lemma_decimal(x as nat);
        let d = decimal(x as nat);
        lemma_trim_unpadded(d);
        assert(d[0] != '+' && d[0] != '#');
        assert(parsed_u32(d) == Some(x));
        assert(line_id(d) == Some(x));
    }
}

/// Writing any list and reading it back gives its ids in order, each kept
/// where it first appears: later repeats are dropped.
pub proof fn lemma_render_parse_any(ids: Seq<u32>)
    ensures
        saved_ids(rendered(ids)) == first_occurrences(ids),
{
    lemma_header();
    let tail = if ids.len() == 0 {
        Seq::<char>::empty()
    } else {
        id_lines(ids).drop_first() + seq!['\n']
    };
    assert(rendered(ids) =~= HEADER@ + seq!['\n'] + tail);
    lemma_lines_cons(HEADER@, tail);
    if ids.len() == 0 {
        assert(lines(tail) == Seq::<Seq<char>>::empty());
        assert(ids.map_values(|id: u32| decimal(id as nat)) =~= Seq::<Seq<char>>::empty());
    } else {
        lemma_rendered_lines(ids);
    }
    assert(seq![HEADER@] + lines(tail) =~= seq![HEADER@] + ids.map_values(|id: u32| decimal(id as nat)));
    lemma_collect_rendered(ids);
}

/// Writing a list and reading it back gives the same list, in the same
/// order, whenever it holds no id twice (which `parse` never yields).
pub proof fn lemma_render_parse(ids: Seq<u32>)
    requires
        ids.no_duplicates(),
    ensures
        saved_ids(rendered(ids)) == ids,
{
    lemma_render_parse_any(ids);
    lemma_first_occurrences_no_dups(ids);
}

/// Reading a file, writing back what was read, and reading that again
/// gives what the first read gave.
pub proof fn lemma_parse_render_parse(text: Seq<char>)
    ensures
        saved_ids(rendered(saved_ids(text))) == saved_ids(text),
{
    lemma_collect_no_dups(lines(text));
    lemma_render_parse(saved_ids(text));
}


/// `s` without any occurrence of `id`.
pub open spec fn without(s: Seq<u32>, id: u32) -> Seq<u32>
    decreases s.len(),
{
    if s.len() == 0 {
        Seq::empty()
    } else if s.last() == id {
        without(s.drop_last(), id)
    } else {
        without(s.drop_last(), id).push(s.last())
    }
}

/// Dropping an id the list does not hold leaves it as it is.
proof fn lemma_without_absent(s: Seq<u32>, id: u32)
    requires
        !s.contains(id),
    ensures
        without(s, id) == s,
    decreases s.len(),
{
    if s.len() > 0 {
        assert(!s.drop_last().contains(id)) by {
            if s.drop_last().contains(id) {
                let k = choose|k: int| 0 <= k < s.drop_last().len() && s.drop_last()[k] == id;
                assert(s[k] == id);
            }
        }
        lemma_without_absent(s.drop_last(), id);
        assert(s.drop_last().push(s.last()) =~= s);
    }
}

/// Deleting a city just added gives the list back as it was: `add` and
/// `delete` of the same id, in that order, leave the list unchanged.
pub proof fn lemma_add_then_delete(s: Seq<u32>, id: u32)
    ensures
        without(if s.contains(id) { s } else { s.push(id) }, id) == without(s, id),
        !s.contains(id) ==> without(s.push(id), id) == s,
{
    if !s.contains(id) {
        let t = s.push(id);
        assert(t.drop_last() =~= s);
        lemma_without_absent(s, id);
    }
}

/// Deleting twice deletes no more than deleting once.
pub proof fn lemma_delete_twice(s: Seq<u32>, id: u32)
    ensures
        without(without(s, id), id) == without(s, id),
{
    lemma_without_lacks(s, id);
    lemma_without_absent(without(s, id), id);
}

/// Saves `geonameid` at the end of the list, unless it is already there.
/// Returns whether the list changed and needs writing out.
pub fn add(saved: &mut Vec<u32>, geonameid: u32) -> (added: bool)
    ensures
        added == !old(saved)@.contains(geonameid),
        added ==> final(saved)@ == old(saved)@.push(geonameid),
        !added ==> final(saved)@ == old(saved)@,
        old(saved)@.no_duplicates() ==> final(saved)@.no_duplicates(),
{
    if contains_id(saved, geonameid) {
        return false;
    }
    saved.push(geonameid);
    true
}

/// Drops every occurrence of `geonameid` from the list, keeping the order
/// of the rest.
pub fn delete(saved: &mut Vec<u32>, geonameid: u32)
    ensures
        final(saved)@ == without(old(saved)@, geonameid),
        !final(saved)@.contains(geonameid),
{
    let kept = without_id(saved, geonameid);
    proof {
        lemma_without_lacks(saved@, geonameid);
    }
    *saved = kept;
}

/// `saved` without any occurrence of `geonameid`, as a new list.
fn without_id(saved: &Vec<u32>, geonameid: u32) -> (r: Vec<u32>)
    ensures
        r@ == without(saved@, geonameid),
{
    let ghost s = saved@;
    let mut kept: Vec<u32> = Vec::new();
    let mut k: usize = 0;
    while k < saved.len()
        invariant
            k <= s.len(),
            saved@ == s,
            kept@ == without(s.take(k as int), geonameid),
        decreases s.len() - k,
    {
        proof {
            assert(s.take(k + 1).drop_last() =~= s.take(k as int));
        }
        let id = saved[k];
        if id != geonameid {
            kept.push(id);
        }
        k = k + 1;
    }
    proof {
        assert(s.take(s.len() as int) =~= s);
    }
    kept
}

/// `without(s, id)` holds exactly the ids of `s` other than `id`.
pub proof fn lemma_without_contains(s: Seq<u32>, id: u32, x: u32)
    ensures
        without(s, id).contains(x) <==> (s.contains(x) && x != id),
    decreases s.len(),
{
    if s.len() > 0 {
        let init = s.drop_last();
        lemma_without_contains(init, id, x);
        assert(s == init.push(s.last()));
        if s.contains(x) && x != s.last() {
            let k = choose|k: int| 0 <= k < s.len() && s[k] == x;
            assert(init[k] == x);
        }
        if init.contains(x) {
            let k = choose|k: int| 0 <= k < init.len() && init[k] == x;
            assert(s[k] == x);
        }
        if s.last() != id {
            let w = without(init, id);
            assert(w.push(s.last())[w.len() as int] == s.last());
            if w.contains(x) {
                let k = choose|k: int| 0 <= k < w.len() && w[k] == x;
                assert(w.push(s.last())[k] == x);
            }
            if w.push(s.last()).contains(x) && x != s.last() {
                let k = choose|k: int| 0 <= k < w.len() + 1 && w.push(s.last())[k] == x;
                assert(w[k] == x);
            }
        }
    }
}

/// `p` is where `id` first stands in `s`.
pub open spec fn is_first(s: Seq<u32>, id: u32, p: int) -> bool {
    0 <= p < s.len() && s[p] == id && forall|m: int| 0 <= m < p ==> s[m] != id
}

/// The list `s` once the row `dragged` is dropped before the row `before`,
/// or at the end without one. A drop that names a row the list does not
/// hold, or lands a row before itself, leaves the list as it is.
pub open spec fn reordered(s: Seq<u32>, dragged: u32, before: Option<u32>) -> Seq<u32> {
    if !s.contains(dragged) {
        s
    } else {
        match before {
            None => without(s, dragged).push(dragged),
            Some(b) => if b == dragged || !s.contains(b) {
                s
            } else {
                let rest = without(s, dragged);
                rest.insert(choose|p: int| is_first(rest, b, p), dragged)
            },
        }
    }
}

/// Whether two lists hold the same ids in the same order.
fn same_list(a: &Vec<u32>, b: &Vec<u32>) -> (r: bool)
    ensures
        r == (a@ == b@),
{
    if a.len() != b.len() {
        return false;
    }
    let mut k: usize = 0;
    while k < a.len()
        invariant
            k <= a@.len() == b@.len(),
            forall|m: int| 0 <= m < k ==> a@[m] == b@[m],
        decreases a@.len() - k,
    {
        if a[k] != b[k] {
            return false;
        }
        k = k + 1;
    }
    assert(a@ =~= b@);
    true
}

/// Lands the dragged row `dragged` before the row `before`, or at the end
/// without one. Returns whether the list changed and needs writing out.
pub fn reorder(saved: &mut Vec<u32>, dragged: u32, before: Option<u32>) -> (changed: bool)
    ensures
        final(saved)@ == reordered(old(saved)@, dragged, before),
        changed == (final(saved)@ != old(saved)@),
{
    if !contains_id(saved, dragged) {
        return false;
    }
    let mut rest = without_id(saved, dragged);
    match before {
        None => {
            rest.push(dragged);
        },
        Some(b) => {
            if b == dragged || !contains_id(saved, b) {
                return false;
            }
            proof {
                lemma_without_contains(saved@, dragged, b);
            }
            let mut p: usize = 0;
            while p < rest.len() && rest[p] != b
                invariant
                    p <= rest@.len(),
                    rest@.contains(b),
                    forall|m: int| 0 <= m < p ==> rest@[m] != b,
                decreases rest@.len() - p,
            {
                p = p + 1;
            }
            if p == rest.len() {
                proof {
                    let k = choose|k: int| 0 <= k < rest@.len() && rest@[k] == b;
                    assert(rest@[k] != b);
                }
            }
            proof {
                assert(is_first(rest@, b, p as int));
                let q = choose|q: int| is_first(rest@, b, q);
                if q < p {
                    assert(rest@[q] != b);
                } else if p < q {
                    assert(rest@[p as int] != b);
                }
            }
            rest.insert(p, dragged);
        },
    }
    let changed = !same_list(&rest, saved);
    *saved = rest;
    changed
}

/// A reordered list holds the same ids as before.
pub proof fn lemma_reordered_contains(s: Seq<u32>, dragged: u32, before: Option<u32>, x: u32)
    ensures
        reordered(s, dragged, before).contains(x) <==> s.contains(x),
{
    lemma_without_contains(s, dragged, x);
    if s.contains(dragged) {
        let rest = without(s, dragged);
        match before {
            None => {
                if rest.contains(x) {
                    let k = choose|k: int| 0 <= k < rest.len() && rest[k] == x;
                    assert(rest.push(dragged)[k] == x);
                }
                assert(rest.push(dragged)[rest.len() as int] == dragged);
                if rest.push(dragged).contains(x) && x != dragged {
                    let k = choose|k: int| 0 <= k < rest.len() + 1 && rest.push(dragged)[k] == x;
                    assert(rest[k] == x);
                }
            },
            Some(b) => {
                if b != dragged && s.contains(b) {
                    lemma_without_contains(s, dragged, b);
                    let p = choose|p: int| is_first(rest, b, p);
                    let k0 = choose|k: int| 0 <= k < rest.len() && rest[k] == b;
                    assert(is_first(rest, b, p)) by {
                        lemma_first_exists(rest, b, k0);
                    }
                    let t = rest.insert(p, dragged);
                    assert(t[p] == dragged);
                    if rest.contains(x) {
                        let k = choose|k: int| 0 <= k < rest.len() && rest[k] == x;
                        if k < p {
                            assert(t[k] == x);
                        } else {
                            assert(t[k + 1] == x);
                        }
                    }
                    if t.contains(x) && x != dragged {
                        let k = choose|k: int| 0 <= k < t.len() && t[k] == x;
                        if k < p {
                            assert(rest[k] == x);
                        } else {
                            assert(k != p);
                            assert(rest[k - 1] == x);
                        }
                    }
                }
            },
        }
    }
}

/// An id that `s` holds has a first position.
proof fn lemma_first_exists(s: Seq<u32>, id: u32, k: int)
    requires
        0 <= k < s.len(),
        s[k] == id,
    ensures
        exists|p: int| is_first(s, id, p),
    decreases k,
{
    if exists|m: int| 0 <= m < k && s[m] == id {
        let m = choose|m: int| 0 <= m < k && s[m] == id;
        lemma_first_exists(s, id, m);
    } else {
        assert(is_first(s, id, k));
    }
}

proof fn lemma_without_lacks(s: Seq<u32>, id: u32)
    ensures
        !without(s, id).contains(id),
    decreases s.len(),
{
    if s.len() > 0 {
        lemma_without_lacks(s.drop_last(), id);
    }
}

} // verus!
