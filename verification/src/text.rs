//! Character-level helpers shared by the parsers and the search.

use vstd::prelude::*;

verus! {

/// The Unicode `White_Space` property, which is what `char::is_whitespace`
/// and `str::trim` go by.
pub open spec fn is_space(c: char) -> bool {
    let n = c as u32;
    ||| 0x09 <= n <= 0x0d
    ||| n == 0x20
    ||| n == 0x85
    ||| n == 0xa0
    ||| n == 0x1680
    ||| 0x2000 <= n <= 0x200a
    ||| n == 0x2028
    ||| n == 0x2029
    ||| n == 0x202f
    ||| n == 0x205f
    ||| n == 0x3000
}

/// Whether `c` is white space.
pub fn is_whitespace(c: char) -> (r: bool)
    ensures
        r == is_space(c),
{
    let n = c as u32;
    (0x09 <= n && n <= 0x0d) || n == 0x20 || n == 0x85 || n == 0xa0 || n == 0x1680 || (0x2000
        <= n && n <= 0x200a) || n == 0x2028 || n == 0x2029 || n == 0x202f || n == 0x205f || n
        == 0x3000
}

/// `s` without its leading white space.
pub open spec fn trim_start(s: Seq<char>) -> Seq<char>
    decreases s.len(),
{
    if s.len() > 0 && is_space(s[0]) {
        trim_start(s.drop_first())
    } else {
        s
    }
}

/// `s` without its trailing white space.
pub open spec fn trim_end(s: Seq<char>) -> Seq<char>
    decreases s.len(),
{
    if s.len() > 0 && is_space(s.last()) {
        trim_end(s.drop_last())
    } else {
        s
    }
}

/// `s` without white space at either end, as `str::trim` leaves it.
pub open spec fn trim(s: Seq<char>) -> Seq<char> {
    trim_end(trim_start(s))
}

/// What `str::to_lowercase` makes of a string: Unicode's lowercase mapping,
/// a function of the characters alone.
pub uninterp spec fn lowercase(s: Seq<char>) -> Seq<char>;

/// Unicode's Alphabetic or Numeric property, which `char::is_alphanumeric`
/// reports.
pub uninterp spec fn is_alnum(c: char) -> bool;

/// The decimal digit for `d`, which is below ten.
pub open spec fn digit_char(d: int) -> char {
    ((d + 48) as u8) as char
}

/// The decimal digits of `n`, most significant first, without leading zeros
/// ("0" for zero).
pub open spec fn decimal(n: nat) -> Seq<char>
    decreases n,
{
    if n < 10 {
        seq![digit_char(n as int)]
    } else {
        decimal(n / 10).push(digit_char((n % 10) as int))
    }
}

/// The characters of `s`, in order.
pub fn chars_of(s: &str) -> (r: Vec<char>)
    ensures
        r@ == s@,
{
    let mut out: Vec<char> = Vec::new();
    for c in it: s.chars()
        invariant
            out@ == it.seq().take(it.index() as int),
            it.seq() == s@,
    {
        out.push(c);
    }
    out
}

/// `c` with an ASCII capital letter made small, anything else as it is.
pub open spec fn ascii_lower(c: char) -> char {
    if 'A' <= c <= 'Z' {
        ((c as u32) + 32) as char
    } else {
        c
    }
}

/// Every character of `s` is ASCII.
pub open spec fn is_ascii_text(s: Seq<char>) -> bool {
    forall|k: int| 0 <= k < s.len() ==> (#[trigger] s[k] as u32) < 0x80
}

/// `str::to_lowercase`: the contract names the result `lowercase`, and
/// states what Unicode's lowercase mapping, which std documents it follows,
/// does to ASCII text: capital letters become small, the rest stays.
#[verifier::external_body]
pub(crate) fn to_lower(s: &str) -> (r: String)
    ensures
        r@ == lowercase(s@),
        is_ascii_text(s@) ==> r@ == s@.map_values(|c: char| ascii_lower(c)),
{
    s.to_lowercase()
}

/// `char::is_alphanumeric`: the contract names the result `is_alnum`, and
/// states the ASCII cases that the documentation spells out.
#[verifier::external_body]
pub(crate) fn char_is_alphanumeric(c: char) -> (r: bool)
    ensures
        r == is_alnum(c),
        ('a' <= c <= 'z' || 'A' <= c <= 'Z' || '0' <= c <= '9') ==> r,
        (c as u32) < 0x80 && !('a' <= c <= 'z' || 'A' <= c <= 'Z' || '0' <= c <= '9') ==> !r,
{
    c.is_alphanumeric()
}

/// `String::push`: appends one character.
#[verifier::external_body]
pub(crate) fn push_char(s: &mut String, c: char)
    ensures
        final(s)@ == old(s)@.push(c),
{
    s.push(c)
}

/// A `String` holding `chars`.
pub fn string_of(chars: &[char]) -> (r: String)
    ensures
        r@ == chars@,
{
    let mut out = String::new();
    let mut i: usize = 0;
    while i < chars.len()
        invariant
            i <= chars@.len(),
            out@ == chars@.take(i as int),
        decreases chars@.len() - i,
    {
        push_char(&mut out, chars[i]);
        proof {
            assert(chars@.take(i as int).push(chars@[i as int]) =~= chars@.take(i + 1));
        }
        i = i + 1;
    }
    proof {
        assert(chars@.take(chars@.len() as int) =~= chars@);
    }
    out
}

proof fn lemma_trim_start_step(s: Seq<char>, i: int)
    requires
        0 <= i < s.len(),
        is_space(s[i]),
    ensures
        trim_start(s.subrange(i, s.len() as int)) == trim_start(s.subrange(i + 1, s.len() as int)),
{
    assert(s.subrange(i, s.len() as int).drop_first() =~= s.subrange(i + 1, s.len() as int));
}

proof fn lemma_trim_end_step(s: Seq<char>, j: int)
    requires
        0 < j <= s.len(),
        is_space(s[j - 1]),
    ensures
        trim_end(s.subrange(0, j)) == trim_end(s.subrange(0, j - 1)),
{
    assert(s.subrange(0, j).drop_last() =~= s.subrange(0, j - 1));
}

/// The bounds, within `s`, of what trimming leaves of `s[lo..hi]`.
pub fn trim_range(s: &[char], lo: usize, hi: usize) -> (r: (usize, usize))
    requires
        lo <= hi <= s@.len(),
    ensures
        lo <= r.0 <= r.1 <= hi,
        s@.subrange(r.0 as int, r.1 as int) == trim(s@.subrange(lo as int, hi as int)),
{
    let ghost whole = s@.subrange(lo as int, hi as int);
    let mut i: usize = lo;
    assert(whole.subrange(0, whole.len() as int) =~= whole);
    while i < hi && is_whitespace(s[i])
        invariant
            lo <= i <= hi <= s@.len(),
            whole == s@.subrange(lo as int, hi as int),
            trim_start(whole.subrange(i - lo, whole.len() as int)) == trim_start(whole),
        decreases hi - i,
    {
        proof {
            lemma_trim_start_step(whole, i - lo);
        }
        i = i + 1;
    }
    let ghost rest = s@.subrange(i as int, hi as int);
    assert(rest =~= whole.subrange(i - lo, whole.len() as int));
    assert(trim_start(rest) == rest);
    let mut j: usize = hi;
    assert(rest.subrange(0, rest.len() as int) =~= rest);
    while j > i && is_whitespace(s[j - 1])
        invariant
            i <= j <= hi <= s@.len(),
            rest == s@.subrange(i as int, hi as int),
            trim_end(rest.subrange(0, j - i)) == trim_end(rest),
        decreases j,
    {
        proof {
            lemma_trim_end_step(rest, j - i);
            assert(rest.subrange(0, j - i - 1) =~= rest.subrange(0, (j - 1) - i));
        }
        j = j - 1;
    }
    proof {
        let t = rest.subrange(0, j - i);
        assert(trim_end(t) == t);
        assert(t =~= s@.subrange(i as int, j as int));
    }
    (i, j)
}

/// `s` without white space at either end.
pub fn trimmed(s: &str) -> (r: &str)
    ensures
        r@ == trim(s@),
{
    let chars = chars_of(s);
    let (a, b) = trim_range(chars.as_slice(), 0, chars.len());
    proof {
        assert(chars@.subrange(0, chars@.len() as int) =~= chars@);
    }
    s.substring_char(a, b)
}


/// How many characters of `t` come before its first line feed (all of them
/// when it has none).
pub open spec fn first_newline(t: Seq<char>) -> nat
    decreases t.len(),
{
    if t.len() == 0 || t[0] == '\n' {
        0
    } else {
        1 + first_newline(t.drop_first())
    }
}

/// `l` without one trailing carriage return.
pub open spec fn without_cr(l: Seq<char>) -> Seq<char> {
    if l.len() > 0 && l.last() == '\r' {
        l.drop_last()
    } else {
        l
    }
}

/// The lines of `t`, as `str::lines` yields them: split at each line feed,
/// a carriage return just before it dropped, and no empty line after a final
/// line feed.
pub open spec fn lines(t: Seq<char>) -> Seq<Seq<char>>
    decreases t.len(),
{
    if t.len() == 0 {
        Seq::empty()
    } else {
        let e = first_newline(t) as int;
        if e >= t.len() {
            seq![t]
        } else {
            seq![without_cr(t.take(e))] + lines(t.skip(e + 1))
        }
    }
}

pub proof fn lemma_first_newline(t: Seq<char>)
    ensures
        first_newline(t) <= t.len(),
        first_newline(t) < t.len() ==> t[first_newline(t) as int] == '\n',
        forall|k: int| 0 <= k < first_newline(t) ==> t[k] != '\n',
    decreases t.len(),
{
    if t.len() > 0 && t[0] != '\n' {
        lemma_first_newline(t.drop_first());
        assert forall|k: int| 0 <= k < first_newline(t) implies t[k] != '\n' by {
            if k > 0 {
                assert(t[k] == t.drop_first()[k - 1]);
            }
        }
    }
}

/// Where the line starting at `p` ends: the position of the next line feed,
/// or the end of `s`.
pub fn line_end(s: &[char], p: usize) -> (e: usize)
    requires
        p <= s@.len(),
    ensures
        e == p + first_newline(s@.skip(p as int)),
{
    let n = s.len();
    let mut e = p;
    while e < n && s[e] != '\n'
        invariant
            p <= e <= n == s@.len(),
            first_newline(s@.skip(p as int)) == (e - p) + first_newline(s@.skip(e as int)),
        decreases n - e,
    {
        assert(s@.skip(e as int).drop_first() =~= s@.skip(e + 1));
        e = e + 1;
    }
    e
}

/// Splitting off the line that starts at `p`.
pub proof fn lemma_lines_step(t: Seq<char>, p: int, e: int)
    requires
        0 <= p < t.len(),
        e == p + first_newline(t.skip(p)),
    ensures
        e <= t.len(),
        e == t.len() ==> lines(t.skip(p)) == seq![t.subrange(p, e)],
        e < t.len() ==> t[e] == '\n' && lines(t.skip(p)) == seq![without_cr(t.subrange(p, e))]
            + lines(t.skip(e + 1)),
{
    lemma_first_newline(t.skip(p));
    let u = t.skip(p);
    if e < t.len() {
        assert(u.take(e - p) =~= t.subrange(p, e));
        assert(u.skip(e - p + 1) =~= t.skip(e + 1));
        assert(t[e] == u[e - p]);
    } else {
        assert(u =~= t.subrange(p, e));
    }
}

/// Whether `c` is an ASCII decimal digit.
pub open spec fn is_digit(c: char) -> bool {
    '0' <= c <= '9'
}

/// The number that the decimal digits `s` spell.
pub open spec fn digits_value(s: Seq<char>) -> nat
    decreases s.len(),
{
    if s.len() == 0 {
        0
    } else {
        digits_value(s.drop_last()) * 10 + ((s.last() as nat) - 48) as nat
    }
}

/// Every character of `s` is an ASCII digit.
pub open spec fn all_digits(s: Seq<char>) -> bool {
    forall|k: int| 0 <= k < s.len() ==> is_digit(#[trigger] s[k])
}

/// What `<u32 as FromStr>::from_str` makes of `s`: an optional `+`, then one
/// or more ASCII digits whose value fits in 32 bits.
pub open spec fn parsed_u32(s: Seq<char>) -> Option<u32> {
    let d = if s.len() > 0 && s[0] == '+' {
        s.drop_first()
    } else {
        s
    };
    if d.len() > 0 && all_digits(d) && digits_value(d) <= u32::MAX {
        Some(digits_value(d) as u32)
    } else {
        None
    }
}

/// What `<u64 as FromStr>::from_str` makes of `s`: an optional `+`, then one
/// or more ASCII digits whose value fits in 64 bits.
pub open spec fn parsed_u64(s: Seq<char>) -> Option<u64> {
    let d = if s.len() > 0 && s[0] == '+' {
        s.drop_first()
    } else {
        s
    };
    if d.len() > 0 && all_digits(d) && digits_value(d) <= u64::MAX {
        Some(digits_value(d) as u64)
    } else {
        None
    }
}

/// The number that `s[lo..hi]` spells in decimal, as `str::parse::<u32>`
/// reads it.
pub fn parse_u32(s: &[char], lo: usize, hi: usize) -> (r: Option<u32>)
    requires
        lo <= hi <= s@.len(),
    ensures
        r == parsed_u32(s@.subrange(lo as int, hi as int)),
{
    let ghost t = s@.subrange(lo as int, hi as int);
    let mut i = lo;
    if i < hi && s[i] == '+' {
        i = i + 1;
    }
    let ghost d = s@.subrange(i as int, hi as int);
    proof {
        if lo < hi && s@[lo as int] == '+' {
            assert(d =~= t.drop_first());
        } else {
            assert(d =~= t);
        }
    }
    assert(d == (if t.len() > 0 && t[0] == '+' {
        t.drop_first()
    } else {
        t
    }));
    if i == hi {
        return None;
    }
    let start = i;
    let mut acc: u64 = 0;
    while i < hi
        invariant
            lo <= start <= i <= hi <= s@.len(),
            d == s@.subrange(start as int, hi as int),
            t == s@.subrange(lo as int, hi as int),
            d == (if t.len() > 0 && t[0] == '+' {
                t.drop_first()
            } else {
                t
            }),
            d.len() > 0,
            forall|k: int| start <= k < i ==> is_digit(s@[k]),
            acc == if digits_value(s@.subrange(start as int, i as int)) <= u32::MAX {
                digits_value(s@.subrange(start as int, i as int))
            } else {
                u32::MAX as nat + 1
            },
        decreases hi - i,
    {
        let c = s[i];
        if !('0' <= c && c <= '9') {
            proof {
                assert(d[i - start] == c);
                assert(!is_digit(d[i - start]));
                assert(!all_digits(d));
                assert(parsed_u32(t) is None);
            }
            return None;
        }
        let ghost pre = s@.subrange(start as int, i as int);
        let ghost next = s@.subrange(start as int, i + 1);
        assert(next.drop_last() =~= pre);
        let v = (c as u64) - 48;
        if acc > 4294967295 {
            acc = 4294967296;
        } else {
            acc = acc * 10 + v;
            if acc > 4294967295 {
                acc = 4294967296;
            }
        }
        i = i + 1;
    }
    proof {
        assert(s@.subrange(start as int, hi as int) == d);
        assert forall|k: int| 0 <= k < d.len() implies is_digit(#[trigger] d[k]) by {
            assert(d[k] == s@[start + k]);
        }
    }
    if acc > 4294967295 {
        None
    } else {
        Some(acc as u32)
    }
}

/// The digits of `n`, pushed onto `out`.
pub fn push_decimal(out: &mut String, n: u64)
    ensures
        final(out)@ == old(out)@ + decimal(n as nat),
{
    let mut rev: Vec<char> = Vec::new();
    let mut m = n;
    while m >= 10
        invariant
            decimal(n as nat) == decimal(m as nat) + rev@.reverse(),
        decreases m,
    {
        let d = (m % 10) as u8;
        let c = (d + 48) as char;
        let ghost before = rev@;
        rev.push(c);
        proof {
            assert(rev@.reverse() =~= seq![c] + before.reverse());
            assert(decimal(m as nat) == decimal((m / 10) as nat).push(c));
            assert(decimal(m as nat) + before.reverse() =~= decimal((m / 10) as nat) + rev@.reverse());
        }
        m = m / 10;
    }
    let ghost before = rev@;
    rev.push(((m as u8) + 48) as char);
    assert(rev@.reverse() =~= seq![((m as u8) + 48) as char] + before.reverse());
    assert(decimal(n as nat) =~= rev@.reverse());
    let ghost start = out@;
    let mut k = rev.len();
    while k > 0
        invariant
            k <= rev@.len(),
            out@ == start + rev@.reverse().take(rev@.len() - k),
        decreases k,
    {
        k = k - 1;
        push_char(out, rev[k]);
        assert(rev@.reverse().take(rev@.len() - k) =~= rev@.reverse().take(rev@.len() - k - 1).push(rev@[k as int]));
    }
    assert(rev@.reverse().take(rev@.len() as int) =~= rev@.reverse());
}


/// A line followed by a line feed splits off as one line.
pub proof fn lemma_lines_cons(l: Seq<char>, rest: Seq<char>)
    requires
        forall|k: int| 0 <= k < l.len() ==> l[k] != '\n',
        l.len() == 0 || l.last() != '\r',
    ensures
        lines(l + seq!['\n'] + rest) == seq![l] + lines(rest),
{
    let t = l + seq!['\n'] + rest;
    lemma_first_newline(t);
    let e = first_newline(t) as int;
    assert(t[l.len() as int] == '\n');
    if e < l.len() {
        assert(t[e] == l[e]);
    }
    if e > l.len() {
        assert(t[l.len() as int] != '\n');
    }
    assert(e == l.len());
    assert(t.take(e) =~= l);
    assert(t.skip(e + 1) =~= rest);
}

/// The facts about `decimal` that reading the digits back needs.
pub proof fn lemma_decimal(n: nat)
    ensures
        decimal(n).len() > 0,
        all_digits(decimal(n)),
        digits_value(decimal(n)) == n,
        forall|k: int| 0 <= k < decimal(n).len() ==> is_digit(#[trigger] decimal(n)[k]) && !is_space(
            decimal(n)[k],
        ) && decimal(n)[k] != '\n' && decimal(n)[k] != '\r' && decimal(n)[k] != '#' && decimal(
            n,
        )[k] != '+',
    decreases n,
{
    let d = decimal(n);
    if n >= 10 {
        lemma_decimal(n / 10);
        let c = digit_char((n % 10) as int);
        assert(c as nat == (n % 10) + 48);
        assert(d == decimal(n / 10).push(c));
        assert(d.drop_last() =~= decimal(n / 10));
        assert(d.last() == c);
        assert(digits_value(d) == digits_value(decimal(n / 10)) * 10 + ((c as nat) - 48) as nat);
        assert forall|k: int| 0 <= k < d.len() implies is_digit(#[trigger] d[k]) by {
            if k < d.len() - 1 {
                assert(d[k] == decimal(n / 10)[k]);
            }
        }
    } else {
        let c = digit_char(n as int);
        assert(c as nat == n + 48);
        assert(d.drop_last() =~= Seq::<char>::empty());
        assert(digits_value(d) == digits_value(d.drop_last()) * 10 + ((c as nat) - 48) as nat);
    }
    assert forall|k: int| 0 <= k < d.len() implies is_digit(#[trigger] d[k]) && !is_space(d[k])
        && d[k] != '\n' && d[k] != '\r' && d[k] != '#' && d[k] != '+' by {
        assert(is_digit(d[k]));
    }
}

/// Trimming leaves a string alone that neither starts nor ends with white
/// space.
pub proof fn lemma_trim_unpadded(s: Seq<char>)
    requires
        s.len() > 0,
        !is_space(s[0]),
        !is_space(s.last()),
    ensures
        trim(s) == s,
{
}


/// How many characters of `t` come before its first `sep` (all of them when
/// it has none).
pub open spec fn first_sep(t: Seq<char>, sep: char) -> nat
    decreases t.len(),
{
    if t.len() == 0 || t[0] == sep {
        0
    } else {
        1 + first_sep(t.drop_first(), sep)
    }
}

/// The pieces of `t` between the occurrences of `sep`, as `str::split(sep)`
/// yields them: an empty text is one empty piece, and a trailing `sep` leaves
/// an empty last piece.
pub open spec fn pieces(t: Seq<char>, sep: char) -> Seq<Seq<char>>
    decreases t.len(),
{
    let e = first_sep(t, sep) as int;
    if e >= t.len() {
        seq![t]
    } else {
        seq![t.take(e)] + pieces(t.skip(e + 1), sep)
    }
}

/// The tab-separated fields of `t`.
pub open spec fn fields(t: Seq<char>) -> Seq<Seq<char>> {
    pieces(t, '\t')
}

pub proof fn lemma_first_sep(t: Seq<char>, sep: char)
    ensures
        first_sep(t, sep) <= t.len(),
        first_sep(t, sep) < t.len() ==> t[first_sep(t, sep) as int] == sep,
    decreases t.len(),
{
    if t.len() > 0 && t[0] != sep {
        lemma_first_sep(t.drop_first(), sep);
    }
}

/// The bounds, within `s`, of the pieces of `s[lo..hi]` between the
/// occurrences of `sep`.
pub fn piece_bounds(s: &[char], lo: usize, hi: usize, sep: char) -> (r: Vec<(usize, usize)>)
    requires
        lo <= hi <= s@.len(),
    ensures
        r@.len() == pieces(s@.subrange(lo as int, hi as int), sep).len(),
        forall|k: int|
            0 <= k < r@.len() ==> lo <= (#[trigger] r@[k]).0 <= r@[k].1 <= hi && s@.subrange(
                r@[k].0 as int,
                r@[k].1 as int,
            ) == pieces(s@.subrange(lo as int, hi as int), sep)[k],
{
    let ghost all = pieces(s@.subrange(lo as int, hi as int), sep);
    let mut out: Vec<(usize, usize)> = Vec::new();
    let mut p = lo;
    loop
        invariant
            lo <= p <= hi <= s@.len(),
            all == pieces(s@.subrange(lo as int, hi as int), sep),
            all == out@.map_values(|b: (usize, usize)| s@.subrange(b.0 as int, b.1 as int)) + pieces(
                s@.subrange(p as int, hi as int),
                sep,
            ),
            forall|k: int| 0 <= k < out@.len() ==> lo <= (#[trigger] out@[k]).0 <= out@[k].1 <= hi,
        decreases hi - p,
    {
        let ghost rest = s@.subrange(p as int, hi as int);
        let mut e = p;
        while e < hi && s[e] != sep
            invariant
                p <= e <= hi <= s@.len(),
                rest == s@.subrange(p as int, hi as int),
                first_sep(rest, sep) == (e - p) + first_sep(s@.subrange(e as int, hi as int), sep),
            decreases hi - e,
        {
            assert(s@.subrange(e as int, hi as int).drop_first() =~= s@.subrange(e + 1, hi as int));
            e = e + 1;
        }
        proof {
            lemma_first_sep(rest, sep);
            assert(first_sep(s@.subrange(e as int, hi as int), sep) == 0);
            assert(first_sep(rest, sep) == e - p);
        }
        let ghost before = out@;
        out.push((p, e));
        proof {
            let m = |b: (usize, usize)| s@.subrange(b.0 as int, b.1 as int);
            assert(out@.map_values(m) =~= before.map_values(m).push(s@.subrange(p as int, e as int)));
        }
        if e == hi {
            proof {
                assert(pieces(rest, sep) == seq![rest]);
                let m = |b: (usize, usize)| s@.subrange(b.0 as int, b.1 as int);
                assert(all =~= out@.map_values(m));
                assert(all.len() == out@.len());
                assert forall|k: int| 0 <= k < out@.len() implies s@.subrange(
                    (#[trigger] out@[k]).0 as int,
                    out@[k].1 as int,
                ) == all[k] by {
                    assert(all[k] == out@.map_values(m)[k]);
                }
            }
            return out;
        }
        proof {
            assert(rest.take(e - p) =~= s@.subrange(p as int, e as int));
            assert(rest.skip(e - p + 1) =~= s@.subrange(e + 1, hi as int));
            let m = |b: (usize, usize)| s@.subrange(b.0 as int, b.1 as int);
            assert(pieces(rest, sep) == seq![s@.subrange(p as int, e as int)] + pieces(
                s@.subrange(e + 1, hi as int),
                sep,
            ));
            assert(all =~= out@.map_values(m) + pieces(s@.subrange(e + 1, hi as int), sep));
        }
        p = e + 1;
    }
}


/// `a` sorts before `b`, character by character, a proper prefix first: the
/// order `String`'s `Ord` gives.
pub open spec fn text_lt(a: Seq<char>, b: Seq<char>) -> bool
    decreases a.len(),
{
    if a.len() == 0 {
        b.len() > 0
    } else if b.len() == 0 {
        false
    } else if a[0] != b[0] {
        (a[0] as u32) < (b[0] as u32)
    } else {
        text_lt(a.drop_first(), b.drop_first())
    }
}

/// The text order is a strict total order.
pub proof fn lemma_text_lt_total(a: Seq<char>, b: Seq<char>)
    ensures
        !text_lt(a, a),
        !(text_lt(a, b) && text_lt(b, a)),
        a != b ==> text_lt(a, b) || text_lt(b, a),
    decreases a.len(),
{
    if a.len() > 0 {
        lemma_text_lt_total(a.drop_first(), a.drop_first());
        if b.len() > 0 {
            lemma_text_lt_total(a.drop_first(), b.drop_first());
            if a[0] != b[0] {
                vstd::utf8::char_u32_cast(a[0], a[0] as u32);
                vstd::utf8::char_u32_cast(b[0], b[0] as u32);
            }
            if a != b && a[0] == b[0] {
                assert(a.drop_first() != b.drop_first()) by {
                    if a.drop_first() == b.drop_first() {
                        assert(a =~= seq![a[0]] + a.drop_first());
                        assert(b =~= seq![b[0]] + b.drop_first());
                    }
                }
            }
        }
    } else if b.len() == 0 {
        assert(a =~= b);
    }
}

/// The text order is transitive.
pub proof fn lemma_text_lt_trans(a: Seq<char>, b: Seq<char>, c: Seq<char>)
    requires
        text_lt(a, b),
        text_lt(b, c),
    ensures
        text_lt(a, c),
    decreases a.len(),
{
    if a.len() > 0 && b.len() > 0 && c.len() > 0 && a[0] == b[0] && b[0] == c[0] {
        lemma_text_lt_trans(a.drop_first(), b.drop_first(), c.drop_first());
    }
}

/// Whether `a` sorts before `b`.
pub fn text_less(a: &str, b: &str) -> (r: bool)
    ensures
        r == text_lt(a@, b@),
{
    let x = chars_of(a);
    let y = chars_of(b);
    let mut i: usize = 0;
    assert(x@.skip(0) =~= x@);
    assert(y@.skip(0) =~= y@);
    loop
        invariant
            x@ == a@,
            y@ == b@,
            i <= x@.len(),
            i <= y@.len(),
            text_lt(a@, b@) == text_lt(x@.skip(i as int), y@.skip(i as int)),
        decreases x@.len() - i,
    {
        if i == x.len() {
            return i < y.len();
        }
        if i == y.len() {
            return false;
        }
        if x[i] != y[i] {
            return (x[i] as u32) < (y[i] as u32);
        }
        assert(x@.skip(i as int).drop_first() =~= x@.skip(i + 1));
        assert(y@.skip(i as int).drop_first() =~= y@.skip(i + 1));
        i = i + 1;
    }
}

/// Whether two strings hold the same text.
pub fn same_text(a: &str, b: &str) -> (r: bool)
    ensures
        r == (a@ == b@),
{
    let x = chars_of(a);
    let y = chars_of(b);
    if x.len() != y.len() {
        return false;
    }
    let mut k: usize = 0;
    while k < x.len()
        invariant
            x@ == a@,
            y@ == b@,
            x@.len() == y@.len(),
            k <= x@.len(),
            forall|m: int| 0 <= m < k ==> x@[m] == y@[m],
        decreases x@.len() - k,
    {
        if x[k] != y[k] {
            return false;
        }
        k = k + 1;
    }
    assert(x@ =~= y@);
    true
}


proof fn lemma_trim_start_spaces(pre: Seq<char>, x: Seq<char>)
    requires
        forall|k: int| 0 <= k < pre.len() ==> is_space(#[trigger] pre[k]),
    ensures
        trim_start(pre + x) == trim_start(x),
    decreases pre.len(),
{
    if pre.len() > 0 {
        assert((pre + x).drop_first() =~= pre.drop_first() + x);
        assert((pre + x)[0] == pre[0]);
        lemma_trim_start_spaces(pre.drop_first(), x);
    } else {
        assert(pre + x =~= x);
    }
}

proof fn lemma_trim_end_spaces(x: Seq<char>, post: Seq<char>)
    requires
        forall|k: int| 0 <= k < post.len() ==> is_space(#[trigger] post[k]),
    ensures
        trim_end(x + post) == trim_end(x),
    decreases post.len(),
{
    if post.len() > 0 {
        assert((x + post).drop_last() =~= x + post.drop_last());
        assert((x + post).last() == post.last());
        lemma_trim_end_spaces(x, post.drop_last());
    } else {
        assert(x + post =~= x);
    }
}

proof fn lemma_trim_start_append(s: Seq<char>, t: Seq<char>)
    ensures
        trim_start(s + t) == if trim_start(s).len() > 0 {
            trim_start(s) + t
        } else {
            trim_start(t)
        },
    decreases s.len(),
{
    if s.len() == 0 {
        assert(s + t =~= t);
    } else {
        assert((s + t)[0] == s[0]);
        if is_space(s[0]) {
            assert((s + t).drop_first() =~= s.drop_first() + t);
            lemma_trim_start_append(s.drop_first(), t);
        }
    }
}

proof fn lemma_trim_end_of_spaces(s: Seq<char>)
    requires
        trim_start(s).len() == 0,
    ensures
        forall|k: int| 0 <= k < s.len() ==> is_space(#[trigger] s[k]),
    decreases s.len(),
{
    if s.len() > 0 {
        lemma_trim_end_of_spaces(s.drop_first());
        assert forall|k: int| 0 <= k < s.len() implies is_space(#[trigger] s[k]) by {
            if k > 0 {
                assert(s[k] == s.drop_first()[k - 1]);
            }
        }
    }
}

/// White space around a text does not survive trimming: what is left of
/// `pre + s + post` is what is left of `s`.
pub proof fn lemma_trim_padding(pre: Seq<char>, s: Seq<char>, post: Seq<char>)
    requires
        forall|k: int| 0 <= k < pre.len() ==> is_space(#[trigger] pre[k]),
        forall|k: int| 0 <= k < post.len() ==> is_space(#[trigger] post[k]),
    ensures
        trim(pre + s + post) == trim(s),
{
    assert(pre + s + post =~= pre + (s + post));
    lemma_trim_start_spaces(pre, s + post);
    lemma_trim_start_append(s, post);
    if trim_start(s).len() > 0 {
        lemma_trim_end_spaces(trim_start(s), post);
    } else {
        lemma_trim_start_spaces(post, Seq::<char>::empty());
        assert(post + Seq::<char>::empty() =~= post);
        assert(trim_start(Seq::<char>::empty()) == Seq::<char>::empty());
    }
}

} // verus!
