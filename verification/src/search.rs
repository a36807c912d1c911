//! Searching the city list: a scored linear scan, with the lowercased text
//! worked out once per city so that matching allocates nothing.

use vstd::prelude::*;
use vstd::hash_set::StringHashSet;

use crate::text::{
    char_is_alphanumeric, chars_of, is_alnum, is_space, lemma_trim_padding, lowercase, to_lower,
    trim, trimmed,
};

verus! {

/// A city as the picker and the saved list know it.
#[derive(Debug, Clone)]
pub struct City {
    pub geonameid: u32,
    /// The local name, accents and all.
    pub name: String,
    /// The same name in plain ASCII.
    pub asciiname: String,
    pub country: String,
    /// The first-level region, empty when the dataset has none.
    pub admin1: String,
    pub population: u64,
    /// The IANA zone name.
    pub timezone: String,
}

/// How good a match is, lower being better.
pub type Rank = u8;

/// The whole name starts with the query.
pub const PREFIX: Rank = 0;
/// A later word of the name starts with it.
pub const WORD_PREFIX: Rank = 1;
/// It appears somewhere in the middle of a word.
pub const SUBSTRING: Rank = 2;

/// `q` occurs in `h` at position `i`.
pub open spec fn occurs_at(h: Seq<char>, q: Seq<char>, i: int) -> bool {
    0 <= i && i + q.len() <= h.len() && h.subrange(i, i + q.len()) == q
}

/// Position `at` begins a word: the character before it is neither a letter
/// nor a digit.
pub open spec fn begins_word(h: Seq<char>, at: int) -> bool {
    0 < at <= h.len() && !is_alnum(h[at - 1])
}

/// The rank of an occurrence at `at`.
pub open spec fn rank_at(h: Seq<char>, at: int) -> Rank {
    if at == 0 {
        PREFIX
    } else if begins_word(h, at) {
        WORD_PREFIX
    } else {
        SUBSTRING
    }
}

/// The better of two optional ranks.
pub open spec fn better(a: Option<Rank>, b: Option<Rank>) -> Option<Rank> {
    match (a, b) {
        (Some(x), Some(y)) => Some(if x <= y { x } else { y }),
        (Some(_), None) => a,
        (None, _) => b,
    }
}

/// The best rank among the occurrences of `q` in `h` from position `i` on,
/// every occurrence counting, overlapping ones included: a later word that
/// starts with the query makes a word-prefix match wherever it stands.
pub open spec fn rank_from(h: Seq<char>, q: Seq<char>, i: int) -> Option<Rank>
    decreases h.len() - i,
{
    if q.len() == 0 || i < 0 || i + q.len() > h.len() {
        None
    } else if occurs_at(h, q, i) {
        better(Some(rank_at(h, i)), rank_from(h, q, i + 1))
    } else {
        rank_from(h, q, i + 1)
    }
}

/// How well `q` matches the text `h`, if at all.
pub open spec fn text_rank(h: Seq<char>, q: Seq<char>) -> Option<Rank> {
    rank_from(h, q, 0)
}

/// How well the lowercased query `q` matches a city: the better of its match
/// against the lowercased ASCII name and against the lowercased local name.
pub open spec fn city_rank(c: City, q: Seq<char>) -> Option<Rank> {
    better(text_rank(lowercase(c.asciiname@), q), text_rank(lowercase(c.name@), q))
}

/// Whether city `i` of `cities` matches `q`.
pub open spec fn is_hit(cities: Seq<City>, q: Seq<char>, i: int) -> bool {
    0 <= i < cities.len() && city_rank(cities[i], q) is Some
}

/// The order results come in: better rank first, then larger population,
/// then lower geonameid, then earlier in the list.
pub open spec fn key_before(ra: Rank, a: City, ia: int, rb: Rank, b: City, ib: int) -> bool {
    ||| ra < rb
    ||| ra == rb && a.population > b.population
    ||| ra == rb && a.population == b.population && a.geonameid < b.geonameid
    ||| ra == rb && a.population == b.population && a.geonameid == b.geonameid && ia < ib
}

/// City `i` comes before city `j` among the results for `q`.
pub open spec fn ranks_before(cities: Seq<City>, q: Seq<char>, i: int, j: int) -> bool {
    key_before(
        city_rank(cities[i], q)->0,
        cities[i],
        i,
        city_rank(cities[j], q)->0,
        cities[j],
        j,
    )
}

/// How many of the first `n` cities match `q`.
pub open spec fn hits_in(cities: Seq<City>, q: Seq<char>, n: int) -> nat
    decreases n,
{
    if n <= 0 {
        0
    } else {
        hits_in(cities, q, n - 1) + if is_hit(cities, q, n - 1) {
            1nat
        } else {
            0nat
        }
    }
}

/// `r` lists, best first, the `limit` best matches for `q` (all of them when
/// there are fewer), by position in `cities`.
pub open spec fn best_matches(cities: Seq<City>, q: Seq<char>, limit: nat, r: Seq<int>) -> bool {
    let total = hits_in(cities, q, cities.len() as int);
    &&& r.len() == if limit < total {
        limit
    } else {
        total
    }
    &&& forall|k: int| 0 <= k < r.len() ==> #[trigger] is_hit(cities, q, r[k])
    &&& forall|k1: int, k2: int|
        0 <= k1 < k2 < r.len() ==> ranks_before(cities, q, #[trigger] r[k1], #[trigger] r[k2])
    &&& forall|j: int|
        #![trigger is_hit(cities, q, j)]
        is_hit(cities, q, j) && !r.contains(j) ==> r.len() == limit && (r.len() > 0
            ==> ranks_before(cities, q, r.last(), j))
}

/// The positions of the best `limit` matches for `q`, best first.
pub open spec fn best_of(cities: Seq<City>, q: Seq<char>, limit: nat) -> Seq<int> {
    choose|r: Seq<int>| best_matches(cities, q, limit, r)
}

/// What `search` makes of a query: trimmed, then lowercased.
pub open spec fn normalized(query: Seq<char>) -> Seq<char> {
    lowercase(trim(query))
}

/// The names that more than one city carries.
pub open spec fn ambiguous_names(cities: Seq<City>) -> Set<Seq<char>> {
    Set::new(
        |n: Seq<char>|
            exists|i: int, j: int|
                0 <= i < j < cities.len() && #[trigger] cities[i].name@ == n && #[trigger] cities[j].name@
                    == n,
    )
}

/// Some city of `cities` has geonameid `id`.
pub open spec fn has_id(cities: Seq<City>, id: u32) -> bool {
    exists|i: int| 0 <= i < cities.len() && (#[trigger] cities[i]).geonameid == id
}

/// City `i` is the first of `cities` with geonameid `id`.
pub open spec fn is_first_with_id(cities: Seq<City>, id: u32, i: int) -> bool {
    &&& 0 <= i < cities.len()
    &&& cities[i].geonameid == id
    &&& forall|j: int| 0 <= j < i ==> (#[trigger] cities[j]).geonameid != id
}

/// The first city of `cities` with geonameid `id`, when there is one.
pub open spec fn city_with_id(cities: Seq<City>, id: u32) -> City {
    cities[choose|i: int| is_first_with_id(cities, id, i)]
}

/// The first city is the one `city_with_id` names.
pub proof fn lemma_city_with_id(cities: Seq<City>, id: u32, i: int)
    requires
        is_first_with_id(cities, id, i),
    ensures
        city_with_id(cities, id) == cities[i],
        has_id(cities, id),
{
    let k = choose|k: int| is_first_with_id(cities, id, k);
    assert(is_first_with_id(cities, id, k));
    if k < i {
        assert(cities[k].geonameid != id);
    } else if i < k {
        assert(cities[i].geonameid != id);
    }
}

/// How the picker lists `c`: "Name, Country", or "Name, Admin1, Country"
/// when the name is ambiguous and there is a region to tell it apart.
pub open spec fn label_of(c: City, ambiguous: bool) -> Seq<char> {
    if ambiguous && c.admin1@.len() > 0 {
        c.name@ + seq![',', ' '] + c.admin1@ + seq![',', ' '] + c.country@
    } else {
        c.name@ + seq![',', ' '] + c.country@
    }
}

struct Entry {
    city: City,
    /// The lowercased asciiname, always searched.
    ascii: Vec<char>,
    /// The lowercased name, when lowercasing leaves it different from `ascii`.
    name: Option<Vec<char>>,
}

impl Entry {
    spec fn wf(&self) -> bool {
        &&& self.ascii@ == lowercase(self.city.asciiname@)
        &&& match self.name {
            Some(n) => n@ == lowercase(self.city.name@) && n@ != self.ascii@,
            None => lowercase(self.city.name@) == self.ascii@,
        }
    }
}

pub struct SearchIndex {
    entries: Vec<Entry>,
    /// Names carried by more than one city, which need an admin1 to tell apart.
    ambiguous: StringHashSet,
}

impl View for SearchIndex {
    type V = Seq<City>;

    closed spec fn view(&self) -> Seq<City> {
        self.entries@.map_values(|e: Entry| e.city)
    }
}


/// Whether `q` occurs in `h` at position `at`.
fn occurs(h: &[char], q: &[char], at: usize) -> (r: bool)
    requires
        at + q@.len() <= h@.len(),
    ensures
        r == occurs_at(h@, q@, at as int),
{
    let hlen = h.len();
    let mut k: usize = 0;
    while k < q.len()
        invariant
            k <= q@.len(),
            hlen == h@.len(),
            at + q@.len() <= h@.len(),
            forall|m: int| 0 <= m < k ==> h@[at + m] == q@[m],
        decreases q@.len() - k,
    {
        if h[at + k] != q[k] {
            proof {
                assert(h@.subrange(at as int, at + q@.len())[k as int] != q@[k as int]);
            }
            return false;
        }
        k = k + 1;
    }
    proof {
        assert(h@.subrange(at as int, at + q@.len()) =~= q@);
    }
    true
}

/// Whether position `at` begins a word, i.e. follows a space or punctuation.
fn starts_word(h: &[char], at: usize) -> (r: bool)
    requires
        at <= h@.len(),
    ensures
        r == begins_word(h@, at as int),
{
    at > 0 && !char_is_alphanumeric(h[at - 1])
}

/// How well `q` matches `h`, if at all.
fn rank(h: &[char], q: &[char]) -> (r: Option<Rank>)
    requires
        q@.len() > 0,
    ensures
        r == text_rank(h@, q@),
{
    let hlen = h.len();
    let qlen = q.len();
    if qlen > hlen {
        return None;
    }
    let mut best: Option<Rank> = None;
    let mut at: usize = 0;
    while at <= hlen - qlen
        invariant
            0 < qlen == q@.len() <= hlen == h@.len(),
            at <= hlen,
            better(best, rank_from(h@, q@, at as int)) == rank_from(h@, q@, 0),
        decreases hlen - at,
    {
        if occurs(h, q, at) {
            if at == 0 {
                return Some(PREFIX);
            }
            let here = if starts_word(h, at) {
                WORD_PREFIX
            } else {
                SUBSTRING
            };
            best = match best {
                Some(b) => Some(if b <= here { b } else { here }),
                None => Some(here),
            };
            at = at + 1;
        } else {
            at = at + 1;
        }
    }
    best
}

impl Entry {
    /// How well the lowercased query `q` matches this city.
    fn rank(&self, q: &[char]) -> (r: Option<Rank>)
        requires
            self.wf(),
            q@.len() > 0,
        ensures
            r == city_rank(self.city, q@),
    {
        let ascii = rank(self.ascii.as_slice(), q);
        match &self.name {
            Some(name) => {
                let local = rank(name.as_slice(), q);
                match (ascii, local) {
                    (Some(a), Some(b)) => Some(if a <= b { a } else { b }),
                    (Some(_), None) => ascii,
                    (None, _) => local,
                }
            },
            None => ascii,
        }
    }
}


/// The positions held by a buffer of (rank, position) pairs.
pub open spec fn positions(b: Seq<(Rank, usize)>) -> Seq<int> {
    b.map_values(|p: (Rank, usize)| p.1 as int)
}

/// `b` holds, best first, the best `limit` matches for `q` among the first
/// `n` cities, each with its rank.
pub open spec fn best_so_far(
    cities: Seq<City>,
    q: Seq<char>,
    limit: nat,
    n: int,
    b: Seq<(Rank, usize)>,
) -> bool {
    let total = hits_in(cities, q, n);
    &&& b.len() == if limit < total {
        limit
    } else {
        total
    }
    &&& forall|k: int|
        0 <= k < b.len() ==> {
            &&& (#[trigger] b[k]).1 < n
            &&& is_hit(cities, q, b[k].1 as int)
            &&& city_rank(cities[b[k].1 as int], q) == Some(b[k].0)
        }
    &&& forall|k1: int, k2: int|
        0 <= k1 < k2 < b.len() ==> ranks_before(
            cities,
            q,
            (#[trigger] b[k1]).1 as int,
            (#[trigger] b[k2]).1 as int,
        )
    &&& forall|j: int|
        #![trigger is_hit(cities, q, j)]
        0 <= j < n && is_hit(cities, q, j) && !positions(b).contains(j) ==> b.len() == limit
            && (b.len() > 0 ==> ranks_before(cities, q, b.last().1 as int, j))
}

/// Two distinct matches are always ordered one way or the other, never both.
proof fn lemma_key_total(ra: Rank, a: City, ia: int, rb: Rank, b: City, ib: int)
    ensures
        ia != ib ==> key_before(ra, a, ia, rb, b, ib) || key_before(rb, b, ib, ra, a, ia),
        !(key_before(ra, a, ia, rb, b, ib) && key_before(rb, b, ib, ra, a, ia)),
        !key_before(ra, a, ia, ra, a, ia),
{
}

/// The order of matches is transitive.
proof fn lemma_key_trans(
    ra: Rank,
    a: City,
    ia: int,
    rb: Rank,
    b: City,
    ib: int,
    rc: Rank,
    c: City,
    ic: int,
)
    requires
        key_before(ra, a, ia, rb, b, ib),
        key_before(rb, b, ib, rc, c, ic),
    ensures
        key_before(ra, a, ia, rc, c, ic),
{
}

proof fn lemma_before_total(cities: Seq<City>, q: Seq<char>, i: int, j: int)
    ensures
        i != j ==> ranks_before(cities, q, i, j) || ranks_before(cities, q, j, i),
        !(ranks_before(cities, q, i, j) && ranks_before(cities, q, j, i)),
        !ranks_before(cities, q, i, i),
{
    lemma_key_total(
        city_rank(cities[i], q)->0,
        cities[i],
        i,
        city_rank(cities[j], q)->0,
        cities[j],
        j,
    );
}

proof fn lemma_before_trans(cities: Seq<City>, q: Seq<char>, i: int, j: int, k: int)
    requires
        ranks_before(cities, q, i, j),
        ranks_before(cities, q, j, k),
    ensures
        ranks_before(cities, q, i, k),
{
    lemma_key_trans(
        city_rank(cities[i], q)->0,
        cities[i],
        i,
        city_rank(cities[j], q)->0,
        cities[j],
        j,
        city_rank(cities[k], q)->0,
        cities[k],
        k,
    );
}

/// Two lists that each hold the best matches agree as far as the shorter
/// goes; the one for the smaller limit is the shorter.
pub proof fn lemma_best_agree(
    cities: Seq<City>,
    q: Seq<char>,
    l1: nat,
    r1: Seq<int>,
    l2: nat,
    r2: Seq<int>,
)
    requires
        best_matches(cities, q, l1, r1),
        best_matches(cities, q, l2, r2),
        l1 <= l2,
    ensures
        r1.len() <= r2.len(),
        r1 == r2.take(r1.len() as int),
{
    assert forall|k: int| 0 <= k < r1.len() implies r1[k] == r2[k] by {
        lemma_best_agree_at(cities, q, l1, r1, l2, r2, k);
    }
    assert(r1 =~= r2.take(r1.len() as int));
}

proof fn lemma_best_agree_at(
    cities: Seq<City>,
    q: Seq<char>,
    l1: nat,
    r1: Seq<int>,
    l2: nat,
    r2: Seq<int>,
    k: int,
)
    requires
        best_matches(cities, q, l1, r1),
        best_matches(cities, q, l2, r2),
        l1 <= l2,
        0 <= k < r1.len(),
    ensures
        r1[k] == r2[k],
    decreases k,
{
    assert(r1.len() <= r2.len());
    assert forall|m: int| 0 <= m < k implies r1[m] == r2[m] by {
        lemma_best_agree_at(cities, q, l1, r1, l2, r2, m);
    }
    let a = r1[k];
    let b = r2[k];
    assert(is_hit(cities, q, a));
    assert(is_hit(cities, q, b));
    if a != b {
        lemma_before_total(cities, q, a, b);
        if ranks_before(cities, q, a, b) {
            if r2.contains(a) {
                let p = choose|p: int| 0 <= p < r2.len() && r2[p] == a;
                if p > k {
                    assert(ranks_before(cities, q, r2[k], r2[p]));
                } else {
                    assert(p != k);
                    assert(r1[p] == r2[p]);
                    assert(ranks_before(cities, q, r1[p], r1[k]));
                    lemma_before_total(cities, q, a, a);
                }
            } else {
                let last = r2.last();
                if k < r2.len() - 1 {
                    assert(ranks_before(cities, q, r2[k], r2[r2.len() - 1]));
                    lemma_before_trans(cities, q, b, last, a);
                }
                lemma_before_total(cities, q, b, a);
            }
        } else {
            assert(ranks_before(cities, q, b, a));
            if r1.contains(b) {
                let p = choose|p: int| 0 <= p < r1.len() && r1[p] == b;
                if p > k {
                    assert(ranks_before(cities, q, r1[k], r1[p]));
                    lemma_before_total(cities, q, a, b);
                } else {
                    assert(p != k);
                    assert(r1[p] == r2[p]);
                    assert(ranks_before(cities, q, r2[p], r2[k]));
                    lemma_before_total(cities, q, b, b);
                }
            } else {
                let last = r1.last();
                if k < r1.len() - 1 {
                    assert(ranks_before(cities, q, r1[k], r1[r1.len() - 1]));
                    lemma_before_trans(cities, q, a, last, b);
                }
                lemma_before_total(cities, q, a, b);
            }
        }
    }
}


/// The names carried by the cities of `p`.
pub open spec fn names_in(p: Seq<City>) -> Set<Seq<char>> {
    Set::new(|n: Seq<char>| exists|k: int| 0 <= k < p.len() && #[trigger] p[k].name@ == n)
}

proof fn lemma_ambiguous_push(p: Seq<City>, c: City)
    ensures
        ambiguous_names(p.push(c)) == if names_in(p).contains(c.name@) {
            ambiguous_names(p).insert(c.name@)
        } else {
            ambiguous_names(p)
        },
        names_in(p.push(c)) == names_in(p).insert(c.name@),
{
    let p2 = p.push(c);
    assert forall|n: Seq<char>| ambiguous_names(p).contains(n) implies ambiguous_names(p2).contains(n) by {
        let (i, j) = choose|i: int, j: int|
            0 <= i < j < p.len() && #[trigger] p[i].name@ == n && #[trigger] p[j].name@ == n;
        assert(p2[i] == p[i] && p2[j] == p[j]);
    }
    assert forall|n: Seq<char>| ambiguous_names(p2).contains(n) implies ambiguous_names(p).contains(n) || (n == c.name@ && names_in(p).contains(n)) by {
        let (i, j) = choose|i: int, j: int|
            0 <= i < j < p2.len() && #[trigger] p2[i].name@ == n && #[trigger] p2[j].name@ == n;
        if j < p.len() {
            assert(p[i] == p2[i] && p[j] == p2[j]);
        } else {
            assert(p[i] == p2[i]);
        }
    }
    if names_in(p).contains(c.name@) {
        let k = choose|k: int| 0 <= k < p.len() && #[trigger] p[k].name@ == c.name@;
        assert(p2[k] == p[k]);
        assert(p2[p.len() as int] == c);
        assert(ambiguous_names(p2).contains(c.name@));
        assert(ambiguous_names(p2) =~= ambiguous_names(p).insert(c.name@));
    } else {
        assert(ambiguous_names(p2) =~= ambiguous_names(p));
    }
    assert forall|n: Seq<char>| names_in(p).contains(n) implies names_in(p2).contains(n) by {
        let k = choose|k: int| 0 <= k < p.len() && #[trigger] p[k].name@ == n;
        assert(p2[k] == p[k]);
    }
    assert forall|n: Seq<char>| names_in(p2).contains(n) implies names_in(p).insert(c.name@).contains(n) by {
        let k = choose|k: int| 0 <= k < p2.len() && #[trigger] p2[k].name@ == n;
        if k < p.len() {
            assert(p2[k] == p[k]);
        }
    }
    assert(p2[p.len() as int] == c);
    assert(names_in(p2).contains(c.name@));
    assert(names_in(p2) =~= names_in(p).insert(c.name@));
}

proof fn lemma_skip_miss(cities: Seq<City>, q: Seq<char>, limit: nat, n: int, b: Seq<(Rank, usize)>)
    requires
        0 <= n < cities.len(),
        best_so_far(cities, q, limit, n, b),
        !is_hit(cities, q, n),
    ensures
        best_so_far(cities, q, limit, n + 1, b),
{
}

impl SearchIndex {
    #[verifier::type_invariant]
    spec fn inv(&self) -> bool {
        &&& forall|i: int| 0 <= i < self.entries@.len() ==> (#[trigger] self.entries@[i]).wf()
        &&& self.ambiguous@ == ambiguous_names(self@)
    }

    /// Indexes `cities`, keeping their order.
    pub fn new(cities: Vec<City>) -> (r: Self)
        ensures
            r@ == cities@,
    {
        let ghost all = cities@;
        let mut seen = StringHashSet::new();
        let mut ambiguous = StringHashSet::new();
        let mut entries: Vec<Entry> = Vec::new();
        for city in it: cities.into_iter()
            invariant
                it.seq() == all,
                entries@.len() == it.index(),
                entries@.map_values(|e: Entry| e.city) =~= all.take(it.index() as int),
                forall|i: int| 0 <= i < entries@.len() ==> (#[trigger] entries@[i]).wf(),
                seen@ == names_in(all.take(it.index() as int)),
                ambiguous@ == ambiguous_names(all.take(it.index() as int)),
        {
            let ghost p = all.take(it.index() as int);
            proof {
                assert(all.take(it.index() + 1) =~= p.push(city));
                lemma_ambiguous_push(p, city);
            }
            if seen.contains(city.name.as_str()) {
                ambiguous.insert(city.name.clone());
            } else {
                seen.insert(city.name.clone());
            }
            let ascii = to_lower(city.asciiname.as_str());
            let name = to_lower(city.name.as_str());
            let name = if name == ascii {
                None
            } else {
                Some(chars_of(name.as_str()))
            };
            let entry = Entry { city, ascii: chars_of(ascii.as_str()), name };
            entries.push(entry);
        }
        let index = SearchIndex { entries, ambiguous };
        assert(index@ =~= all);
        index
    }

    /// The indexed cities, in the order they were given.
    pub fn cities(&self) -> (r: Vec<&City>)
        ensures
            r@.len() == self@.len(),
            forall|k: int| 0 <= k < r@.len() ==> *r@[k] == self@[k],
    {
        let mut out: Vec<&City> = Vec::new();
        let n = self.entries.len();
        let mut k: usize = 0;
        while k < n
            invariant
                k <= n == self@.len(),
                out@.len() == k,
                forall|m: int| 0 <= m < k ==> *out@[m] == self@[m],
            decreases n - k,
        {
            out.push(&self.entries[k].city);
            k = k + 1;
        }
        out
    }

    /// The best `limit` cities for `query`, best first. Matching is
    /// case-insensitive and runs against both the local and the unaccented
    /// name, so "sant julia" and "julià" both find Sant Julià de Lòria.
    pub fn search(&self, query: &str, limit: usize) -> (r: Vec<&City>)
        ensures
            normalized(query@).len() == 0 || limit == 0 ==> r@.len() == 0,
            normalized(query@).len() > 0 && limit > 0 ==> {
                let best = best_of(self@, normalized(query@), limit as nat);
                &&& r@.len() == best.len()
                &&& forall|k: int| 0 <= k < r@.len() ==> *r@[k] == self@[best[k]]
            },
    {
        proof {
            use_type_invariant(self);
        }
        let lowered = to_lower(trimmed(query));
        let q = chars_of(lowered.as_str());
        if q.len() == 0 || limit == 0 {
            return Vec::new();
        }
        let ghost qs = q@;
        let ghost cities = self@;
        let n = self.entries.len();
        let mut buf: Vec<(Rank, usize)> = Vec::new();
        let mut i: usize = 0;
        while i < n
            invariant
                i <= n == cities.len() == self.entries@.len(),
                cities == self@,
                qs == q@,
                qs.len() > 0,
                limit > 0,
                forall|k: int| 0 <= k < n ==> (#[trigger] self.entries@[k]).wf(),
                best_so_far(cities, qs, limit as nat, i as int, buf@),
            decreases n - i,
        {
            assert(self.entries@[i as int].city == cities[i as int]);
            match self.entries[i].rank(q.as_slice()) {
                Some(rk) => {
                    proof {
                        lemma_offer(cities, qs, limit as nat, buf@, rk, i as int);
                    }
                    self.offer(Ghost(qs), &mut buf, limit, rk, i);
                },
                None => {
                    proof {
                        lemma_skip_miss(cities, qs, limit as nat, i as int, buf@);
                    }
                },
            }
            i = i + 1;
        }
        let ghost ix = positions(buf@);
        proof {
            let b = buf@;
            assert forall|k: int| 0 <= k < ix.len() implies #[trigger] is_hit(cities, qs, ix[k]) by {
                assert(ix[k] == b[k].1);
            }
            assert forall|k1: int, k2: int|
                0 <= k1 < k2 < ix.len() implies ranks_before(cities, qs, #[trigger] ix[k1], #[trigger] ix[k2]) by {
                assert(ix[k1] == b[k1].1 && ix[k2] == b[k2].1);
            }
            assert forall|j: int|
                #![trigger is_hit(cities, qs, j)]
                is_hit(cities, qs, j) && !ix.contains(j) implies ix.len() == limit && (ix.len() > 0
                    ==> ranks_before(cities, qs, ix.last(), j)) by {
                assert(ix.last() == b.last().1);
            }
            assert(best_matches(cities, qs, limit as nat, ix));
            let best = best_of(cities, qs, limit as nat);
            assert(best_matches(cities, qs, limit as nat, best));
            lemma_best_agree(cities, qs, limit as nat, ix, limit as nat, best);
            lemma_best_agree(cities, qs, limit as nat, best, limit as nat, ix);
            assert(ix =~= best);
        }
        let mut out: Vec<&City> = Vec::new();
        let mut k: usize = 0;
        while k < buf.len()
            invariant
                k <= buf@.len(),
                cities == self@,
                n == cities.len() == self.entries@.len(),
                best_so_far(cities, qs, limit as nat, n as int, buf@),
                ix == positions(buf@),
                out@.len() == k,
                forall|m: int| 0 <= m < k ==> *out@[m] == cities[ix[m]],
            decreases buf@.len() - k,
        {
            let at = buf[k].1;
            assert(self.entries@[at as int].city == cities[at as int]);
            out.push(&self.entries[at].city);
            k = k + 1;
        }
        out
    }

    /// The city with geonameid `geonameid`, the first one should several
    /// share it.
    pub fn city(&self, geonameid: u32) -> (r: Option<&City>)
        ensures
            r is None <==> !has_id(self@, geonameid),
            r matches Some(c) ==> *c == city_with_id(self@, geonameid) && exists|i: int|
                is_first_with_id(self@, geonameid, i) && *c == self@[i],
    {
        let n = self.entries.len();
        let mut k: usize = 0;
        while k < n
            invariant
                k <= n == self@.len(),
                forall|j: int| 0 <= j < k ==> (#[trigger] self@[j]).geonameid != geonameid,
            decreases n - k,
        {
            if self.entries[k].city.geonameid == geonameid {
                proof {
                    assert(self@[k as int] == self.entries@[k as int].city);
                    assert(is_first_with_id(self@, geonameid, k as int));
                    lemma_city_with_id(self@, geonameid, k as int);
                }
                return Some(&self.entries[k].city);
            }
            assert(self@[k as int] == self.entries@[k as int].city);
            k = k + 1;
        }
        None
    }

    /// How the picker lists a city: "Name, Country", widened to
    /// "Name, Admin1, Country" when the name alone would be ambiguous.
    pub fn label(&self, city: &City) -> (r: String)
        ensures
            r@ == label_of(*city, ambiguous_names(self@).contains(city.name@)),
    {
        proof {
            use_type_invariant(self);
            reveal_strlit(", ");
        }
        let mut out = city.name.clone();
        if self.ambiguous.contains(city.name.as_str()) && !city.admin1.as_str().is_empty() {
            out.append(", ");
            out.append(city.admin1.as_str());
        }
        out.append(", ");
        out.append(city.country.as_str());
        out
    }

    /// Whether city `a` at rank `ra` comes before city `b` at rank `rb`.
    fn comes_before(&self, ra: Rank, a: usize, rb: Rank, b: usize) -> (r: bool)
        requires
            a < self@.len(),
            b < self@.len(),
        ensures
            r == key_before(ra, self@[a as int], a as int, rb, self@[b as int], b as int),
    {
        let ca = &self.entries[a].city;
        let cb = &self.entries[b].city;
        if ra != rb {
            ra < rb
        } else if ca.population != cb.population {
            ca.population > cb.population
        } else if ca.geonameid != cb.geonameid {
            ca.geonameid < cb.geonameid
        } else {
            a < b
        }
    }

    /// Lets city `i`, a match of rank `rk`, into the running best `limit`
    /// if it is good enough.
    fn offer(
        &self,
        Ghost(q): Ghost<Seq<char>>,
        buf: &mut Vec<(Rank, usize)>,
        limit: usize,
        rk: Rank,
        i: usize,
    )
        requires
            i < self@.len(),
            limit > 0,
            best_so_far(self@, q, limit as nat, i as int, old(buf)@),
            city_rank(self@[i as int], q) == Some(rk),
        ensures
            final(buf)@ == offered(self@, q, limit as nat, old(buf)@, rk, i as int),
    {
        let ghost cities = self@;
        let ghost b = buf@;
        let len = buf.len();
        if len == limit {
            let last = buf[len - 1];
            proof {
                assert(last.0 == city_rank(cities[last.1 as int], q)->0);
            }
            if !self.comes_before(rk, i, last.0, last.1) {
                return ;
            }
        }
        let mut pos: usize = 0;
        while pos < buf.len() && self.comes_before(buf[pos].0, buf[pos].1, rk, i)
            invariant
                buf@ == b,
                pos <= b.len(),
                i < cities.len(),
                cities == self@,
                best_so_far(cities, q, limit as nat, i as int, b),
                city_rank(cities[i as int], q) == Some(rk),
                slot(cities, q, b, i as int, pos as int) == slot(cities, q, b, i as int, 0),
            decreases b.len() - pos,
        {
            assert(b[pos as int].0 == city_rank(cities[b[pos as int].1 as int], q)->0);
            pos = pos + 1;
        }
        proof {
            if pos < b.len() {
                assert(b[pos as int].0 == city_rank(cities[b[pos as int].1 as int], q)->0);
            }
            assert(slot(cities, q, b, i as int, pos as int) == pos);
        }
        buf.insert(pos, (rk, i));
        if len == limit {
            buf.pop();
        }
    }
}

/// Where city `i` goes in the sorted buffer `b`: after every entry, from the
/// `k`th on, that comes before it.
pub open spec fn slot(cities: Seq<City>, q: Seq<char>, b: Seq<(Rank, usize)>, i: int, k: int) -> int
    decreases b.len() - k,
{
    if k < 0 || k >= b.len() {
        b.len() as int
    } else if ranks_before(cities, q, b[k].1 as int, i) {
        slot(cities, q, b, i, k + 1)
    } else {
        k
    }
}

/// The running best after city `i`, a match of rank `rk`, has been offered
/// to `b`: unchanged when `b` is full and `i` ranks after all of it,
/// otherwise `i` goes in its place and, if `b` was full, the last drops out.
pub open spec fn offered(
    cities: Seq<City>,
    q: Seq<char>,
    limit: nat,
    b: Seq<(Rank, usize)>,
    rk: Rank,
    i: int,
) -> Seq<(Rank, usize)> {
    if b.len() == limit && b.len() > 0 && !ranks_before(cities, q, i, b.last().1 as int) {
        b
    } else {
        let s = b.insert(slot(cities, q, b, i, 0), (rk, i as usize));
        if b.len() == limit {
            s.drop_last()
        } else {
            s
        }
    }
}

proof fn lemma_slot(cities: Seq<City>, q: Seq<char>, b: Seq<(Rank, usize)>, i: int, k: int)
    requires
        0 <= k <= b.len(),
    ensures
        k <= slot(cities, q, b, i, k) <= b.len(),
        forall|m: int| k <= m < slot(cities, q, b, i, k) ==> ranks_before(cities, q, (#[trigger] b[m]).1 as int, i),
        slot(cities, q, b, i, k) < b.len() ==> !ranks_before(cities, q, b[slot(cities, q, b, i, k)].1 as int, i),
    decreases b.len() - k,
{
    if k < b.len() && ranks_before(cities, q, b[k].1 as int, i) {
        lemma_slot(cities, q, b, i, k + 1);
    }
}

/// Offering a match keeps the buffer the best so far.
#[verifier::rlimit(50)]
proof fn lemma_offer(
    cities: Seq<City>,
    q: Seq<char>,
    limit: nat,
    b: Seq<(Rank, usize)>,
    rk: Rank,
    i: int,
)
    requires
        0 <= i < cities.len(),
        i < usize::MAX,
        limit > 0,
        best_so_far(cities, q, limit, i, b),
        city_rank(cities[i], q) == Some(rk),
    ensures
        best_so_far(cities, q, limit, i + 1, offered(cities, q, limit, b, rk, i)),
{
    assert(is_hit(cities, q, i));
    let len = b.len();
    if len == limit && !ranks_before(cities, q, i, b.last().1 as int) {
        assert(b[len - 1].1 < i);
        lemma_before_total(cities, q, i, b.last().1 as int);
        assert forall|j: int|
            #![trigger is_hit(cities, q, j)]
            0 <= j < i + 1 && is_hit(cities, q, j) && !positions(b).contains(j) implies b.len()
            == limit && b.len() > 0 && ranks_before(cities, q, b.last().1 as int, j) by {
            if j < i {
            }
        }
        return ;
    }
    let pos = slot(cities, q, b, i, 0);
    lemma_slot(cities, q, b, i, 0);
    assert forall|k: int| pos <= k < b.len() implies ranks_before(cities, q, i, (#[trigger] b[k]).1 as int) by {
        assert(b[pos].1 < i);
        lemma_before_total(cities, q, i, b[pos].1 as int);
        if k > pos {
            assert(ranks_before(cities, q, b[pos].1 as int, b[k].1 as int));
            lemma_before_trans(cities, q, i, b[pos].1 as int, b[k].1 as int);
        }
    }
    let s = b.insert(pos, (rk, i as usize));
    assert forall|k1: int, k2: int| 0 <= k1 < k2 < s.len() implies ranks_before(cities, q, (#[trigger] s[k1]).1 as int, (#[trigger] s[k2]).1 as int) by {
        if k1 < pos && k2 > pos {
            lemma_before_trans(cities, q, s[k1].1 as int, i, s[k2].1 as int);
        } else if k1 < pos && k2 < pos {
            assert(s[k1] == b[k1] && s[k2] == b[k2]);
        } else if k1 > pos {
            assert(s[k1] == b[k1 - 1] && s[k2] == b[k2 - 1]);
        }
    }
    assert forall|k: int| 0 <= k < s.len() implies {
        &&& (#[trigger] s[k]).1 < i + 1
        &&& is_hit(cities, q, s[k].1 as int)
        &&& city_rank(cities[s[k].1 as int], q) == Some(s[k].0)
    } by {
        if k < pos {
            assert(s[k] == b[k]);
        } else if k > pos {
            assert(s[k] == b[k - 1]);
        }
    }
    assert forall|j: int| positions(b).contains(j) implies positions(s).contains(j) by {
        let k = choose|k: int| 0 <= k < b.len() && positions(b)[k] == j;
        if k < pos {
            assert(positions(s)[k] == j);
        } else {
            assert(positions(s)[k + 1] == j);
        }
    }
    assert(positions(s)[pos] == i);
    if len == limit {
        let f = s.drop_last();
        assert(pos < len) by {
            if pos == len {
                assert(ranks_before(cities, q, b[len - 1].1 as int, i));
                lemma_before_total(cities, q, i, b[len - 1].1 as int);
            }
        }
        let gone = s[len as int].1 as int;
        assert(gone == b[len - 1].1);
        assert(ranks_before(cities, q, f.last().1 as int, gone)) by {
            assert(f.last() == s[len - 1]);
        }
        assert forall|j: int| positions(s).contains(j) && j != gone implies positions(f).contains(j) by {
            let k = choose|k: int| 0 <= k < s.len() && positions(s)[k] == j;
            assert(k < len);
            assert(positions(f)[k] == j);
        }
        assert(positions(f)[pos] == i);
        assert forall|j: int|
            #![trigger is_hit(cities, q, j)]
            0 <= j < i + 1 && is_hit(cities, q, j) && !positions(f).contains(j) implies f.len()
            == limit && f.len() > 0 && ranks_before(cities, q, f.last().1 as int, j) by {
            if j != gone {
                assert(!positions(s).contains(j));
                assert(!positions(b).contains(j));
                assert(ranks_before(cities, q, b.last().1 as int, j));
                lemma_before_trans(cities, q, f.last().1 as int, gone, j);
            }
        }
        assert forall|k1: int, k2: int| 0 <= k1 < k2 < f.len() implies ranks_before(cities, q, (#[trigger] f[k1]).1 as int, (#[trigger] f[k2]).1 as int) by {
            assert(f[k1] == s[k1] && f[k2] == s[k2]);
        }
        assert forall|k: int| 0 <= k < f.len() implies {
            &&& (#[trigger] f[k]).1 < i + 1
            &&& is_hit(cities, q, f[k].1 as int)
            &&& city_rank(cities[f[k].1 as int], q) == Some(f[k].0)
        } by {
            assert(f[k] == s[k]);
        }
    } else {
        assert forall|j: int|
            #![trigger is_hit(cities, q, j)]
            0 <= j < i + 1 && is_hit(cities, q, j) && !positions(s).contains(j) implies s.len()
            == limit && s.len() > 0 && ranks_before(cities, q, s.last().1 as int, j) by {
            if j < i {
                assert(!positions(b).contains(j));
            }
        }
    }
}


/// The running best after offering the first `n` cities in turn.
pub open spec fn best_run(cities: Seq<City>, q: Seq<char>, limit: nat, n: int) -> Seq<(Rank, usize)>
    decreases n,
{
    if n <= 0 {
        Seq::empty()
    } else {
        let b = best_run(cities, q, limit, n - 1);
        if is_hit(cities, q, n - 1) {
            offered(cities, q, limit, b, city_rank(cities[n - 1], q)->0, n - 1)
        } else {
            b
        }
    }
}

proof fn lemma_best_run(cities: Seq<City>, q: Seq<char>, limit: nat, n: int)
    requires
        limit > 0,
        0 <= n <= cities.len() <= usize::MAX,
    ensures
        best_so_far(cities, q, limit, n, best_run(cities, q, limit, n)),
    decreases n,
{
    if n > 0 {
        lemma_best_run(cities, q, limit, n - 1);
        let b = best_run(cities, q, limit, n - 1);
        if is_hit(cities, q, n - 1) {
            lemma_offer(cities, q, limit, b, city_rank(cities[n - 1], q)->0, n - 1);
        } else {
            lemma_skip_miss(cities, q, limit, n - 1, b);
        }
    }
}

proof fn lemma_best_from_buffer(cities: Seq<City>, q: Seq<char>, limit: nat, b: Seq<(Rank, usize)>)
    requires
        best_so_far(cities, q, limit, cities.len() as int, b),
    ensures
        best_matches(cities, q, limit, positions(b)),
{
    let ix = positions(b);
    assert forall|k: int| 0 <= k < ix.len() implies #[trigger] is_hit(cities, q, ix[k]) by {
        assert(ix[k] == b[k].1);
    }
    assert forall|k1: int, k2: int|
        0 <= k1 < k2 < ix.len() implies ranks_before(cities, q, #[trigger] ix[k1], #[trigger] ix[k2]) by {
        assert(ix[k1] == b[k1].1 && ix[k2] == b[k2].1);
    }
    assert forall|j: int|
        #![trigger is_hit(cities, q, j)]
        is_hit(cities, q, j) && !ix.contains(j) implies ix.len() == limit && (ix.len() > 0
            ==> ranks_before(cities, q, ix.last(), j)) by {
        if ix.len() > 0 {
            assert(ix.last() == b.last().1);
        }
    }
}

/// There is always a list of the best matches, and `best_of` is it.
pub proof fn lemma_best_exists(cities: Seq<City>, q: Seq<char>, limit: nat)
    requires
        cities.len() <= usize::MAX,
    ensures
        best_matches(cities, q, limit, best_of(cities, q, limit)),
{
    if limit == 0 {
        assert(best_matches(cities, q, limit, Seq::<int>::empty()));
    } else {
        lemma_best_run(cities, q, limit, cities.len() as int);
        lemma_best_from_buffer(cities, q, limit, best_run(cities, q, limit, cities.len() as int));
    }
}

/// Raising the limit only adds results after the ones already found: the
/// best `l1` matches for a query are the first of its best `l2`, in the same
/// order.
pub proof fn lemma_search_prefix(index: &SearchIndex, q: Seq<char>, l1: nat, l2: nat)
    requires
        l1 <= l2,
    ensures
        best_of(index@, q, l1) == best_of(index@, q, l2).take(best_of(index@, q, l1).len() as int),
{
    assert(index@.len() == index.entries.len());
    lemma_best_exists(index@, q, l1);
    lemma_best_exists(index@, q, l2);
    lemma_best_agree(index@, q, l1, best_of(index@, q, l1), l2, best_of(index@, q, l2));
}


/// White space around a query makes no difference to what it finds: the
/// query is trimmed before anything else.
pub proof fn lemma_padding_ignored(pre: Seq<char>, query: Seq<char>, post: Seq<char>)
    requires
        forall|k: int| 0 <= k < pre.len() ==> is_space(#[trigger] pre[k]),
        forall|k: int| 0 <= k < post.len() ==> is_space(#[trigger] post[k]),
    ensures
        normalized(pre + query + post) == normalized(query),
{
    lemma_trim_padding(pre, query, post);
}


/// The best rank from position `i` on is the least rank of an occurrence at
/// or after `i`, and there is none exactly when nothing occurs there.
proof fn lemma_rank_from_best(h: Seq<char>, q: Seq<char>, i: int)
    requires
        q.len() > 0,
        0 <= i,
    ensures
        rank_from(h, q, i) is None <==> !exists|j: int| i <= j && #[trigger] occurs_at(h, q, j),
        rank_from(h, q, i) matches Some(r) ==> (exists|j: int|
            i <= j && #[trigger] occurs_at(h, q, j) && rank_at(h, j) == r) && (forall|j: int|
            i <= j && #[trigger] occurs_at(h, q, j) ==> r <= rank_at(h, j)),
    decreases h.len() - i,
{
    if i + q.len() > h.len() {
        assert forall|j: int| i <= j implies !#[trigger] occurs_at(h, q, j) by {}
    } else {
        lemma_rank_from_best(h, q, i + 1);
        assert forall|j: int| i + 1 <= j && #[trigger] occurs_at(h, q, j) implies i <= j by {}
        if occurs_at(h, q, i) {
            assert forall|j: int| i <= j && #[trigger] occurs_at(h, q, j) implies j == i || i + 1 <= j by {}
        } else {
            assert forall|j: int| i <= j && #[trigger] occurs_at(h, q, j) implies i + 1 <= j by {}
        }
    }
}

/// How a query ranks against a text, said in terms of where it occurs: a
/// whole-text prefix match exactly when the text starts with it; otherwise a
/// word-prefix match exactly when it occurs right after a character that is
/// neither a letter nor a digit; otherwise a substring match exactly when it
/// occurs at all; and no match when it does not.
pub proof fn lemma_text_rank(h: Seq<char>, q: Seq<char>)
    requires
        q.len() > 0,
    ensures
        text_rank(h, q) == Some(PREFIX) <==> q.len() <= h.len() && h.subrange(0, q.len() as int) == q,
        text_rank(h, q) == Some(WORD_PREFIX) <==> !(q.len() <= h.len() && h.subrange(0, q.len() as int)
            == q) && exists|j: int|
            0 < j && j + q.len() <= h.len() && #[trigger] h.subrange(j, j + q.len()) == q && !is_alnum(
                h[j - 1],
            ),
        text_rank(h, q) == Some(SUBSTRING) <==> (exists|j: int|
            0 <= j && j + q.len() <= h.len() && #[trigger] h.subrange(j, j + q.len()) == q) && !(q.len()
            <= h.len() && h.subrange(0, q.len() as int) == q) && !exists|j: int|
            0 < j && j + q.len() <= h.len() && #[trigger] h.subrange(j, j + q.len()) == q && !is_alnum(
                h[j - 1],
            ),
        text_rank(h, q) is None <==> !exists|j: int|
            0 <= j && j + q.len() <= h.len() && #[trigger] h.subrange(j, j + q.len()) == q,
{
    lemma_rank_from_best(h, q, 0);
    let pre = q.len() <= h.len() && h.subrange(0, q.len() as int) == q;
    assert(pre <==> occurs_at(h, q, 0));
    assert forall|j: int| #[trigger] occurs_at(h, q, j) <==> (0 <= j && j + q.len() <= h.len()
        && h.subrange(j, j + q.len()) == q) by {}
    let word = exists|j: int|
        0 < j && j + q.len() <= h.len() && #[trigger] h.subrange(j, j + q.len()) == q && !is_alnum(
            h[j - 1],
        );
    let any = exists|j: int| 0 <= j && j + q.len() <= h.len() && #[trigger] h.subrange(j, j + q.len()) == q;
    if pre {
        assert(rank_at(h, 0) == PREFIX);
        assert(text_rank(h, q) == Some(PREFIX));
    } else if word {
        let j = choose|j: int|
            0 < j && j + q.len() <= h.len() && #[trigger] h.subrange(j, j + q.len()) == q && !is_alnum(
                h[j - 1],
            );
        assert(occurs_at(h, q, j));
        assert(rank_at(h, j) == WORD_PREFIX);
        let r = text_rank(h, q)->0;
        let w = choose|w: int| 0 <= w && #[trigger] occurs_at(h, q, w) && rank_at(h, w) == r;
        assert(w != 0);
        assert(text_rank(h, q) == Some(WORD_PREFIX));
    } else if any {
        let j = choose|j: int| 0 <= j && j + q.len() <= h.len() && #[trigger] h.subrange(j, j + q.len()) == q;
        assert(occurs_at(h, q, j));
        let r = text_rank(h, q)->0;
        let w = choose|w: int| 0 <= w && #[trigger] occurs_at(h, q, w) && rank_at(h, w) == r;
        assert(w != 0);
        assert(!begins_word(h, w)) by {
            if begins_word(h, w) {
                assert(h.subrange(w, w + q.len()) == q);
            }
        }
        assert(text_rank(h, q) == Some(SUBSTRING));
    } else {
        assert(!exists|j: int| 0 <= j && #[trigger] occurs_at(h, q, j));
    }
}


/// `h` starts with `q`.
pub open spec fn starts_with(h: Seq<char>, q: Seq<char>) -> bool {
    q.len() <= h.len() && h.subrange(0, q.len() as int) == q
}

/// Among the results for a query, a city one of whose lowercased names
/// starts with the query comes before every city whose lowercased names do
/// not, whatever their populations.
pub proof fn lemma_prefix_matches_first(cities: Seq<City>, q: Seq<char>, limit: nat, k1: int, k2: int)
    requires
        cities.len() <= usize::MAX,
        q.len() > 0,
        0 <= k1 < best_of(cities, q, limit).len(),
        0 <= k2 < best_of(cities, q, limit).len(),
        starts_with(lowercase(cities[best_of(cities, q, limit)[k1]].asciiname@), q) || starts_with(
            lowercase(cities[best_of(cities, q, limit)[k1]].name@),
            q,
        ),
        !starts_with(lowercase(cities[best_of(cities, q, limit)[k2]].asciiname@), q),
        !starts_with(lowercase(cities[best_of(cities, q, limit)[k2]].name@), q),
    ensures
        k1 < k2,
{
    let r = best_of(cities, q, limit);
    lemma_best_exists(cities, q, limit);
    let a = cities[r[k1]];
    let b = cities[r[k2]];
    lemma_text_rank(lowercase(a.asciiname@), q);
    lemma_text_rank(lowercase(a.name@), q);
    lemma_text_rank(lowercase(b.asciiname@), q);
    lemma_text_rank(lowercase(b.name@), q);
    assert(city_rank(a, q) == Some(PREFIX));
    assert(is_hit(cities, q, r[k2]));
    assert(city_rank(b, q) is Some && city_rank(b, q)->0 != PREFIX);
    if k2 < k1 {
        assert(ranks_before(cities, q, r[k2], r[k1]));
    }
}

} // verus!
