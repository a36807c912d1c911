//! Sorting pairs of integers, lexicographically.

use vstd::prelude::*;

verus! {

broadcast use vstd::seq_lib::group_to_multiset_ensures;

/// `a` sorts no later than `b`: by the first component, then the second.
pub open spec fn pair_le(a: (u32, usize), b: (u32, usize)) -> bool {
    a.0 < b.0 || (a.0 == b.0 && a.1 <= b.1)
}

/// `s` is in ascending order.
pub open spec fn pairs_sorted(s: Seq<(u32, usize)>) -> bool {
    forall|i: int, j: int| 0 <= i < j < s.len() ==> pair_le(#[trigger] s[i], #[trigger] s[j])
}

proof fn lemma_take_push<T>(s: Seq<T>, i: int)
    requires
        0 <= i < s.len(),
    ensures
        s.take(i + 1) == s.take(i).push(s[i]),
{
    assert(s.take(i + 1) =~= s.take(i).push(s[i]));
}

/// The pairs of `a` and `b`, which are each in order, in order.
fn merge(a: Vec<(u32, usize)>, b: Vec<(u32, usize)>) -> (r: Vec<(u32, usize)>)
    requires
        pairs_sorted(a@),
        pairs_sorted(b@),
    ensures
        pairs_sorted(r@),
        r@.to_multiset() == a@.to_multiset().add(b@.to_multiset()),
{
    let mut out: Vec<(u32, usize)> = Vec::new();
    let mut i: usize = 0;
    let mut j: usize = 0;
    assert(a@.take(0) =~= Seq::<(u32, usize)>::empty());
    assert(b@.take(0) =~= Seq::<(u32, usize)>::empty());
    while i < a.len() || j < b.len()
        invariant
            i <= a@.len(),
            j <= b@.len(),
            pairs_sorted(a@),
            pairs_sorted(b@),
            pairs_sorted(out@),
            out@.to_multiset() == a@.take(i as int).to_multiset().add(b@.take(j as int).to_multiset()),
            out@.len() > 0 && i < a@.len() ==> pair_le(out@.last(), a@[i as int]),
            out@.len() > 0 && j < b@.len() ==> pair_le(out@.last(), b@[j as int]),
        decreases a@.len() + b@.len() - i - j,
    {
        let take_a = if i < a.len() && j < b.len() {
            let x = a[i];
            let y = b[j];
            x.0 < y.0 || (x.0 == y.0 && x.1 <= y.1)
        } else {
            i < a.len()
        };
        let ghost before = out@;
        if take_a {
            let x = a[i];
            out.push(x);
            proof {
                lemma_take_push(a@, i as int);
                assert forall|p: int, q: int| 0 <= p < q < out@.len() implies pair_le(
                    #[trigger] out@[p],
                    #[trigger] out@[q],
                ) by {
                    if q == out@.len() - 1 && p < before.len() {
                        assert(pair_le(before.last(), x));
                        assert(pair_le(before[p], before.last()) || p == before.len() - 1);
                    }
                }
                if i + 1 < a@.len() {
                    assert(pair_le(a@[i as int], a@[i + 1]));
                }
                assert(out@.to_multiset() =~= a@.take(i + 1).to_multiset().add(
                    b@.take(j as int).to_multiset(),
                ));
            }
            i = i + 1;
        } else {
            let y = b[j];
            out.push(y);
            proof {
                lemma_take_push(b@, j as int);
                assert forall|p: int, q: int| 0 <= p < q < out@.len() implies pair_le(
                    #[trigger] out@[p],
                    #[trigger] out@[q],
                ) by {
                    if q == out@.len() - 1 && p < before.len() {
                        assert(pair_le(before.last(), y));
                        assert(pair_le(before[p], before.last()) || p == before.len() - 1);
                    }
                }
                if j + 1 < b@.len() {
                    assert(pair_le(b@[j as int], b@[j + 1]));
                }
                assert(out@.to_multiset() =~= a@.take(i as int).to_multiset().add(
                    b@.take(j + 1).to_multiset(),
                ));
            }
            j = j + 1;
        }
    }
    proof {
        assert(a@.take(a@.len() as int) =~= a@);
        assert(b@.take(b@.len() as int) =~= b@);
    }
    out
}

/// `v`, sorted in ascending order.
pub fn sort_pairs(v: Vec<(u32, usize)>) -> (r: Vec<(u32, usize)>)
    ensures
        pairs_sorted(r@),
        r@.to_multiset() == v@.to_multiset(),
    decreases v@.len(),
{
    if v.len() <= 1 {
        return v;
    }
    let mid = v.len() / 2;
    let mut left = v;
    let ghost whole = left@;
    let right = left.split_off(mid);
    proof {
        assert(whole =~= left@ + right@);
        vstd::seq_lib::lemma_multiset_commutative(left@, right@);
    }
    let l = sort_pairs(left);
    let r = sort_pairs(right);
    merge(l, r)
}

} // verus!
