use vstd::prelude::*;
use crate::rat::RPoint;

verus! {

/// Strictly increasing sequence of indices: sorted ascending, no duplicates.
pub open spec fn sorted_distinct(s: Seq<usize>) -> bool {
    forall |p: int, q: int| 0 <= p < q < s.len() ==> s[p] < s[q]
}

/// Every index of the sequence is below `n`.
pub open spec fn all_lt(s: Seq<usize>, n: int) -> bool {
    forall |k: int| 0 <= k < s.len() ==> (#[trigger] s[k]) < n
}

/// A well-formed intersection record for a collection of `n` segments:
/// at least two distinct contributing segment indices, sorted ascending,
/// all in range.
pub open spec fn rec_wf(rec: (RPoint, Seq<usize>), n: int) -> bool {
    &&& rec.1.len() >= 2
    &&& sorted_distinct(rec.1)
    &&& all_lt(rec.1, n)
}

/// Every record of the sequence is well formed for `n` segments.
pub open spec fn recs_wf(s: Seq<(RPoint, Seq<usize>)>, n: int) -> bool {
    forall |k: int| 0 <= k < s.len() ==> rec_wf(#[trigger] s[k], n)
}

/// Indices drawn from two in-range sources are in range.
pub proof fn lemma_all_lt_union(s: Seq<usize>, a: Seq<usize>, b: Seq<usize>, n: int)
    requires
        all_lt(a, n),
        all_lt(b, n),
        forall |y: usize| s.contains(y) ==> a.contains(y) || b.contains(y),
    ensures
        all_lt(s, n),
{
    assert forall |k: int| 0 <= k < s.len() implies (#[trigger] s[k]) < n by {
        let y = s[k];
        assert(s.contains(y));
        if a.contains(y) {
            let u = choose |u: int| 0 <= u < a.len() && a[u] == y;
            assert(a[u] < n);
        } else {
            assert(b.contains(y));
            let u = choose |u: int| 0 <= u < b.len() && b[u] == y;
            assert(b[u] < n);
        }
    }
}

/// Indices drawn from an in-range source plus one in-range index are in
/// range.
pub proof fn lemma_all_lt_insert(s: Seq<usize>, a: Seq<usize>, x: usize, n: int)
    requires
        all_lt(a, n),
        (x as int) < n,
        forall |y: usize| s.contains(y) ==> a.contains(y) || y == x,
    ensures
        all_lt(s, n),
{
    assert(seq![x][0] == x);
    assert forall |y: usize| s.contains(y) implies a.contains(y) || seq![x].contains(y) by {
        if !a.contains(y) {
            assert(y == x);
            assert(seq![x].contains(y));
        }
    }
    lemma_all_lt_union(s, a, seq![x], n);
}

/// Inserts `x` into the sorted duplicate-free vector `v`, keeping it sorted
/// and duplicate-free.
pub fn insert_sorted(v: &mut Vec<usize>, x: usize)
    requires
        sorted_distinct(old(v)@),
    ensures
        sorted_distinct(final(v)@),
        forall |y: usize| #[trigger] final(v)@.contains(y) <==> (old(v)@.contains(y) || y == x),
        old(v)@.len() <= final(v)@.len() <= old(v)@.len() + 1,
{
    let mut idx: usize = 0;
    while idx < v.len() && v[idx] < x
        invariant
            sorted_distinct(v@),
            v@ == old(v)@,
            idx <= v@.len(),
            forall |k: int| 0 <= k < idx ==> (#[trigger] v@[k]) < x,
        decreases v@.len() - idx,
    {
        idx = idx + 1;
    }
    if idx < v.len() && v[idx] == x {
        proof {
            assert(v@.contains(x)) by {
                assert(v@[idx as int] == x);
            }
        }
        return;
    }
    v.insert(idx, x);
    proof {
        let s0 = old(v)@;
        let s1 = v@;
        assert(s1 =~= s0.insert(idx as int, x));
        assert forall |p: int, q: int| 0 <= p < q < s1.len() implies s1[p] < s1[q] by {
            if p < idx && q < idx {
            } else if p < idx && q == idx {
            } else if p < idx && q > idx {
                assert(s0[p] < x);
                if idx < s0.len() {
                    assert(x <= s0[idx as int]);
                }
            } else if p == idx {
                assert(x <= s0[q - 1]);
                assert(x != s0[q - 1]);
            } else {
            }
        }
        assert forall |y: usize| s1.contains(y) <==> (s0.contains(y) || y == x) by {
            if s1.contains(y) {
                let w = choose |w: int| 0 <= w < s1.len() && s1[w] == y;
                if w < idx {
                    assert(s0[w] == y);
                    assert(s0.contains(y));
                } else if w == idx {
                } else {
                    assert(s0[w - 1] == y);
                    assert(s0.contains(y));
                }
            }
            if s0.contains(y) {
                let w = choose |w: int| 0 <= w < s0.len() && s0[w] == y;
                if w < idx {
                    assert(s1[w] == y);
                } else {
                    assert(s1[w + 1] == y);
                }
                assert(s1.contains(y));
            }
            if y == x {
                assert(s1[idx as int] == y);
                assert(s1.contains(y));
            }
        }
    }
}

/// Inserts every index of `src` into the sorted duplicate-free vector `v`.
pub fn insert_all_sorted(v: &mut Vec<usize>, src: &Vec<usize>)
    requires
        sorted_distinct(old(v)@),
    ensures
        sorted_distinct(final(v)@),
        forall |y: usize|
            #[trigger] final(v)@.contains(y) <==> (old(v)@.contains(y) || src@.contains(y)),
        final(v)@.len() >= old(v)@.len(),
{
    let mut k: usize = 0;
    while k < src.len()
        invariant
            sorted_distinct(v@),
            v@.len() >= old(v)@.len(),
            k <= src@.len(),
            forall |y: usize|
                v@.contains(y) <==> (old(v)@.contains(y) || exists |w: int|
                    0 <= w < k && src@[w] == y),
        decreases src@.len() - k,
    {
        insert_sorted(v, src[k]);
        proof {
            assert(src@[k as int] == src@[k as int]);
        }
        k = k + 1;
    }
    proof {
        assert forall |y: usize| src@.contains(y) implies exists |w: int|
            0 <= w < src@.len() && src@[w] == y by {
        }
    }
}

/// The index `x` occurs in the vector `v`.
pub fn vec_contains(v: &Vec<usize>, x: usize) -> (r: bool)
    ensures
        r == v@.contains(x),
{
    let mut k: usize = 0;
    while k < v.len()
        invariant
            k <= v@.len(),
            forall |w: int| 0 <= w < k ==> v@[w] != x,
        decreases v@.len() - k,
    {
        if v[k] == x {
            proof {
                assert(v@[k as int] == x);
            }
            return true;
        }
        k = k + 1;
    }
    false
}

} // verus!
