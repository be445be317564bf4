//! Facts about batches cut out of a list that holds each module once.

use vstd::prelude::*;

verus! {

pub proof fn lemma_add_contains(a: Seq<usize>, b: Seq<usize>)
    ensures
        forall|x: usize| #[trigger] (a + b).contains(x) <==> (a.contains(x) || b.contains(x)),
        (a + b).no_duplicates() ==> a.no_duplicates() && b.no_duplicates() && forall|x: usize|
            #[trigger] a.contains(x) ==> !b.contains(x),
{
    assert forall|x: usize| #[trigger] (a + b).contains(x) <==> (a.contains(x) || b.contains(x)) by {
        if (a + b).contains(x) {
            let i = choose|i: int| 0 <= i < (a + b).len() && (a + b)[i] == x;
            if i >= a.len() {
                assert(b[i - a.len()] == x);
            }
        }
        if a.contains(x) {
            let i = choose|i: int| 0 <= i < a.len() && a[i] == x;
            assert((a + b)[i] == x);
        }
        if b.contains(x) {
            let i = choose|i: int| 0 <= i < b.len() && b[i] == x;
            assert((a + b)[i + a.len()] == x);
        }
    }
    if (a + b).no_duplicates() {
        assert forall|i: int, j: int| 0 <= i < j < a.len() implies a[i] != a[j] by {
            assert((a + b)[i] == a[i] && (a + b)[j] == a[j]);
        }
        assert forall|i: int, j: int| 0 <= i < j < b.len() implies b[i] != b[j] by {
            assert((a + b)[i + a.len()] == b[i] && (a + b)[j + a.len()] == b[j]);
        }
        assert forall|x: usize| #[trigger] a.contains(x) implies !b.contains(x) by {
            if b.contains(x) {
                let i = choose|i: int| 0 <= i < a.len() && a[i] == x;
                let j = choose|j: int| 0 <= j < b.len() && b[j] == x;
                assert((a + b)[i] == (a + b)[j + a.len()]);
            }
        }
    }
}

/// Where the batches, one after the other, hold each module once: each batch
/// holds each module once, no module is in two batches, and a module is in a
/// batch exactly when it is in the whole.
pub proof fn lemma_disjoint_batches(bs: Seq<Seq<usize>>)
    requires
        bs.flatten().no_duplicates(),
    ensures
        forall|k: int| 0 <= k < bs.len() ==> (#[trigger] bs[k]).no_duplicates(),
        forall|k1: int, k2: int, x: usize|
            0 <= k1 < bs.len() && 0 <= k2 < bs.len() && #[trigger] bs[k1].contains(x)
                && #[trigger] bs[k2].contains(x) ==> k1 == k2,
        forall|x: usize| #[trigger]
            bs.flatten().contains(x) <==> exists|k: int| 0 <= k < bs.len() && #[trigger] bs[k].contains(x),
    decreases bs.len(),
{
    if bs.len() == 0 {
        assert forall|x: usize| #[trigger] bs.flatten().contains(x) <==> exists|k: int| 0 <= k < bs.len() && #[trigger] bs[k].contains(x) by {
            assert(bs.flatten() =~= Seq::<usize>::empty());
        }
    } else {
        let rest = bs.drop_first();
        lemma_add_contains(bs[0], rest.flatten());
        assert(bs.flatten() == bs[0] + rest.flatten());
        lemma_disjoint_batches(rest);
        assert forall|k: int| 0 <= k < bs.len() implies (#[trigger] bs[k]).no_duplicates() by {
            if k > 0 {
                assert(bs[k] == rest[k - 1]);
            }
        }
        assert forall|k1: int, k2: int, x: usize|
            0 <= k1 < bs.len() && 0 <= k2 < bs.len() && #[trigger] bs[k1].contains(x)
                && #[trigger] bs[k2].contains(x) implies k1 == k2 by {
            if k1 > 0 {
                assert(bs[k1] == rest[k1 - 1]);
                assert(rest.flatten().contains(x));
            }
            if k2 > 0 {
                assert(bs[k2] == rest[k2 - 1]);
                assert(rest.flatten().contains(x));
            }
            if k1 > 0 && k2 > 0 {
                assert(rest[k1 - 1].contains(x) && rest[k2 - 1].contains(x));
            }
        }
        assert forall|x: usize| #[trigger] bs.flatten().contains(x) <==> exists|k: int| 0 <= k < bs.len() && #[trigger] bs[k].contains(x) by {
            if bs.flatten().contains(x) {
                if bs[0].contains(x) {
                } else {
                    assert(rest.flatten().contains(x));
                    let k = choose|k: int| 0 <= k < rest.len() && #[trigger] rest[k].contains(x);
                    assert(bs[k + 1] == rest[k]);
                }
            }
            if exists|k: int| 0 <= k < bs.len() && #[trigger] bs[k].contains(x) {
                let k = choose|k: int| 0 <= k < bs.len() && #[trigger] bs[k].contains(x);
                if k > 0 {
                    assert(bs[k] == rest[k - 1]);
                    assert(rest.flatten().contains(x));
                }
            }
        }
    }
}

/// Whether `v` holds `x`.
pub fn contains_id(v: &Vec<usize>, x: usize) -> (r: bool)
    ensures
        r == v@.contains(x),
{
    let mut i: usize = 0;
    while i < v.len()
        invariant
            i <= v@.len(),
            forall|j: int| 0 <= j < i ==> v@[j] != x,
        decreases v@.len() - i,
    {
        if v[i] == x {
            return true;
        }
        i += 1;
    }
    false
}

} // verus!
