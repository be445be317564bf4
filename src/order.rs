//! The deterministic order in which shared modules are batched.

use vstd::prelude::*;
use crate::chunk_graph::ChunkGraph;

verus! {

/// Module `a` is batched before module `b`: it belongs to more chunks, or to
/// as many and has the smaller number.
pub open spec fn comes_before(counts: Seq<nat>, a: usize, b: usize) -> bool {
    counts[a as int] > counts[b as int] || (counts[a as int] == counts[b as int] && a < b)
}

/// A module is shared when more than one chunk holds it.
pub open spec fn is_shared(counts: Seq<nat>, m: usize) -> bool {
    m < counts.len() && counts[m as int] > 1
}

/// `s` holds exactly the shared modules, in the batching order.
pub open spec fn is_shared_order(counts: Seq<nat>, s: Seq<usize>) -> bool {
    &&& forall|x: usize| #[trigger] s.contains(x) <==> is_shared(counts, x)
    &&& forall|i: int, j: int|
        0 <= i < j < s.len() ==> comes_before(counts, #[trigger] s[i], #[trigger] s[j])
}

/// The shared modules in the batching order (there is exactly one such sequence).
pub open spec fn shared_order(counts: Seq<nat>) -> Seq<usize> {
    choose|s: Seq<usize>| is_shared_order(counts, s)
}

/// Two sequences that both list the shared modules in the batching order are
/// the same sequence.
pub proof fn lemma_shared_order_unique(counts: Seq<nat>, a: Seq<usize>, b: Seq<usize>)
    requires
        is_shared_order(counts, a),
        is_shared_order(counts, b),
    ensures
        a == b,
{
    lemma_sorted_unique(counts, a, b);
}

proof fn lemma_sorted_unique(counts: Seq<nat>, a: Seq<usize>, b: Seq<usize>)
    requires
        forall|x: usize| #![trigger a.contains(x)] #![trigger b.contains(x)] a.contains(x) <==> b.contains(x),
        forall|i: int, j: int|
            0 <= i < j < a.len() ==> comes_before(counts, #[trigger] a[i], #[trigger] a[j]),
        forall|i: int, j: int|
            0 <= i < j < b.len() ==> comes_before(counts, #[trigger] b[i], #[trigger] b[j]),
    ensures
        a == b,
    decreases a.len(),
{
    if a.len() == 0 {
        if b.len() > 0 {
            assert(b.contains(b[0]));
        }
        assert(a =~= b);
    } else if b.len() == 0 {
        assert(a.contains(a[0]));
    } else {
        assert(a.contains(a[0]));
        assert(b.contains(b[0]));
        let k = choose|k: int| 0 <= k < b.len() && b[k] == a[0];
        let l = choose|l: int| 0 <= l < a.len() && a[l] == b[0];
        if k > 0 {
            assert(comes_before(counts, b[0], b[k]));
            if l > 0 {
                assert(comes_before(counts, a[0], a[l]));
            }
        }
        assert(a[0] == b[0]);
        let a1 = a.drop_first();
        let b1 = b.drop_first();
        assert forall|x: usize| #![trigger a1.contains(x)] #![trigger b1.contains(x)] a1.contains(x) <==> b1.contains(x) by {
            if a1.contains(x) {
                let i = choose|i: int| 0 <= i < a1.len() && a1[i] == x;
                assert(comes_before(counts, a[0], a[i + 1]));
                assert(a.contains(x));
                let j = choose|j: int| 0 <= j < b.len() && b[j] == x;
                assert(j != 0);
                assert(b1[j - 1] == x);
            }
            if b1.contains(x) {
                let i = choose|i: int| 0 <= i < b1.len() && b1[i] == x;
                assert(comes_before(counts, b[0], b[i + 1]));
                assert(b.contains(x));
                let j = choose|j: int| 0 <= j < a.len() && a[j] == x;
                assert(j != 0);
                assert(a1[j - 1] == x);
            }
        }
        assert forall|i: int, j: int| 0 <= i < j < a1.len() implies comes_before(
            counts,
            #[trigger] a1[i],
            #[trigger] a1[j],
        ) by {
            assert(comes_before(counts, a[i + 1], a[j + 1]));
        }
        assert forall|i: int, j: int| 0 <= i < j < b1.len() implies comes_before(
            counts,
            #[trigger] b1[i],
            #[trigger] b1[j],
        ) by {
            assert(comes_before(counts, b[i + 1], b[j + 1]));
        }
        lemma_sorted_unique(counts, a1, b1);
        assert(a =~= b1.insert(0, b[0]));
        assert(b =~= b1.insert(0, b[0]));
    }
}

/// The modules of `g` that more than one chunk holds, in the batching order:
/// most shared first, ties by ascending module number.
pub fn shared_modules(g: &ChunkGraph) -> (r: Vec<usize>)
    requires
        g.wf(),
    ensures
        is_shared_order(g.ref_counts(), r@),
        r@ == shared_order(g.ref_counts()),
        r@.no_duplicates(),
        r@.len() <= g.module_count(),
{
    let ghost counts = g.ref_counts();
    let n = g.module_count_exec();
    let mut r: Vec<usize> = Vec::new();
    let mut m: usize = 0;
    while m < n
        invariant
            n == g.module_count(),
            counts == g.ref_counts(),
            m <= n,
            forall|x: usize| #[trigger] r@.contains(x) <==> (x < m && is_shared(counts, x)),
            forall|i: int| 0 <= i < r@.len() ==> #[trigger] r@[i] < m,
            r@.len() <= m,
            forall|i: int, j: int|
                0 <= i < j < r@.len() ==> comes_before(counts, #[trigger] r@[i], #[trigger] r@[j]),
        decreases n - m,
    {
        let count = g.ref_count(m);
        if count > 1 {
            let mut p: usize = 0;
            while p < r.len() && g.ref_count(r[p]) >= count
                invariant
                    n == g.module_count(),
                    counts == g.ref_counts(),
                    m < n,
                    count == counts[m as int],
                    p <= r@.len(),
                    forall|x: usize| #[trigger] r@.contains(x) <==> (x < m && is_shared(counts, x)),
                    forall|i: int| 0 <= i < r@.len() ==> #[trigger] r@[i] < m,
                    r@.len() <= m,
                    forall|i: int, j: int|
                        0 <= i < j < r@.len() ==> comes_before(counts, #[trigger] r@[i], #[trigger] r@[j]),
                    forall|i: int| 0 <= i < p ==> counts[#[trigger] r@[i] as int] >= count,
                decreases r@.len() - p,
            {
                proof {
                    assert(r@.contains(r@[p as int]));
                }
                p += 1;
            }
            let ghost old_r = r@;
            r.insert(p, m);
            proof {
                old_r.insert_ensures(p as int, m);
                assert forall|i: int, j: int|
                    0 <= i < j < r@.len() implies comes_before(counts, #[trigger] r@[i], #[trigger] r@[j]) by {
                    if j < p {
                    } else if i < p && j == p {
                        assert(old_r.contains(old_r[i]));
                    } else if i < p {
                        assert(r@[j] == old_r[j - 1]);
                    } else if i == p {
                        assert(r@[j] == old_r[j - 1]);
                        assert(comes_before(counts, old_r[p as int], old_r[j - 1]) || j - 1 == p);
                        assert(old_r.contains(old_r[j - 1]));
                    } else {
                        assert(r@[i] == old_r[i - 1]);
                        assert(r@[j] == old_r[j - 1]);
                    }
                }
                assert forall|i: int| 0 <= i < r@.len() implies #[trigger] r@[i] < m + 1 by {
                    if i < p {
                        assert(r@[i] == old_r[i]);
                    } else if i > p {
                        assert(r@[i] == old_r[i - 1]);
                    }
                }
                assert forall|x: usize| #[trigger] r@.contains(x) <==> (x < m + 1 && is_shared(counts, x)) by {
                    if r@.contains(x) {
                        let i = choose|i: int| 0 <= i < r@.len() && r@[i] == x;
                        if i < p {
                            assert(old_r.contains(old_r[i]));
                        } else if i > p {
                            assert(old_r.contains(old_r[i - 1]));
                        }
                    }
                    if x < m + 1 && is_shared(counts, x) {
                        if x == m {
                            assert(r@[p as int] == m);
                        } else {
                            assert(old_r.contains(x));
                            let i = choose|i: int| 0 <= i < old_r.len() && old_r[i] == x;
                            if i < p {
                                assert(r@[i] == x);
                            } else {
                                assert(r@[i + 1] == x);
                            }
                        }
                    }
                }
            }
        } else {
            proof {
                assert forall|x: usize| #[trigger] r@.contains(x) <==> (x < m + 1 && is_shared(counts, x)) by {
                    if x == m {
                        assert(!is_shared(counts, x));
                    }
                }
            }
        }
        m += 1;
    }
    proof {
        assert forall|x: usize| #[trigger] r@.contains(x) <==> is_shared(counts, x) by {}
        assert(is_shared_order(counts, r@));
        lemma_shared_order_unique(counts, r@, shared_order(counts));
        assert forall|i: int, j: int| 0 <= i < j < r@.len() implies r@[i] != r@[j] by {
            assert(comes_before(counts, r@[i], r@[j]));
        }
    }
    r
}

} // verus!
