//! The three phases that rewrite the graph once the batches are known:
//! recording splits, registering the new chunks, disconnecting the old links.

use vstd::prelude::*;
use crate::chunk_graph::ChunkGraph;
use crate::model::{Chunk, ChunkKind, SplitRecord};
use crate::grouping::rows;

verus! {

/// The record `r` is a split of an old chunk into the new chunk of one of the
/// batches (new chunk keys start at `first_new`): some module of that batch
/// was in the parent, and the record saw the parent's modules as `g` holds them.
pub open spec fn is_batch_split(g: &ChunkGraph, batches: Seq<Seq<usize>>, first_new: int, r: SplitRecord) -> bool {
    &&& first_new <= r.child < first_new + batches.len()
    &&& r.parent < first_new
    &&& exists|m: usize| #[trigger] batches[r.child - first_new].contains(m) && g.linked(m as int, r.parent as int)
    &&& r.parent_modules@ == g.modules_of(r.parent as int)
}

/// Some record of `splits` from index `from` on splits `parent` into `child`.
pub open spec fn has_split(splits: Seq<SplitRecord>, from: int, parent: int, child: int) -> bool {
    exists|i: int| from <= i < splits.len() && (#[trigger] splits[i]).parent == parent && splits[i].child == child
}

/// For each batch, each of its modules and each chunk that holds the module,
/// records the split of that chunk into the batch's new chunk, with the
/// chunk's modules as the graph holds them now.
pub fn record_splits(g: &ChunkGraph, batches: &Vec<Vec<usize>>, first_new: usize, splits: &mut Vec<SplitRecord>)
    requires
        g.wf(),
        first_new == g.chunk_count(),
        forall|k: int, i: int| 0 <= k < batches@.len() && 0 <= i < batches@[k]@.len() ==> #[trigger] batches@[k]@[i] < g.module_count(),
        first_new + batches@.len() <= usize::MAX,
    ensures
        final(splits)@.len() >= old(splits)@.len(),
        final(splits)@.take(old(splits)@.len() as int) == old(splits)@,
        forall|i: int| old(splits)@.len() <= i < final(splits)@.len() ==>
            is_batch_split(g, rows(batches@), first_new as int, #[trigger] final(splits)@[i]),
        forall|k: int, m: usize, c: int|
            0 <= k < batches@.len() && #[trigger] batches@[k]@.contains(m) && #[trigger] g.linked(m as int, c)
                ==> has_split(final(splits)@, old(splits)@.len() as int, c, first_new + k),
{
    let ghost start = splits@.len();
    let ghost bs = rows(batches@);
    let mut k: usize = 0;
    while k < batches.len()
        invariant
            g.wf(),
            first_new == g.chunk_count(),
            bs == rows(batches@),
            forall|k: int, i: int| 0 <= k < batches@.len() && 0 <= i < batches@[k]@.len() ==> #[trigger] batches@[k]@[i] < g.module_count(),
            first_new + batches@.len() <= usize::MAX,
            k <= batches@.len(),
            splits@.len() >= start,
            splits@.take(start as int) == old(splits)@,
            start == old(splits)@.len(),
            forall|i: int| start <= i < splits@.len() ==> is_batch_split(g, bs, first_new as int, #[trigger] splits@[i]),
            forall|k2: int, m: usize, c: int|
                0 <= k2 < k && #[trigger] batches@[k2]@.contains(m) && #[trigger] g.linked(m as int, c)
                    ==> has_split(splits@, start as int, c, first_new + k2),
        decreases batches@.len() - k,
    {
        let child = first_new + k;
        let batch = &batches[k];
        let mut j: usize = 0;
        while j < batch.len()
            invariant
                g.wf(),
                first_new == g.chunk_count(),
                bs == rows(batches@),
                forall|k: int, i: int| 0 <= k < batches@.len() && 0 <= i < batches@[k]@.len() ==> #[trigger] batches@[k]@[i] < g.module_count(),
                k < batches@.len(),
                child == first_new + k,
                batch == batches@[k as int],
                j <= batch@.len(),
                splits@.len() >= start,
                splits@.take(start as int) == old(splits)@,
                start == old(splits)@.len(),
                forall|i: int| start <= i < splits@.len() ==> is_batch_split(g, bs, first_new as int, #[trigger] splits@[i]),
                forall|k2: int, m: usize, c: int|
                    0 <= k2 < k && #[trigger] batches@[k2]@.contains(m) && #[trigger] g.linked(m as int, c)
                        ==> has_split(splits@, start as int, c, first_new + k2),
                forall|j2: int, c: int|
                    0 <= j2 < j && #[trigger] g.linked(batch@[j2] as int, c)
                        ==> has_split(splits@, start as int, c, child as int),
            decreases batch@.len() - j,
        {
            let m = batch[j];
            let parents = g.chunks_of_module(m);
            let mut l: usize = 0;
            while l < parents.len()
                invariant
                    g.wf(),
                    first_new == g.chunk_count(),
                    bs == rows(batches@),
                    k < batches@.len(),
                    child == first_new + k,
                    batch == batches@[k as int],
                    j < batch@.len(),
                    m == batch@[j as int],
                    m < g.module_count(),
                    parents@ == g.chunks_of(m as int),
                    l <= parents@.len(),
                    splits@.len() >= start,
                    splits@.take(start as int) == old(splits)@,
                    start == old(splits)@.len(),
                    forall|i: int| start <= i < splits@.len() ==> is_batch_split(g, bs, first_new as int, #[trigger] splits@[i]),
                    forall|k2: int, m: usize, c: int|
                        0 <= k2 < k && #[trigger] batches@[k2]@.contains(m) && #[trigger] g.linked(m as int, c)
                            ==> has_split(splits@, start as int, c, first_new + k2),
                    forall|j2: int, c: int|
                        0 <= j2 < j && #[trigger] g.linked(batch@[j2] as int, c)
                            ==> has_split(splits@, start as int, c, child as int),
                    forall|l2: int| 0 <= l2 < l ==> has_split(splits@, start as int, #[trigger] parents@[l2] as int, child as int),
                decreases parents@.len() - l,
            {
                let parent = parents[l];
                assert(g.chunks_of(m as int)[l as int] < g.chunk_count());
                let seen = g.modules_of_chunk(parent);
                let rec = SplitRecord { parent, child, parent_modules: seen };
                let ghost before = splits@;
                proof {
                    assert(g.chunks_of(m as int).contains(parent));
                    assert(g.linked(m as int, parent as int));
                    assert(bs[child - first_new] == batch@);
                    assert(batch@.contains(m));
                    assert(is_batch_split(g, bs, first_new as int, rec));
                }
                splits.push(rec);
                proof {
                    assert(splits@.take(start as int) =~= before.take(start as int));
                    assert(splits@[splits@.len() - 1] == rec);
                    assert forall|i: int| start <= i < splits@.len() implies is_batch_split(g, bs, first_new as int, #[trigger] splits@[i]) by {
                        if i < before.len() {
                            assert(splits@[i] == before[i]);
                        }
                    }
                    assert forall|p: int, ch: int| has_split(before, start as int, p, ch) implies has_split(splits@, start as int, p, ch) by {
                        let i = choose|i: int| start <= i < before.len() && (#[trigger] before[i]).parent == p && before[i].child == ch;
                        assert(splits@[i] == before[i]);
                    }
                    assert(has_split(splits@, start as int, parent as int, child as int));
                    assert forall|l2: int| 0 <= l2 < l + 1 implies has_split(splits@, start as int, #[trigger] parents@[l2] as int, child as int) by {
                        if l2 < l {
                            assert(has_split(before, start as int, parents@[l2] as int, child as int));
                        }
                    }
                    assert forall|k2: int, m2: usize, c: int|
                        0 <= k2 < k && #[trigger] batches@[k2]@.contains(m2) && #[trigger] g.linked(m2 as int, c)
                            implies has_split(splits@, start as int, c, first_new + k2) by {
                        assert(has_split(before, start as int, c, first_new + k2));
                    }
                    assert forall|j2: int, c: int|
                        0 <= j2 < j && #[trigger] g.linked(batch@[j2] as int, c)
                            implies has_split(splits@, start as int, c, child as int) by {
                        assert(has_split(before, start as int, c, child as int));
                    }
                }
                l += 1;
            }
            proof {
                assert forall|j2: int, c: int|
                    0 <= j2 < j + 1 && #[trigger] g.linked(batch@[j2] as int, c)
                        implies has_split(splits@, start as int, c, child as int) by {
                    if j2 == j {
                        assert(parents@.contains(c as usize));
                        let l2 = choose|l2: int| 0 <= l2 < parents@.len() && parents@[l2] == c as usize;
                        assert(has_split(splits@, start as int, parents@[l2] as int, child as int));
                    }
                }
            }
            j += 1;
        }
        proof {
            assert forall|k2: int, m: usize, c: int|
                0 <= k2 < k + 1 && #[trigger] batches@[k2]@.contains(m) && #[trigger] g.linked(m as int, c)
                    implies has_split(splits@, start as int, c, first_new + k2) by {
                if k2 == k {
                    let j2 = choose|j2: int| 0 <= j2 < batch@.len() && batch@[j2] == m;
                    assert(g.linked(batch@[j2] as int, c));
                }
            }
        }
        k += 1;
    }
}

/// The reason attached to every chunk that the pass creates.
pub open spec fn split_reason() -> Seq<char> {
    "Split with ref count> 1"@
}

/// A new chunk as the pass creates it: unnamed, normal, with the split reason.
pub open spec fn is_split_chunk(c: Chunk) -> bool {
    &&& c.name is None
    &&& c.kind == ChunkKind::Normal
    &&& c.reasons@.len() == 1
    &&& c.reasons@[0]@ == split_reason()
}

fn new_split_chunk() -> (c: Chunk)
    ensures
        is_split_chunk(c),
{
    let mut reasons: Vec<String> = Vec::new();
    reasons.push("Split with ref count> 1".to_owned());
    Chunk { name: None, kind: ChunkKind::Normal, reasons }
}

/// Creates one chunk per batch, in batch order, and puts the batch's modules
/// into it. The chunk of batch `k` gets the key `first_new + k`.
pub fn register_batches(g: &mut ChunkGraph, chunks: &mut Vec<Chunk>, batches: &Vec<Vec<usize>>)
    requires
        old(g).wf(),
        old(chunks)@.len() == old(g).chunk_count(),
        old(g).chunk_count() + batches@.len() <= usize::MAX,
        forall|k: int, i: int| 0 <= k < batches@.len() && 0 <= i < batches@[k]@.len() ==> #[trigger] batches@[k]@[i] < old(g).module_count(),
        forall|k: int| 0 <= k < batches@.len() ==> (#[trigger] batches@[k])@.no_duplicates(),
    ensures
        final(g).wf(),
        final(g).module_count() == old(g).module_count(),
        final(g).chunk_count() == old(g).chunk_count() + batches@.len(),
        final(chunks)@.len() == final(g).chunk_count(),
        final(chunks)@.take(old(chunks)@.len() as int) == old(chunks)@,
        forall|k: int| old(chunks)@.len() <= k < final(chunks)@.len() ==> is_split_chunk(#[trigger] final(chunks)@[k]),
        forall|m: int, c: int| #[trigger] final(g).linked(m, c) <==> (old(g).linked(m, c) || (
            old(g).chunk_count() <= c < final(g).chunk_count() && 0 <= m < old(g).module_count() && batches@[c - old(g).chunk_count()]@.contains(m as usize))),
{
    let ghost first = g.chunk_count();
    let mut k: usize = 0;
    while k < batches.len()
        invariant
            g.wf(),
            first == old(g).chunk_count(),
            g.module_count() == old(g).module_count(),
            g.chunk_count() == first + k,
            chunks@.len() == g.chunk_count(),
            old(g).chunk_count() + batches@.len() <= usize::MAX,
            k <= batches@.len(),
            forall|k: int, i: int| 0 <= k < batches@.len() && 0 <= i < batches@[k]@.len() ==> #[trigger] batches@[k]@[i] < old(g).module_count(),
            forall|k: int| 0 <= k < batches@.len() ==> (#[trigger] batches@[k])@.no_duplicates(),
            chunks@.take(first as int) == old(chunks)@,
            forall|k2: int| first <= k2 < chunks@.len() ==> is_split_chunk(#[trigger] chunks@[k2]),
            forall|m: int, c: int| #[trigger] g.linked(m, c) <==> (old(g).linked(m, c) || (
                first <= c < first + k && 0 <= m < old(g).module_count() && batches@[c - first]@.contains(m as usize))),
        decreases batches@.len() - k,
    {
        let ghost before = chunks@;
        chunks.push(new_split_chunk());
        proof {
            assert(chunks@.take(first as int) =~= before.take(first as int));
        }
        let c = g.add_empty_chunk();
        let batch = &batches[k];
        let ghost g0 = *g;
        let mut j: usize = 0;
        while j < batch.len()
            invariant
                g.wf(),
                g.module_count() == old(g).module_count(),
                g.chunk_count() == first + k + 1,
                c == first + k,
                k < batches@.len(),
                batch == batches@[k as int],
                batch@.no_duplicates(),
                forall|i: int| 0 <= i < batch@.len() ==> #[trigger] batch@[i] < old(g).module_count(),
                j <= batch@.len(),
                forall|m: int, c2: int| #[trigger] g.linked(m, c2) <==> (g0.linked(m, c2) || (
                    c2 == c && 0 <= m < old(g).module_count() && batch@.take(j as int).contains(m as usize))),
                forall|m: int| !g0.linked(m, c as int),
            decreases batch@.len() - j,
        {
            let m = batch[j];
            proof {
                if batch@.take(j as int).contains(m) {
                    let i = choose|i: int| 0 <= i < j && batch@.take(j as int)[i] == m;
                    assert(batch@[i] == batch@[j as int]);
                }
            }
            g.connect(c, m);
            proof {
                assert forall|m2: int, c2: int| #[trigger] g.linked(m2, c2) <==> (g0.linked(m2, c2) || (
                    c2 == c && 0 <= m2 < old(g).module_count() && batch@.take(j + 1).contains(m2 as usize))) by {
                    assert(batch@.take(j + 1) =~= batch@.take(j as int).push(m));
                    crate::chunk_graph::lemma_push_contains(batch@.take(j as int), m);
                }
            }
            j += 1;
        }
        proof {
            assert(batch@.take(j as int) =~= batch@);
            assert forall|m: int, c2: int| #[trigger] g.linked(m, c2) <==> (old(g).linked(m, c2) || (
                first <= c2 < first + k + 1 && 0 <= m < old(g).module_count() && batches@[c2 - first]@.contains(m as usize))) by {
                assert(g0.linked(m, c2) <==> (old(g).linked(m, c2) || (
                    first <= c2 < first + k && 0 <= m < old(g).module_count() && batches@[c2 - first]@.contains(m as usize))));
            }
        }
        k += 1;
    }
}

/// Takes every module of `shared` out of every chunk whose key is below
/// `first_new`, in both directions.
pub fn disconnect_shared(g: &mut ChunkGraph, shared: &Vec<usize>, first_new: usize)
    requires
        old(g).wf(),
        first_new <= old(g).chunk_count(),
        forall|i: int| 0 <= i < shared@.len() ==> #[trigger] shared@[i] < old(g).module_count(),
    ensures
        final(g).wf(),
        final(g).module_count() == old(g).module_count(),
        final(g).chunk_count() == old(g).chunk_count(),
        forall|m: int, c: int| #[trigger] final(g).linked(m, c) <==> (old(g).linked(m, c) && !(c
            < first_new && 0 <= m && shared@.contains(m as usize))),
{
    let mut k: usize = 0;
    while k < shared.len()
        invariant
            g.wf(),
            first_new <= old(g).chunk_count(),
            g.module_count() == old(g).module_count(),
            g.chunk_count() == old(g).chunk_count(),
            forall|i: int| 0 <= i < shared@.len() ==> #[trigger] shared@[i] < old(g).module_count(),
            k <= shared@.len(),
            forall|m: int, c: int| #[trigger] g.linked(m, c) <==> (old(g).linked(m, c) && !(c
                < first_new && 0 <= m && shared@.take(k as int).contains(m as usize))),
        decreases shared@.len() - k,
    {
        let m = shared[k];
        let cs = g.chunks_of_module(m);
        let ghost g0 = *g;
        let mut j: usize = 0;
        while j < cs.len()
            invariant
                g.wf(),
                g.module_count() == old(g).module_count(),
                g.chunk_count() == old(g).chunk_count(),
                m < g.module_count(),
                cs@ == g0.chunks_of(m as int),
                g0.wf(),
                g0.chunk_count() == g.chunk_count(),
                g0.module_count() == g.module_count(),
                j <= cs@.len(),
                forall|m2: int, c: int| #[trigger] g.linked(m2, c) <==> (g0.linked(m2, c) && !(m2 == m
                    && c < first_new && cs@.take(j as int).contains(c as usize))),
            decreases cs@.len() - j,
        {
            let c = cs[j];
            proof {
                assert(g0.chunks_of(m as int)[j as int] < g0.chunk_count());
            }
            if c < first_new {
                g.disconnect(c, m);
            }
            proof {
                assert(cs@.take(j + 1) =~= cs@.take(j as int).push(c));
                crate::chunk_graph::lemma_push_contains(cs@.take(j as int), c);
            }
            j += 1;
        }
        proof {
            assert(cs@.take(j as int) =~= cs@);
            assert(shared@.take(k + 1) =~= shared@.take(k as int).push(m));
            crate::chunk_graph::lemma_push_contains(shared@.take(k as int), m);
            assert forall|m2: int, c: int| #[trigger] g.linked(m2, c) <==> (old(g).linked(m2, c) && !(c
                < first_new && 0 <= m2 && shared@.take(k + 1).contains(m2 as usize))) by {
                if m2 == m && g0.linked(m2, c) {
                    assert(cs@.contains(c as usize));
                }
            }
        }
        k += 1;
    }
    assert(shared@.take(k as int) =~= shared@);
}

} // verus!
