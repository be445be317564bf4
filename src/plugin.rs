//! The pass: detect shared modules, order them, batch them, and move each
//! batch into a chunk of its own.

use vstd::prelude::*;
use crate::chunk_graph::ChunkGraph;
use crate::model::{Chunk, Module, SplitRecord};
use crate::order::{is_shared, is_shared_order, shared_modules, shared_order};
use crate::grouping::{
    ids_in, lemma_plan_len, lemma_plan_partitions, plan, plan_batches, rows, windows, MAX_MODULES_PER_CHUNK,
    MAX_SIZE_PER_CHUNK,
};
use crate::batches::lemma_disjoint_batches;
use crate::rewrite::{
    disconnect_shared, has_split, is_batch_split, is_split_chunk, record_splits, register_batches,
};

verus! {

/// One snapshot of a build: the module graph, the chunk registry, the chunk
/// graph between them, and the log of chunk splits.
pub struct Compilation {
    pub modules: Vec<Module>,
    pub chunks: Vec<Chunk>,
    pub chunk_graph: ChunkGraph,
    pub splits: Vec<SplitRecord>,
}

/// The pass found a shared module that the module graph does not hold.
#[derive(Clone, Copy, Debug, PartialEq, Eq, Structural)]
pub enum SplitError {
    MissingModule(usize),
}

/// `f` is what the pass makes of `o`:
/// - the modules stay; the old chunks stay, in place;
/// - one new chunk per planned batch, in batch order, after the old chunks,
///   each unnamed, normal, with the split reason;
/// - a module belongs to an old chunk afterwards when it did before and was
///   not shared, and to a new chunk when it is in that chunk's batch;
/// - the split log gains records only: each splits an old chunk into the new
///   chunk of a batch that holds one of the old chunk's modules, and saw the old
///   chunk's modules as they were before the pass; and every old chunk of every
///   batched module has such a record for that batch's chunk.
pub open spec fn is_pass_result(o: Compilation, f: Compilation) -> bool {
    let first = o.chunk_graph.chunk_count();
    let bs = o.planned_batches();
    &&& f.wf()
    &&& f.modules == o.modules
    &&& f.chunk_graph.module_count() == o.chunk_graph.module_count()
    &&& f.chunk_graph.chunk_count() == first + bs.len()
    &&& f.chunks@.take(first as int) == o.chunks@
    &&& forall|c: int| first <= c < f.chunks@.len() ==> is_split_chunk(#[trigger] f.chunks@[c])
    &&& forall|m: int, c: int| #[trigger] f.chunk_graph.linked(m, c) <==> (
        (o.chunk_graph.linked(m, c) && !o.is_shared(m))
        || (first <= c < first + bs.len() && 0 <= m < o.chunk_graph.module_count()
            && bs[c - first].contains(m as usize)))
    &&& f.splits@.take(o.splits@.len() as int) == o.splits@
    &&& forall|i: int| o.splits@.len() <= i < f.splits@.len() ==>
        is_batch_split(&o.chunk_graph, bs, first as int, #[trigger] f.splits@[i])
    &&& forall|k: int, m: usize, c: int|
        0 <= k < bs.len() && #[trigger] bs[k].contains(m) && #[trigger] o.chunk_graph.linked(m as int, c)
            ==> has_split(f.splits@, o.splits@.len() as int, c, first + k)
}

/// A sequence without duplicates that is longer than one holds two different values.
proof fn lemma_two_apart(s: Seq<usize>)
    requires
        s.no_duplicates(),
        s.len() > 1,
    ensures
        s.contains(s[0]),
        s.contains(s[1]),
        s[0] != s[1],
{
    assert(s.contains(s[0]));
    assert(s.contains(s[1]));
}

proof fn lemma_no_residual_sharing(o: Compilation, f: Compilation, m: int)
    requires
        o.wf(),
        is_pass_result(o, f),
        is_shared_order(o.chunk_graph.ref_counts(), o.shared_order()),
        0 <= m < o.chunk_graph.module_count(),
    ensures
        o.is_shared(m) ==> exists|c: int| #[trigger] f.chunk_graph.linked(m, c) && c >= o.chunk_graph.chunk_count()
            && forall|c2: int| #[trigger] f.chunk_graph.linked(m, c2) ==> c2 == c,
        !o.is_shared(m) ==> forall|c: int| #[trigger] f.chunk_graph.linked(m, c) == o.chunk_graph.linked(m, c),
        !f.is_shared(m),
{
    let first = o.chunk_graph.chunk_count();
    let bs = o.planned_batches();
    let order = o.shared_order();
    let counts = o.chunk_graph.ref_counts();
    lemma_plan_partitions(o.modules@, order, MAX_MODULES_PER_CHUNK as nat, MAX_SIZE_PER_CHUNK as int);
    assert(order.no_duplicates()) by {
        assert forall|i: int, j: int| 0 <= i < j < order.len() implies order[i] != order[j] by {
            assert(crate::order::comes_before(counts, order[i], order[j]));
        }
    }
    lemma_disjoint_batches(bs);
    if o.is_shared(m) {
        assert(order.contains(m as usize));
        let k = choose|k: int| 0 <= k < bs.len() && #[trigger] bs[k].contains(m as usize);
        let c = first + k;
        assert(f.chunk_graph.linked(m, c));
        assert forall|c2: int| #[trigger] f.chunk_graph.linked(m, c2) implies c2 == c by {
            if first <= c2 < first + bs.len() {
                assert(bs[c2 - first].contains(m as usize));
            }
        }
        if f.is_shared(m) {
            lemma_two_apart(f.chunk_graph.chunks_of(m));
            assert(f.chunk_graph.linked(m, f.chunk_graph.chunks_of(m)[0] as int));
            assert(f.chunk_graph.linked(m, f.chunk_graph.chunks_of(m)[1] as int));
        }
    } else {
        assert forall|c: int| #[trigger] f.chunk_graph.linked(m, c) == o.chunk_graph.linked(m, c) by {
            if first <= c < first + bs.len() && bs[c - first].contains(m as usize) {
                assert(order.contains(m as usize));
            }
        }
        if f.is_shared(m) {
            lemma_two_apart(f.chunk_graph.chunks_of(m));
            let a = f.chunk_graph.chunks_of(m)[0];
            let b = f.chunk_graph.chunks_of(m)[1];
            assert(f.chunk_graph.linked(m, a as int));
            assert(f.chunk_graph.linked(m, b as int));
            assert(o.chunk_graph.chunks_of(m).contains(a));
            assert(o.chunk_graph.chunks_of(m).contains(b));
            if o.chunk_graph.chunks_of(m).len() <= 1 {
                let s = o.chunk_graph.chunks_of(m);
                let i = choose|i: int| 0 <= i < s.len() && s[i] == a;
                let j = choose|j: int| 0 <= j < s.len() && s[j] == b;
            }
        }
    }
}

/// Two runs of the pass on the same snapshot make the same new chunks, with
/// the same modules and the same reasons.
pub proof fn lemma_pass_deterministic(o: Compilation, f1: Compilation, f2: Compilation)
    requires
        is_pass_result(o, f1),
        is_pass_result(o, f2),
    ensures
        f1.chunk_graph.chunk_count() == f2.chunk_graph.chunk_count(),
        forall|m: int, c: int| #[trigger] f1.chunk_graph.linked(m, c) == #[trigger] f2.chunk_graph.linked(m, c),
        forall|c: int| o.chunk_graph.chunk_count() <= c < f1.chunk_graph.chunk_count() ==> (
            #[trigger] f1.chunks@[c]).reasons@.len() == f2.chunks@[c].reasons@.len()
            && forall|i: int| 0 <= i < f1.chunks@[c].reasons@.len() ==>
                (#[trigger] f1.chunks@[c].reasons@[i])@ == f2.chunks@[c].reasons@[i]@,
{
    assert forall|c: int| o.chunk_graph.chunk_count() <= c < f1.chunk_graph.chunk_count() implies (
        #[trigger] f1.chunks@[c]).reasons@.len() == f2.chunks@[c].reasons@.len()
        && forall|i: int| 0 <= i < f1.chunks@[c].reasons@.len() ==>
            (#[trigger] f1.chunks@[c].reasons@[i])@ == f2.chunks@[c].reasons@[i]@ by {
        assert(is_split_chunk(f1.chunks@[c]));
        assert(is_split_chunk(f2.chunks@[c]));
    }
}

/// A snapshot where no module is shared gets no batch, hence no new chunk.
pub proof fn lemma_unshared_plans_nothing(c: Compilation)
    requires
        c.no_shared_module(),
    ensures
        c.shared_order().len() == 0,
        c.planned_batches().len() == 0,
{
    let counts = c.chunk_graph.ref_counts();
    assert forall|x: usize| !is_shared(counts, x) by {
        assert(!c.is_shared(x as int));
    }
    assert(is_shared_order(counts, Seq::<usize>::empty()));
    let s = c.shared_order();
    assert(is_shared_order(counts, s));
    if s.len() > 0 {
        assert(s.contains(s[0]));
        assert(c.is_shared(s[0] as int));
    }
    assert(windows(s, MAX_MODULES_PER_CHUNK as nat) == Seq::<Seq<usize>>::empty());
}

/// Running the pass again on its own output adds no chunk and moves no module.
pub proof fn lemma_rerun_adds_nothing(o: Compilation, f: Compilation, g: Compilation)
    requires
        is_pass_result(o, f),
        f.no_shared_module(),
        is_pass_result(f, g),
    ensures
        g.chunk_graph.chunk_count() == f.chunk_graph.chunk_count(),
        forall|m: int, c: int| #[trigger] g.chunk_graph.linked(m, c) == f.chunk_graph.linked(m, c),
{
    lemma_unshared_plans_nothing(f);
}

impl Compilation {
    pub open spec fn wf(&self) -> bool {
        self.chunk_graph.wf() && self.chunks@.len() == self.chunk_graph.chunk_count()
    }

    /// The shared modules of this snapshot, in batching order.
    pub open spec fn shared_order(&self) -> Seq<usize> {
        shared_order(self.chunk_graph.ref_counts())
    }

    /// The batches that the pass makes of this snapshot, one new chunk each.
    pub open spec fn planned_batches(&self) -> Seq<Seq<usize>> {
        plan(self.modules@, self.shared_order(), MAX_MODULES_PER_CHUNK as nat, MAX_SIZE_PER_CHUNK as int)
    }

    /// Module `m` is shared by more than one chunk.
    pub open spec fn is_shared(&self, m: int) -> bool {
        0 <= m < self.chunk_graph.module_count() && is_shared(self.chunk_graph.ref_counts(), m as usize)
    }

    /// No module belongs to more than one chunk.
    pub open spec fn no_shared_module(&self) -> bool {
        forall|m: int| !#[trigger] self.is_shared(m)
    }

    /// Every shared module is in the module graph.
    pub open spec fn shared_modules_known(&self) -> bool {
        forall|m: int| #[trigger] self.is_shared(m) ==> m < self.modules@.len()
    }

    /// A snapshot with these modules, as many modules in the chunk graph,
    /// and no chunk.
    pub fn new(modules: Vec<Module>) -> (r: Compilation)
        ensures
            r.wf(),
            r.modules@ == modules@,
            r.chunk_graph.module_count() == modules@.len(),
            r.chunk_graph.chunk_count() == 0,
            r.splits@.len() == 0,
            forall|m: int, c: int| !(#[trigger] r.chunk_graph.linked(m, c)),
    {
        let mut g = ChunkGraph::new();
        let mut i: usize = 0;
        while i < modules.len()
            invariant
                g.wf(),
                i <= modules@.len(),
                g.module_count() == i,
                g.chunk_count() == 0,
                forall|m: int, c: int| !(#[trigger] g.linked(m, c)),
            decreases modules@.len() - i,
        {
            g.add_module();
            i += 1;
        }
        Compilation { modules, chunks: Vec::new(), chunk_graph: g, splits: Vec::new() }
    }

    /// Registers a chunk that holds no module yet; returns its key.
    pub fn add_chunk(&mut self, chunk: Chunk) -> (c: usize)
        requires
            old(self).wf(),
            old(self).chunk_graph.chunk_count() < usize::MAX,
        ensures
            final(self).wf(),
            c == old(self).chunks@.len(),
            final(self).chunks@ == old(self).chunks@.push(chunk),
            final(self).modules == old(self).modules,
            final(self).splits == old(self).splits,
            final(self).chunk_graph.module_count() == old(self).chunk_graph.module_count(),
            forall|m: int, c2: int| #[trigger]
                final(self).chunk_graph.linked(m, c2) <==> old(self).chunk_graph.linked(m, c2),
    {
        self.chunks.push(chunk);
        self.chunk_graph.add_empty_chunk()
    }

    /// Puts module `m` into chunk `c`.
    pub fn connect(&mut self, c: usize, m: usize)
        requires
            old(self).wf(),
            m < old(self).chunk_graph.module_count(),
            c < old(self).chunk_graph.chunk_count(),
            !old(self).chunk_graph.linked(m as int, c as int),
        ensures
            final(self).wf(),
            final(self).chunks == old(self).chunks,
            final(self).modules == old(self).modules,
            final(self).splits == old(self).splits,
            final(self).chunk_graph.module_count() == old(self).chunk_graph.module_count(),
            forall|m2: int, c2: int| #[trigger]
                final(self).chunk_graph.linked(m2, c2) <==> (old(self).chunk_graph.linked(m2, c2)
                    || (m2 == m && c2 == c)),
    {
        self.chunk_graph.connect(c, m);
    }
}

/// Splits modules that several chunks share into chunks of their own, so
/// that each is built and shipped once during development.
#[derive(Clone, Copy, Debug, Default)]
pub struct DevFriendlySplitChunksPlugin;

impl DevFriendlySplitChunksPlugin {
    pub fn new() -> (r: Self) {
        DevFriendlySplitChunksPlugin
    }

    pub fn name(&self) -> (r: &'static str)
        ensures
            r@ == "DevFriendlySplitChunksPlugin"@,
    {
        "DevFriendlySplitChunksPlugin"
    }

    /// Runs the pass on `compilation`. Every module that more than one chunk
    /// holds leaves those chunks and lands in exactly one new chunk; the new
    /// chunks are the planned batches, in order, after the old ones. Each old
    /// chunk is recorded as split into the new chunk of each of its shared
    /// modules, before any module leaves it. Fails, changing nothing, when a
    /// shared module is missing from the module graph.
    pub fn optimize_chunks(&self, compilation: &mut Compilation) -> (r: Result<(), SplitError>)
        requires
            old(compilation).wf(),
            old(compilation).chunk_graph.chunk_count() + old(compilation).chunk_graph.module_count()
                <= usize::MAX,
        ensures
            r is Err <==> !old(compilation).shared_modules_known(),
            r matches Err(SplitError::MissingModule(id)) ==> old(compilation).is_shared(id as int)
                && id >= old(compilation).modules@.len() && *final(compilation) == *old(compilation),
            r is Ok ==> is_pass_result(*old(compilation), *final(compilation)),
            r is Ok ==> final(compilation).no_shared_module(),
            r is Ok ==> forall|m: int| #[trigger] old(compilation).is_shared(m) ==> exists|c: int|
                #[trigger] final(compilation).chunk_graph.linked(m, c)
                && c >= old(compilation).chunk_graph.chunk_count()
                && forall|c2: int| #[trigger] final(compilation).chunk_graph.linked(m, c2) ==> c2 == c,
            r is Ok ==> forall|m: int, c: int| !old(compilation).is_shared(m) ==>
                (#[trigger] final(compilation).chunk_graph.linked(m, c) == old(compilation).chunk_graph.linked(m, c)),
    {
        let ghost o = *compilation;
        let ghost counts = compilation.chunk_graph.ref_counts();
        let order = shared_modules(&compilation.chunk_graph);
        let mut i: usize = 0;
        while i < order.len()
            invariant
                *compilation == o,
                o.wf(),
                counts == o.chunk_graph.ref_counts(),
                is_shared_order(counts, order@),
                order@ == o.shared_order(),
                i <= order@.len(),
                forall|j: int| 0 <= j < i ==> #[trigger] order@[j] < o.modules@.len(),
            decreases order@.len() - i,
        {
            if order[i] >= compilation.modules.len() {
                proof {
                    assert(order@.contains(order@[i as int]));
                    assert(o.is_shared(order@[i as int] as int));
                }
                return Err(SplitError::MissingModule(order[i]));
            }
            i += 1;
        }
        proof {
            assert forall|m: int| #[trigger] o.is_shared(m) implies m < o.modules@.len() by {
                assert(order@.contains(m as usize));
                let j = choose|j: int| 0 <= j < order@.len() && order@[j] == m as usize;
            }
            assert(ids_in(o.modules@, order@));
        }
        let batches = plan_batches(&compilation.modules, &order, MAX_MODULES_PER_CHUNK, MAX_SIZE_PER_CHUNK);
        let ghost bs = rows(batches@);
        proof {
            lemma_plan_len(o.modules@, order@, MAX_MODULES_PER_CHUNK as nat, MAX_SIZE_PER_CHUNK as int);
            lemma_plan_partitions(o.modules@, order@, MAX_MODULES_PER_CHUNK as nat, MAX_SIZE_PER_CHUNK as int);
            lemma_disjoint_batches(bs);
            assert forall|k: int, j: int| 0 <= k < batches@.len() && 0 <= j < batches@[k]@.len()
                implies #[trigger] batches@[k]@[j] < o.chunk_graph.module_count() by {
                assert(bs[k] == batches@[k]@);
                assert(bs[k].contains(batches@[k]@[j]));
                assert(order@.contains(batches@[k]@[j]));
            }
            assert forall|k: int| 0 <= k < batches@.len() implies (#[trigger] batches@[k])@.no_duplicates() by {
                assert(bs[k] == batches@[k]@);
            }
        }
        let first = compilation.chunk_graph.chunk_count_exec();
        record_splits(&compilation.chunk_graph, &batches, first, &mut compilation.splits);
        register_batches(&mut compilation.chunk_graph, &mut compilation.chunks, &batches);
        let ghost g1 = compilation.chunk_graph;
        proof {
            assert forall|i: int| 0 <= i < order@.len() implies #[trigger] order@[i] < g1.module_count() by {
                assert(order@.contains(order@[i]));
            }
        }
        disconnect_shared(&mut compilation.chunk_graph, &order, first);
        proof {
            let f = *compilation;
            assert forall|m: int, c: int| #[trigger] f.chunk_graph.linked(m, c) <==> (
                (o.chunk_graph.linked(m, c) && !o.is_shared(m))
                || (first <= c < first + bs.len() && 0 <= m < o.chunk_graph.module_count()
                    && bs[c - first].contains(m as usize))) by {
                if 0 <= m < o.chunk_graph.module_count() {
                    assert(order@.contains(m as usize) <==> o.is_shared(m));
                }
                if first <= c < first + bs.len() {
                    assert(bs[c - first] == batches@[c - first]@);
                }
            }
        }
        proof {
            let f = *compilation;
            assert(is_pass_result(o, f));
            assert forall|m: int| 0 <= m < o.chunk_graph.module_count() implies
                (o.is_shared(m) ==> exists|c: int| #[trigger] f.chunk_graph.linked(m, c) && c >= o.chunk_graph.chunk_count()
                    && forall|c2: int| #[trigger] f.chunk_graph.linked(m, c2) ==> c2 == c)
                && (!o.is_shared(m) ==> forall|c: int| #[trigger] f.chunk_graph.linked(m, c) == o.chunk_graph.linked(m, c))
                && !f.is_shared(m) by {
                lemma_no_residual_sharing(o, f, m);
            }
        }
        Ok(())
    }
}

} // verus!
