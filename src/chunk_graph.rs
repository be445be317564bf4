//! The bipartite index between modules and chunks, kept in both directions.

use vstd::prelude::*;
use crate::grouping::copy_range;

verus! {

/// Which chunks each module belongs to, and which modules each chunk holds.
/// Modules and chunks are numbered from zero; both directions always agree.
pub struct ChunkGraph {
    module_chunks: Vec<Vec<usize>>,
    chunk_modules: Vec<Vec<usize>>,
}

/// What a sequence holds after a push.
pub proof fn lemma_push_contains(s: Seq<usize>, x: usize)
    ensures
        forall|y: usize| #[trigger] s.push(x).contains(y) <==> (s.contains(y) || y == x),
        s.push(x).len() == s.len() + 1,
        s.no_duplicates() && !s.contains(x) ==> s.push(x).no_duplicates(),
{
    assert forall|y: usize| #[trigger] s.push(x).contains(y) <==> (s.contains(y) || y == x) by {
        if s.contains(y) {
            let i = choose|i: int| 0 <= i < s.len() && s[i] == y;
            assert(s.push(x)[i] == y);
        }
        if y == x {
            assert(s.push(x)[s.len() as int] == y);
        }
        if s.push(x).contains(y) {
            let i = choose|i: int| 0 <= i < s.len() + 1 && s.push(x)[i] == y;
            if i < s.len() {
                assert(s[i] == y);
            }
        }
    }
    if s.no_duplicates() && !s.contains(x) {
        assert forall|i: int, j: int| 0 <= i < j < s.len() + 1 implies s.push(x)[i] != s.push(x)[j] by {
            if j == s.len() {
                assert(s.contains(s[i]));
            }
        }
    }
}

/// `row` without the value `x`.
fn without(row: &Vec<usize>, x: usize) -> (r: Vec<usize>)
    requires
        row@.no_duplicates(),
    ensures
        r@.no_duplicates(),
        forall|y: usize| #[trigger] r@.contains(y) <==> (row@.contains(y) && y != x),
        forall|k: int| 0 <= k < r@.len() ==> #[trigger] row@.contains(r@[k]),
{
    let mut r: Vec<usize> = Vec::new();
    let mut i: usize = 0;
    while i < row.len()
        invariant
            i <= row@.len(),
            row@.no_duplicates(),
            r@.no_duplicates(),
            forall|k: int| #![trigger r@[k]] 0 <= k < r@.len() ==> exists|j: int| 0 <= j < i && #[trigger] row@[j] == r@[k],
            forall|j: int| 0 <= j < i && row@[j] != x ==> #[trigger] r@.contains(row@[j]),
            forall|k: int| 0 <= k < r@.len() ==> #[trigger] r@[k] != x,
        decreases row@.len() - i,
    {
        let y = row[i];
        if y != x {
            proof {
                lemma_push_contains(r@, y);
                if r@.contains(y) {
                    let k = choose|k: int| 0 <= k < r@.len() && r@[k] == y;
                    let j = choose|j: int| 0 <= j < i && #[trigger] row@[j] == r@[k];
                    assert(row@[j] == row@[i as int]);
                }
            }
            r.push(y);
            proof {
                assert forall|k: int| #![trigger r@[k]] 0 <= k < r@.len() implies exists|j: int| 0 <= j < i + 1 && #[trigger] row@[j] == r@[k] by {
                    if k == r@.len() - 1 {
                        assert(row@[i as int] == r@[k]);
                    } else {
                        let j = choose|j: int| 0 <= j < i && #[trigger] row@[j] == r@[k];
                        assert(row@[j] == r@[k]);
                    }
                }
            }
        }
        i += 1;
    }
    proof {
        assert forall|y: usize| #[trigger] r@.contains(y) <==> (row@.contains(y) && y != x) by {
            if r@.contains(y) {
                let k = choose|k: int| 0 <= k < r@.len() && r@[k] == y;
                let j = choose|j: int| 0 <= j < i && #[trigger] row@[j] == r@[k];
                assert(row@[j] == y);
            }
            if row@.contains(y) && y != x {
                let j = choose|j: int| 0 <= j < row@.len() && row@[j] == y;
                assert(r@.contains(row@[j]));
            }
        }
        assert forall|k: int| 0 <= k < r@.len() implies #[trigger] row@.contains(r@[k]) by {
            let j = choose|j: int| 0 <= j < i && #[trigger] row@[j] == r@[k];
        }
    }
    r
}

impl ChunkGraph {
    pub closed spec fn module_count(&self) -> nat {
        self.module_chunks@.len()
    }

    pub closed spec fn chunk_count(&self) -> nat {
        self.chunk_modules@.len()
    }

    /// The chunks of module `m`, each once.
    pub closed spec fn chunks_of(&self, m: int) -> Seq<usize> {
        self.module_chunks@[m]@
    }

    /// The modules of chunk `c`, each once.
    pub closed spec fn modules_of(&self, c: int) -> Seq<usize> {
        self.chunk_modules@[c]@
    }

    /// Module `m` belongs to chunk `c`.
    pub open spec fn linked(&self, m: int, c: int) -> bool {
        0 <= m < self.module_count() && 0 <= c < self.chunk_count() && self.chunks_of(m).contains(
            c as usize,
        )
    }

    pub open spec fn wf(&self) -> bool {
        &&& self.module_count() <= usize::MAX
        &&& self.chunk_count() <= usize::MAX
        &&& forall|m: int|
            0 <= m < self.module_count() ==> (#[trigger] self.chunks_of(m)).no_duplicates()
        &&& forall|c: int|
            0 <= c < self.chunk_count() ==> (#[trigger] self.modules_of(c)).no_duplicates()
        &&& forall|m: int, i: int|
            0 <= m < self.module_count() && 0 <= i < self.chunks_of(m).len() ==> (#[trigger] self.chunks_of(m)[i])
                < self.chunk_count()
        &&& forall|c: int, i: int|
            0 <= c < self.chunk_count() && 0 <= i < self.modules_of(c).len() ==> (#[trigger] self.modules_of(c)[i])
                < self.module_count()
        &&& forall|m: int, c: int|
            0 <= m < self.module_count() && 0 <= c < self.chunk_count() ==> (#[trigger] self.chunks_of(m).contains(c as usize)
                <==> #[trigger] self.modules_of(c).contains(m as usize))
    }

    /// An empty graph.
    pub fn new() -> (g: ChunkGraph)
        ensures
            g.wf(),
            g.module_count() == 0,
            g.chunk_count() == 0,
    {
        ChunkGraph { module_chunks: Vec::new(), chunk_modules: Vec::new() }
    }

    /// Adds a module that belongs to no chunk; returns its number.
    pub fn add_module(&mut self) -> (m: usize)
        requires
            old(self).wf(),
            old(self).module_count() < usize::MAX,
        ensures
            final(self).wf(),
            m == old(self).module_count(),
            final(self).module_count() == old(self).module_count() + 1,
            final(self).chunk_count() == old(self).chunk_count(),
            final(self).chunks_of(m as int) == Seq::<usize>::empty(),
            forall|m2: int, c: int| #[trigger]
                final(self).linked(m2, c) <==> old(self).linked(m2, c),
            forall|c: int| 0 <= c < final(self).chunk_count() ==>
                #[trigger] final(self).modules_of(c) == old(self).modules_of(c),
            forall|m2: int| 0 <= m2 < old(self).module_count() ==>
                #[trigger] final(self).chunks_of(m2) == old(self).chunks_of(m2),
    {
        let m = self.module_chunks.len();
        self.module_chunks.push(Vec::new());
        proof {
            assert(self.chunks_of(m as int) =~= Seq::<usize>::empty());
            assert forall|m2: int| 0 <= m2 < old(self).module_count() implies #[trigger] self.chunks_of(m2) == old(self).chunks_of(m2) by {
                assert(self.module_chunks@[m2] == old(self).module_chunks@[m2]);
            }
            assert forall|c: int| 0 <= c < self.chunk_count() implies #[trigger] self.modules_of(c) == old(self).modules_of(c) by {}
            assert forall|c: int, i: int|
                0 <= c < self.chunk_count() && 0 <= i < self.modules_of(c).len() implies #[trigger] self.modules_of(c)[i] != m by {
                assert(old(self).modules_of(c)[i] < old(self).module_count());
            }
            assert forall|c: int| 0 <= c < self.chunk_count() implies !(#[trigger] self.modules_of(c)).contains(m) by {
                if self.modules_of(c).contains(m) {
                    let i = choose|i: int| 0 <= i < self.modules_of(c).len() && self.modules_of(c)[i] == m;
                    assert(self.modules_of(c)[i] != m);
                }
            }
        }
        m
    }

    /// Adds a chunk that holds no module; returns its key.
    pub fn add_empty_chunk(&mut self) -> (c: usize)
        requires
            old(self).wf(),
            old(self).chunk_count() < usize::MAX,
        ensures
            final(self).wf(),
            c == old(self).chunk_count(),
            final(self).chunk_count() == old(self).chunk_count() + 1,
            final(self).module_count() == old(self).module_count(),
            final(self).modules_of(c as int) == Seq::<usize>::empty(),
            forall|m: int, c2: int| #[trigger]
                final(self).linked(m, c2) <==> old(self).linked(m, c2),
            forall|c2: int| 0 <= c2 < old(self).chunk_count() ==>
                #[trigger] final(self).modules_of(c2) == old(self).modules_of(c2),
            forall|m: int| 0 <= m < final(self).module_count() ==>
                #[trigger] final(self).chunks_of(m) == old(self).chunks_of(m),
    {
        let c = self.chunk_modules.len();
        self.chunk_modules.push(Vec::new());
        proof {
            assert(self.modules_of(c as int) =~= Seq::<usize>::empty());
            assert forall|c2: int| 0 <= c2 < old(self).chunk_count() implies #[trigger] self.modules_of(c2) == old(self).modules_of(c2) by {
                assert(self.chunk_modules@[c2] == old(self).chunk_modules@[c2]);
            }
            assert forall|m: int| 0 <= m < self.module_count() implies #[trigger] self.chunks_of(m) == old(self).chunks_of(m) by {}
            assert forall|m: int, i: int|
                0 <= m < self.module_count() && 0 <= i < self.chunks_of(m).len() implies #[trigger] self.chunks_of(m)[i] != c by {
                assert(old(self).chunks_of(m)[i] < old(self).chunk_count());
            }
            assert forall|m: int| 0 <= m < self.module_count() implies !(#[trigger] self.chunks_of(m)).contains(c) by {
                if self.chunks_of(m).contains(c) {
                    let i = choose|i: int| 0 <= i < self.chunks_of(m).len() && self.chunks_of(m)[i] == c;
                    assert(self.chunks_of(m)[i] != c);
                }
            }
        }
        c
    }

    /// Puts module `m` into chunk `c`, in both directions.
    pub fn connect(&mut self, c: usize, m: usize)
        requires
            old(self).wf(),
            m < old(self).module_count(),
            c < old(self).chunk_count(),
            !old(self).linked(m as int, c as int),
        ensures
            final(self).wf(),
            final(self).module_count() == old(self).module_count(),
            final(self).chunk_count() == old(self).chunk_count(),
            forall|m2: int, c2: int| #[trigger]
                final(self).linked(m2, c2) <==> (old(self).linked(m2, c2) || (m2 == m && c2
                    == c)),
            forall|c2: int| 0 <= c2 < final(self).chunk_count() && c2 != c ==>
                #[trigger] final(self).modules_of(c2) == old(self).modules_of(c2),
            forall|m2: int| 0 <= m2 < final(self).module_count() && m2 != m ==>
                #[trigger] final(self).chunks_of(m2) == old(self).chunks_of(m2),
    {
        self.module_chunks[m].push(c);
        self.chunk_modules[c].push(m);
        proof {
            lemma_push_contains(old(self).chunks_of(m as int), c);
            lemma_push_contains(old(self).modules_of(c as int), m);
            assert(self.chunks_of(m as int) == old(self).chunks_of(m as int).push(c));
            assert(self.modules_of(c as int) == old(self).modules_of(c as int).push(m));
            assert(!old(self).chunks_of(m as int).contains(c));
            assert(old(self).chunks_of(m as int).contains((c as int) as usize)
                <==> old(self).modules_of(c as int).contains((m as int) as usize));
            assert(!old(self).modules_of(c as int).contains(m));
            assert(self.chunks_of(m as int).no_duplicates());
            assert(self.modules_of(c as int).no_duplicates());
            assert forall|m2: int| 0 <= m2 < self.module_count() && m2 != m implies #[trigger] self.chunks_of(m2) == old(self).chunks_of(m2) by {}
            assert forall|c2: int| 0 <= c2 < self.chunk_count() && c2 != c implies #[trigger] self.modules_of(c2) == old(self).modules_of(c2) by {}
            assert forall|m2: int, i: int|
                0 <= m2 < self.module_count() && 0 <= i < self.chunks_of(m2).len() implies (#[trigger] self.chunks_of(m2)[i])
                    < self.chunk_count() by {
                if m2 != m { assert(self.chunks_of(m2)[i] == old(self).chunks_of(m2)[i]); }
            }
            assert forall|c2: int, i: int|
                0 <= c2 < self.chunk_count() && 0 <= i < self.modules_of(c2).len() implies (#[trigger] self.modules_of(c2)[i])
                    < self.module_count() by {
                if c2 != c { assert(self.modules_of(c2)[i] == old(self).modules_of(c2)[i]); }
            }
        }
        proof {
            assert forall|m2: int, c2: int|
                0 <= m2 < self.module_count() && 0 <= c2 < self.chunk_count() implies (
                #[trigger] self.chunks_of(m2).contains(c2 as usize) <==> #[trigger] self.modules_of(
                    c2,
                ).contains(m2 as usize)) by {
                assert(old(self).chunks_of(m2).contains(c2 as usize) <==> old(self).modules_of(
                    c2,
                ).contains(m2 as usize));
                if m2 == m {
                    assert(self.chunks_of(m2) == old(self).chunks_of(m2).push(c));
                    assert(old(self).chunks_of(m2).push(c).contains(c2 as usize) <==> (old(self).chunks_of(
                        m2,
                    ).contains(c2 as usize) || c2 as usize == c));
                } else {
                    assert(self.chunks_of(m2) == old(self).chunks_of(m2));
                }
                if c2 == c {
                    assert(self.modules_of(c2) == old(self).modules_of(c2).push(m));
                    assert(old(self).modules_of(c2).push(m).contains(m2 as usize) <==> (old(self).modules_of(
                        c2,
                    ).contains(m2 as usize) || m2 as usize == m));
                } else {
                    assert(self.modules_of(c2) == old(self).modules_of(c2));
                }
            }
            assert forall|m2: int, c2: int| #[trigger]
                self.linked(m2, c2) <==> (old(self).linked(m2, c2) || (m2 == m && c2 == c)) by {
                if 0 <= m2 < self.module_count() && 0 <= c2 < self.chunk_count() && m2 == m {
                    assert(self.chunks_of(m2).contains(c2 as usize) <==> (old(self).chunks_of(
                        m2,
                    ).contains(c2 as usize) || c2 == c));
                }
            }
        }
    }

    /// Takes module `m` out of chunk `c`, in both directions.
    pub fn disconnect(&mut self, c: usize, m: usize)
        requires
            old(self).wf(),
            m < old(self).module_count(),
            c < old(self).chunk_count(),
        ensures
            final(self).wf(),
            final(self).module_count() == old(self).module_count(),
            final(self).chunk_count() == old(self).chunk_count(),
            forall|m2: int, c2: int| #[trigger]
                final(self).linked(m2, c2) <==> (old(self).linked(m2, c2) && !(m2 == m && c2
                    == c)),
            forall|c2: int| 0 <= c2 < final(self).chunk_count() && c2 != c ==>
                #[trigger] final(self).modules_of(c2) == old(self).modules_of(c2),
            forall|m2: int| 0 <= m2 < final(self).module_count() && m2 != m ==>
                #[trigger] final(self).chunks_of(m2) == old(self).chunks_of(m2),
    {
        assert(self.chunks_of(m as int).no_duplicates());
        assert(self.modules_of(c as int).no_duplicates());
        let new_chunks = without(&self.module_chunks[m], c);
        let new_modules = without(&self.chunk_modules[c], m);
        self.module_chunks[m] = new_chunks;
        self.chunk_modules[c] = new_modules;
        proof {
            assert(self.chunks_of(m as int) == new_chunks@);
            assert(self.modules_of(c as int) == new_modules@);
            assert forall|m2: int| 0 <= m2 < self.module_count() && m2 != m implies #[trigger] self.chunks_of(m2) == old(self).chunks_of(m2) by {}
            assert forall|c2: int| 0 <= c2 < self.chunk_count() && c2 != c implies #[trigger] self.modules_of(c2) == old(self).modules_of(c2) by {}
            assert forall|m2: int, i: int|
                0 <= m2 < self.module_count() && 0 <= i < self.chunks_of(m2).len() implies (#[trigger] self.chunks_of(m2)[i])
                    < self.chunk_count() by {
                if m2 != m {
                    assert(self.chunks_of(m2)[i] == old(self).chunks_of(m2)[i]);
                } else {
                    let v = self.chunks_of(m2)[i];
                    assert(old(self).chunks_of(m2).contains(v));
                    let j = choose|j: int| 0 <= j < old(self).chunks_of(m2).len() && old(self).chunks_of(m2)[j] == v;
                }
            }
            assert forall|c2: int, i: int|
                0 <= c2 < self.chunk_count() && 0 <= i < self.modules_of(c2).len() implies (#[trigger] self.modules_of(c2)[i])
                    < self.module_count() by {
                if c2 != c {
                    assert(self.modules_of(c2)[i] == old(self).modules_of(c2)[i]);
                } else {
                    let v = self.modules_of(c2)[i];
                    assert(old(self).modules_of(c2).contains(v));
                    let j = choose|j: int| 0 <= j < old(self).modules_of(c2).len() && old(self).modules_of(c2)[j] == v;
                }
            }
            assert forall|m2: int, c2: int|
                0 <= m2 < self.module_count() && 0 <= c2 < self.chunk_count() implies (
                #[trigger] self.chunks_of(m2).contains(c2 as usize) <==> #[trigger] self.modules_of(
                    c2,
                ).contains(m2 as usize)) by {
                assert(old(self).chunks_of(m2).contains(c2 as usize) <==> old(self).modules_of(
                    c2,
                ).contains(m2 as usize));
            }
            assert forall|m2: int, c2: int| #[trigger]
                self.linked(m2, c2) <==> (old(self).linked(m2, c2) && !(m2 == m && c2 == c)) by {
            }
        }
    }

    /// How many chunks each module belongs to.
    pub open spec fn ref_counts(&self) -> Seq<nat> {
        Seq::new(self.module_count(), |m: int| self.chunks_of(m).len())
    }

    pub fn ref_count(&self, m: usize) -> (r: usize)
        requires
            m < self.module_count(),
        ensures
            r == self.chunks_of(m as int).len(),
    {
        self.module_chunks[m].len()
    }

    /// A copy of the chunks of module `m`.
    pub fn chunks_of_module(&self, m: usize) -> (r: Vec<usize>)
        requires
            m < self.module_count(),
        ensures
            r@ == self.chunks_of(m as int),
    {
        let row = &self.module_chunks[m];
        let r = copy_range(row, 0, row.len());
        assert(row@.subrange(0, row@.len() as int) =~= row@);
        r
    }

    /// A copy of the modules of chunk `c`.
    pub fn modules_of_chunk(&self, c: usize) -> (r: Vec<usize>)
        requires
            c < self.chunk_count(),
        ensures
            r@ == self.modules_of(c as int),
    {
        let row = &self.chunk_modules[c];
        let r = copy_range(row, 0, row.len());
        assert(row@.subrange(0, row@.len() as int) =~= row@);
        r
    }

    pub fn module_count_exec(&self) -> (r: usize)
        ensures
            r == self.module_count(),
    {
        self.module_chunks.len()
    }

    pub fn chunk_count_exec(&self) -> (r: usize)
        ensures
            r == self.chunk_count(),
    {
        self.chunk_modules.len()
    }
}

} // verus!
