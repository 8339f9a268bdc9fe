//! The CPU meshes of chunks and the chunks whose mesh changed since the
//! renderer last took them.

use crate::chunk_map::{ChunkMap, ChunkPos};
use vstd::prelude::*;

verus! {

/// The latest mesh of each chunk, and the chunks whose mesh changed (was
/// committed or removed) and needs an upload.
pub struct MeshCache<M> {
    meshes: ChunkMap<M>,
    dirty: ChunkMap<()>,
}

impl<M> MeshCache<M> {
    /// The cached mesh of each chunk.
    pub closed spec fn meshes_view(&self) -> Map<ChunkPos, M> {
        self.meshes@
    }

    /// The chunks waiting for an upload.
    pub closed spec fn dirty_view(&self) -> Set<ChunkPos> {
        self.dirty@.dom()
    }

    pub closed spec fn wf(&self) -> bool {
        self.meshes.wf() && self.dirty.wf()
    }

    /// An empty cache.
    pub fn new() -> (r: Self)
        ensures
            r.wf(),
            r.meshes_view() == Map::<ChunkPos, M>::empty(),
            r.dirty_view() == Set::<ChunkPos>::empty(),
    {
        MeshCache { meshes: ChunkMap::new(), dirty: ChunkMap::new() }
    }

    /// The cached mesh of `pos`, if any.
    pub fn get(&self, pos: ChunkPos) -> (r: Option<&M>)
        requires
            self.wf(),
        ensures
            match r {
                Some(m) => self.meshes_view().dom().contains(pos) && *m == self.meshes_view()[pos],
                None => !self.meshes_view().dom().contains(pos),
            },
    {
        self.meshes.get_ref(pos)
    }

    /// Stores the new mesh of `pos`; the chunk then waits for an upload.
    pub fn commit_mesh(&mut self, pos: ChunkPos, mesh: M)
        requires
            old(self).wf(),
        ensures
            final(self).wf(),
            final(self).meshes_view() == old(self).meshes_view().insert(pos, mesh),
            final(self).dirty_view() == old(self).dirty_view().insert(pos),
    {
        self.meshes.insert(pos, mesh);
        self.dirty.insert(pos, ());
    }

    /// All cached meshes.
    pub fn meshes(&self) -> (r: &ChunkMap<M>)
        ensures
            r@ == self.meshes_view(),
    {
        &self.meshes
    }

    /// Every chunk with a cached mesh waits for an upload again.
    pub fn mark_all_dirty(&mut self)
        requires
            old(self).wf(),
        ensures
            final(self).wf(),
            final(self).meshes_view() == old(self).meshes_view(),
            final(self).dirty_view() == old(self).dirty_view().union(old(self).meshes_view().dom()),
    {
        let keys = self.meshes.keys();
        proof {
            self.meshes.lemma_view();
        }
        let mut k: usize = 0;
        while k < keys.len()
            invariant
                self.wf(),
                self.meshes == old(self).meshes,
                keys@ == old(self).meshes.key_seq(),
                k <= keys@.len(),
                forall|p: ChunkPos| #[trigger] self.dirty@.dom().contains(p) <==> (old(self).dirty@.dom().contains(p)
                    || keys@.take(k as int).contains(p)),
            decreases keys@.len() - k,
        {
            let p = keys[k];
            self.dirty.insert(p, ());
            proof {
                let t0 = keys@.take(k as int);
                let t1 = keys@.take(k + 1);
                assert(t1 =~= t0.push(p));
                assert forall|q: ChunkPos| #[trigger] self.dirty@.dom().contains(q) <==> (old(self).dirty@.dom().contains(q)
                    || t1.contains(q)) by {
                    if q == p {
                        assert(t1[k as int] == q);
                    }
                    if t0.contains(q) {
                        let j = choose|j: int| 0 <= j < t0.len() && t0[j] == q;
                        assert(t1[j] == q);
                    }
                    if t1.contains(q) {
                        let j = choose|j: int| 0 <= j < t1.len() && t1[j] == q;
                        if j < k {
                            assert(t0[j] == q);
                        }
                    }
                }
            }
            k = k + 1;
        }
        proof {
            assert(keys@.take(k as int) =~= keys@);
            assert(self.dirty_view() =~= old(self).dirty_view().union(old(self).meshes_view().dom()));
        }
    }

    /// Drops every cached mesh and every waiting upload, and returns the
    /// chunks that had a mesh, each once, for a rebuild.
    pub fn clear_meshes(&mut self) -> (r: Vec<ChunkPos>)
        requires
            old(self).wf(),
        ensures
            final(self).wf(),
            final(self).meshes_view() == Map::<ChunkPos, M>::empty(),
            final(self).dirty_view() == Set::<ChunkPos>::empty(),
            r@.no_duplicates(),
            forall|p: ChunkPos| #[trigger] r@.contains(p) <==> old(self).meshes_view().dom().contains(p),
    {
        let keys = self.meshes.keys();
        proof {
            self.meshes.lemma_view();
        }
        self.meshes.clear();
        self.dirty.clear();
        keys
    }

    /// Takes the chunks waiting for an upload, each once; none waits
    /// afterwards.
    pub fn take_dirty(&mut self) -> (r: Vec<ChunkPos>)
        requires
            old(self).wf(),
        ensures
            final(self).wf(),
            final(self).meshes_view() == old(self).meshes_view(),
            final(self).dirty_view() == Set::<ChunkPos>::empty(),
            r@.no_duplicates(),
            forall|p: ChunkPos| #[trigger] r@.contains(p) <==> old(self).dirty_view().contains(p),
    {
        let keys = self.dirty.keys();
        proof {
            self.dirty.lemma_view();
        }
        self.dirty.clear();
        keys
    }

    /// Drops the mesh of `pos`; the chunk then waits for an upload (of its
    /// removal).
    pub fn remove(&mut self, pos: ChunkPos)
        requires
            old(self).wf(),
        ensures
            final(self).wf(),
            final(self).meshes_view() == old(self).meshes_view().remove(pos),
            final(self).dirty_view() == old(self).dirty_view().insert(pos),
    {
        self.meshes.remove(pos);
        self.dirty.insert(pos, ());
    }
}

impl<M> Default for MeshCache<M> {
    fn default() -> (r: Self)
        ensures
            r.wf(),
            r.meshes_view() == Map::<ChunkPos, M>::empty(),
            r.dirty_view() == Set::<ChunkPos>::empty(),
    {
        MeshCache::new()
    }
}

} // verus!
