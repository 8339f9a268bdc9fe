//! Which loaded chunks still need a mesh or a GPU upload, and the per-chunk
//! biome grids kept beside the world.

use vstd::prelude::*;
use crate::chunk_map::{ChunkMap, ChunkPos, in_stream};
use crate::scheduler::{GpuChunkScheduler, MeshScheduler};

verus! {

/// Edge length of a chunk's biome grid in cells.
pub const BIOME_GRID_SIZE: usize = 4;

/// Number of cells of a chunk's biome grid.
pub const BIOME_GRID_VOLUME: usize = 64;

/// Chunk coordinate of a block coordinate (floor division by 16).
pub fn chunk_coord(x: i32) -> (r: i32)
    ensures
        r as int == (x as int) / 16,
{
    let xi = x as i64;
    if xi >= 0 {
        ((xi as u64) / 16) as i32
    } else {
        let m = ((-xi) as u64 + 15) / 16;
        assert(m as int == ((-(x as int)) + 15) / 16);
        assert(-(m as int) == (x as int) / 16) by (nonlinear_arith)
            requires
                x < 0,
                m as int == ((-(x as int)) + 15) / 16,
        ;
        -(m as i64) as i32
    }
}

/// Position of a block within its chunk along one axis (0..16).
pub fn local_coord(x: i32) -> (r: i32)
    ensures
        r as int == (x as int) % 16,
        0 <= r < 16,
{
    let c = chunk_coord(x);
    let r = (x as i64 - (c as i64) * 16) as i32;
    assert(r as int == (x as int) % 16) by (nonlinear_arith)
        requires
            c as int == (x as int) / 16,
            r as int == x as int - (c as int) * 16,
    ;
    r
}

/// The chunk holding a block.
pub fn chunk_of_block(block: (i32, i32, i32)) -> (r: ChunkPos)
    ensures
        r.x as int == (block.0 as int) / 16,
        r.y as int == (block.1 as int) / 16,
        r.z as int == (block.2 as int) / 16,
{
    ChunkPos { x: chunk_coord(block.0), y: chunk_coord(block.1), z: chunk_coord(block.2) }
}

/// Advances a frame counter; recovery runs on every 60th frame.
pub fn recover_tick(tick: u32) -> (r: (u32, bool))
    ensures
        r.0 == (if tick == u32::MAX { 0 } else { tick + 1 }),
        r.1 == (r.0 % 60 == 0),
{
    let t = tick.wrapping_add(1);
    (t, t % 60 == 0)
}

/// A loaded chunk that is generated, has its blocks and is not cached yet;
/// the caller's facts about each candidate.
pub open spec fn recoverable(c: (ChunkPos, bool), center: ChunkPos, h: i32, v: i32) -> bool {
    &&& in_stream(c.0, center.x as int, center.y as int, center.z as int, h as int, v as int)
    &&& c.1
}

impl<T, M> MeshScheduler<T, M> {
    /// The loaded chunks within the render distance of `center` that still
    /// need a mesh: `candidates` pairs each loaded chunk with whether it is
    /// generated, has its blocks and has no cached mesh; of those, the ones
    /// neither waiting nor being built, in order.
    pub fn chunks_to_recover(
        &self,
        candidates: &Vec<(ChunkPos, bool)>,
        center: ChunkPos,
        h: i32,
        v: i32,
    ) -> (r: Vec<ChunkPos>)
        requires
            self.wf(),
        ensures
            r@ == candidates@.filter(
                |c: (ChunkPos, bool)|
                    recoverable(c, center, h, v) && !self.queue().pending_view().dom().contains(c.0)
                        && !self.in_progress_view().contains(c.0),
            ).map_values(|c: (ChunkPos, bool)| c.0),
    {
        let ghost pred = |c: (ChunkPos, bool)|
            recoverable(c, center, h, v) && !self.queue().pending_view().dom().contains(c.0)
                && !self.in_progress_view().contains(c.0);
        let mut out: Vec<ChunkPos> = Vec::new();
        let mut i: usize = 0;
        while i < candidates.len()
            invariant
                i <= candidates@.len(),
                self.wf(),
                pred == (|c: (ChunkPos, bool)|
                    recoverable(c, center, h, v) && !self.queue().pending_view().dom().contains(c.0)
                        && !self.in_progress_view().contains(c.0)),
                out@ == candidates@.take(i as int).filter(pred).map_values(|c: (ChunkPos, bool)| c.0),
            decreases candidates@.len() - i,
        {
            let ghost before = out@;
            assert(candidates@.take(i as int + 1).drop_last() =~= candidates@.take(i as int));
            let (pos, ready) = candidates[i];
            if ready && crate::chunk_map::chunk_in_stream(pos, center.x, center.y, center.z, h, v)
                && self.is_idle(pos) {
                out.push(pos);
            }
            proof {
                reveal_with_fuel(Seq::<_>::filter, 1);
                assert(out@ =~= candidates@.take(i as int + 1).filter(pred).map_values(
                    |c: (ChunkPos, bool)| c.0,
                ));
            }
            i = i + 1;
        }
        assert(candidates@.take(candidates@.len() as int) =~= candidates@);
        out
    }
}

impl GpuChunkScheduler {
    /// The loaded chunks within the render distance of `center` that still
    /// need an upload: `candidates` pairs each loaded chunk with whether it
    /// is generated, has its blocks and is not in the GPU cache; of those,
    /// the ones not already waiting, in order.
    pub fn chunks_to_recover(
        &self,
        candidates: &Vec<(ChunkPos, bool)>,
        center: ChunkPos,
        h: i32,
        v: i32,
    ) -> (r: Vec<ChunkPos>)
        requires
            self.wf(),
        ensures
            r@ == candidates@.filter(
                |c: (ChunkPos, bool)|
                    recoverable(c, center, h, v) && !self.queue().pending_view().dom().contains(c.0),
            ).map_values(|c: (ChunkPos, bool)| c.0),
    {
        let ghost pred = |c: (ChunkPos, bool)|
            recoverable(c, center, h, v) && !self.queue().pending_view().dom().contains(c.0);
        let mut out: Vec<ChunkPos> = Vec::new();
        let mut i: usize = 0;
        while i < candidates.len()
            invariant
                i <= candidates@.len(),
                self.wf(),
                pred == (|c: (ChunkPos, bool)|
                    recoverable(c, center, h, v) && !self.queue().pending_view().dom().contains(c.0)),
                out@ == candidates@.take(i as int).filter(pred).map_values(|c: (ChunkPos, bool)| c.0),
            decreases candidates@.len() - i,
        {
            assert(candidates@.take(i as int + 1).drop_last() =~= candidates@.take(i as int));
            let (pos, ready) = candidates[i];
            if ready && crate::chunk_map::chunk_in_stream(pos, center.x, center.y, center.z, h, v)
                && !self.is_pending(pos) {
                out.push(pos);
            }
            proof {
                reveal_with_fuel(Seq::<_>::filter, 1);
                assert(out@ =~= candidates@.take(i as int + 1).filter(pred).map_values(
                    |c: (ChunkPos, bool)| c.0,
                ));
            }
            i = i + 1;
        }
        assert(candidates@.take(candidates@.len() as int) =~= candidates@);
        out
    }
}

/// Index of a biome grid cell: x fastest, then y, then z.
pub open spec fn biome_cell(lx: int, ly: int, lz: int) -> int {
    lx / 4 + (ly / 4) * 4 + (lz / 4) * 16
}

/// The biome grids of the loaded chunks.
pub struct BiomeGridCache {
    grids: ChunkMap<[u8; 64]>,
}

impl BiomeGridCache {
    pub closed spec fn grids_view(&self) -> Map<ChunkPos, [u8; 64]> {
        self.grids@
    }

    pub closed spec fn wf(&self) -> bool {
        self.grids.wf()
    }

    pub fn new() -> (r: Self)
        ensures
            r.wf(),
            r.grids_view() == Map::<ChunkPos, [u8; 64]>::empty(),
    {
        BiomeGridCache { grids: ChunkMap::new() }
    }

    pub fn insert(&mut self, pos: ChunkPos, grid: [u8; 64])
        requires
            old(self).wf(),
        ensures
            final(self).wf(),
            final(self).grids_view() == old(self).grids_view().insert(pos, grid),
    {
        self.grids.insert(pos, grid);
    }

    pub fn remove(&mut self, pos: ChunkPos)
        requires
            old(self).wf(),
        ensures
            final(self).wf(),
            final(self).grids_view() == old(self).grids_view().remove(pos),
    {
        let _ = self.grids.remove(pos);
    }

    pub fn biome_grid(&self, pos: ChunkPos) -> (r: Option<[u8; 64]>)
        requires
            self.wf(),
        ensures
            r == if self.grids_view().dom().contains(pos) {
                Some(self.grids_view()[pos])
            } else {
                None
            },
    {
        self.grids.get(pos)
    }

    /// The biome at a block: the cell of its chunk's grid that holds the
    /// block, or `None` when the chunk has no grid.
    pub fn biome_at(&self, block: (i32, i32, i32)) -> (r: Option<u16>)
        requires
            self.wf(),
        ensures
            ({
                let chunk = ChunkPos {
                    x: ((block.0 as int) / 16) as i32,
                    y: ((block.1 as int) / 16) as i32,
                    z: ((block.2 as int) / 16) as i32,
                };
                if self.grids_view().dom().contains(chunk) {
                    r == Some(
                        self.grids_view()[chunk]@[biome_cell(
                            (block.0 as int) % 16,
                            (block.1 as int) % 16,
                            (block.2 as int) % 16,
                        )] as u16,
                    )
                } else {
                    r is None
                }
            }),
    {
        let chunk = chunk_of_block(block);
        match self.grids.get(chunk) {
            None => None,
            Some(grid) => {
                let lx = local_coord(block.0);
                let ly = local_coord(block.1);
                let lz = local_coord(block.2);
                let gx = (lx / 4) as usize;
                let gy = (ly / 4) as usize;
                let gz = (lz / 4) as usize;
                let idx = gx + gy * 4 + gz * 16;
                Some(grid[idx] as u16)
            },
        }
    }
}

} // verus!
