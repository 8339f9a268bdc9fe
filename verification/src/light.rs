//! Per-chunk skylight/blocklight propagation and vertex sampling.
//!
//! A chunk is 16 blocks wide; the light grid adds a one-block halo on every
//! side, so local coordinates run from -1 to 16 on each axis.

use vstd::prelude::*;

verus! {

/// Edge length of a chunk in blocks.
pub const CHUNK_SIZE: i32 = 16;

/// Edge length of the light grid (chunk plus a one-block halo on each side).
pub const GRID_SIZE: i32 = 18;

/// Number of cells in the light grid.
pub const GRID_VOLUME: usize = 5832;

/// Highest light level.
pub const MAX_LIGHT: u8 = 15;

pub open spec fn min_int(a: int, b: int) -> int {
    if a <= b { a } else { b }
}

pub open spec fn max_int(a: int, b: int) -> int {
    if a >= b { a } else { b }
}

pub open spec fn sat_sub(a: int, b: int) -> int {
    if a >= b { a - b } else { 0 }
}

/// Whether local coordinates lie in the light grid (chunk plus halo).
pub open spec fn in_grid(x: int, y: int, z: int) -> bool {
    &&& -1 <= x <= 16
    &&& -1 <= y <= 16
    &&& -1 <= z <= 16
}

/// Flat index of a grid cell: x varies fastest, then y, then z.
pub open spec fn grid_index(x: int, y: int, z: int) -> int {
    (x + 1) + 18 * ((y + 1) + 18 * (z + 1))
}

/// Local x coordinate of a flat grid index.
pub open spec fn cell_x(i: int) -> int {
    i % 18 - 1
}

/// Local y coordinate of a flat grid index.
pub open spec fn cell_y(i: int) -> int {
    (i / 18) % 18 - 1
}

/// Local z coordinate of a flat grid index.
pub open spec fn cell_z(i: int) -> int {
    i / 324 - 1
}

/// Grid indices and local coordinates correspond one to one.
pub proof fn lemma_grid_index(x: int, y: int, z: int)
    requires
        in_grid(x, y, z),
    ensures
        0 <= grid_index(x, y, z) < 5832,
        cell_x(grid_index(x, y, z)) == x,
        cell_y(grid_index(x, y, z)) == y,
        cell_z(grid_index(x, y, z)) == z,
{
    let i = grid_index(x, y, z);
    let q = (y + 1) + 18 * (z + 1);
    assert(i == q * 18 + (x + 1)) by (nonlinear_arith)
        requires
            i == (x + 1) + 18 * q,
    ;
    vstd::arithmetic::div_mod::lemma_fundamental_div_mod_converse(i, 18, q, x + 1);
    vstd::arithmetic::div_mod::lemma_fundamental_div_mod_converse(q, 18, z + 1, y + 1);
    assert(i == (z + 1) * 324 + ((y + 1) * 18 + (x + 1))) by (nonlinear_arith)
        requires
            i == (x + 1) + 18 * ((y + 1) + 18 * (z + 1)),
    ;
    assert(0 <= (y + 1) * 18 + (x + 1) < 324) by (nonlinear_arith)
        requires
            0 <= x + 1 < 18,
            0 <= y + 1 < 18,
    ;
    vstd::arithmetic::div_mod::lemma_fundamental_div_mod_converse(
        i,
        324,
        z + 1,
        (y + 1) * 18 + (x + 1),
    );
    assert(0 <= i < 5832) by (nonlinear_arith)
        requires
            i == (z + 1) * 324 + ((y + 1) * 18 + (x + 1)),
            0 <= (y + 1) * 18 + (x + 1) < 324,
            0 <= z + 1 < 18,
    ;
}

/// Every flat index below the grid volume names an in-grid cell.
pub proof fn lemma_cell_of_index(i: int)
    requires
        0 <= i < 5832,
    ensures
        in_grid(cell_x(i), cell_y(i), cell_z(i)),
        grid_index(cell_x(i), cell_y(i), cell_z(i)) == i,
{
    let x1 = i % 18;
    let q = i / 18;
    vstd::arithmetic::div_mod::lemma_fundamental_div_mod(i, 18);
    vstd::arithmetic::div_mod::lemma_fundamental_div_mod(q, 18);
    vstd::arithmetic::div_mod::lemma_div_denominator(i, 18, 18);
    assert(q < 324);
    assert(q / 18 < 18);
    assert(i == x1 + 18 * ((q % 18) + 18 * (q / 18))) by (nonlinear_arith)
        requires
            i == 18 * q + x1,
            q == 18 * (q / 18) + q % 18,
    ;
}

/// Packs sky light into the high nibble and block light into the low nibble,
/// each clamped to 15.
pub fn pack_light(sky: u8, block: u8) -> (r: u8)
    ensures
        r == min_int(sky as int, 15) * 16 + min_int(block as int, 15),
        r / 16 == min_int(sky as int, 15),
        r % 16 == min_int(block as int, 15),
{
    let s: u8 = if sky < 15 { sky } else { 15 };
    let b: u8 = if block < 15 { block } else { 15 };
    let r: u8 = ((s & 0xF) << 4) | (b & 0xF);
    assert(r == s * 16 + b) by (bit_vector)
        requires
            s <= 15,
            b <= 15,
            r == ((s & 0xF) << 4) | (b & 0xF),
    ;
    r
}

/// Ambient-occlusion level of a vertex, clamped to 3.
pub fn vertex_ao(ao: u8) -> (r: u8)
    ensures
        r == min_int(ao as int, 3),
{
    if ao < 3 { ao } else { 3 }
}


/// Sky and block light levels for every cell of a chunk's light grid,
/// indexed by [`ChunkLightGrid::idx`].
#[derive(Debug, Clone)]
pub struct ChunkLightGrid {
    pub sky: Vec<u8>,
    pub block: Vec<u8>,
}

impl ChunkLightGrid {
    /// Both layers cover the whole grid.
    pub open spec fn wf(&self) -> bool {
        &&& self.sky@.len() == GRID_VOLUME
        &&& self.block@.len() == GRID_VOLUME
    }

    /// Flat index of local coordinates in the grid.
    pub fn idx(lx: i32, ly: i32, lz: i32) -> (r: usize)
        requires
            in_grid(lx as int, ly as int, lz as int),
        ensures
            r as int == grid_index(lx as int, ly as int, lz as int),
            r < GRID_VOLUME,
    {
        proof {
            lemma_grid_index(lx as int, ly as int, lz as int);
        }
        let x = (lx + 1) as usize;
        let y = (ly + 1) as usize;
        let z = (lz + 1) as usize;
        assert(x + 18 * (y + 18 * z) < 5832) by (nonlinear_arith)
            requires
                x < 18,
                y < 18,
                z < 18,
        ;
        x + (GRID_SIZE as usize) * (y + (GRID_SIZE as usize) * z)
    }

    /// Sky and block light at an in-grid cell.
    pub fn sky_block(&self, lx: i32, ly: i32, lz: i32) -> (r: (u8, u8))
        requires
            self.wf(),
            in_grid(lx as int, ly as int, lz as int),
        ensures
            r.0 == self.sky@[grid_index(lx as int, ly as int, lz as int)],
            r.1 == self.block@[grid_index(lx as int, ly as int, lz as int)],
    {
        let i = Self::idx(lx, ly, lz);
        (self.sky[i], self.block[i])
    }

    /// Sky and block light of the block at local coordinates.
    pub fn sample_at_block(&self, lx: i32, ly: i32, lz: i32) -> (r: (u8, u8))
        requires
            self.wf(),
            in_grid(lx as int, ly as int, lz as int),
        ensures
            r.0 == self.sky@[grid_index(lx as int, ly as int, lz as int)],
            r.1 == self.block@[grid_index(lx as int, ly as int, lz as int)],
    {
        self.sky_block(lx, ly, lz)
    }

    /// Sample the grid at a world block position (for example an entity's
    /// feet) relative to the chunk's base block. Positions outside the grid
    /// read as full sky light and no block light.
    pub fn sample_world(&self, chunk_base: (i32, i32, i32), world_pos: (i32, i32, i32)) -> (r: (
        u8,
        u8,
    ))
        requires
            self.wf(),
            i32::MIN <= world_pos.0 - chunk_base.0 <= i32::MAX,
            i32::MIN <= world_pos.1 - chunk_base.1 <= i32::MAX,
            i32::MIN <= world_pos.2 - chunk_base.2 <= i32::MAX,
        ensures
            ({
                let lx = world_pos.0 - chunk_base.0;
                let ly = world_pos.1 - chunk_base.1;
                let lz = world_pos.2 - chunk_base.2;
                if in_grid(lx, ly, lz) {
                    r == (self.sky@[grid_index(lx, ly, lz)], self.block@[grid_index(lx, ly, lz)])
                } else {
                    r == (15u8, 0u8)
                }
            }),
    {
        let lx = world_pos.0 - chunk_base.0;
        let ly = world_pos.1 - chunk_base.1;
        let lz = world_pos.2 - chunk_base.2;
        if lx < -1 || lx > CHUNK_SIZE || ly < -1 || ly > CHUNK_SIZE || lz < -1 || lz > CHUNK_SIZE {
            return (15, 0);
        }
        self.sky_block(lx, ly, lz)
    }
}

impl Default for ChunkLightGrid {
    fn default() -> (r: Self)
        ensures
            r.wf(),
            forall|i: int| 0 <= i < GRID_VOLUME ==> r.sky@[i] == 0 && r.block@[i] == 0,
    {
        let mut sky: Vec<u8> = Vec::new();
        let mut block: Vec<u8> = Vec::new();
        let mut n: usize = 0;
        while n < GRID_VOLUME
            invariant
                n <= GRID_VOLUME,
                sky@.len() == n,
                block@.len() == n,
                forall|i: int| 0 <= i < n ==> sky@[i] == 0 && block@[i] == 0,
            decreases GRID_VOLUME - n,
        {
            sky.push(0);
            block.push(0);
            n = n + 1;
        }
        ChunkLightGrid { sky, block }
    }
}

/// What light propagation reads of one grid cell that holds a registered,
/// non-air block.
#[derive(Debug, Clone, Copy, PartialEq, Eq)]
pub struct LightCell {
    /// The block stops skylight.
    pub blocks_skylight: bool,
    /// The block's effective light attenuation.
    pub attenuation: u8,
    /// The block's own light emission.
    pub emission: u8,
    /// The block is a fluid.
    pub fluid: bool,
}

pub open spec fn blocks_spec(c: Option<LightCell>) -> bool {
    c matches Some(d) && d.blocks_skylight
}

pub open spec fn attenuation_spec(c: Option<LightCell>) -> int {
    match c {
        Some(d) => d.attenuation as int,
        None => 0,
    }
}

pub open spec fn emission_spec(c: Option<LightCell>) -> int {
    match c {
        Some(d) => min_int(d.emission as int, 15),
        None => 0,
    }
}

/// Amount an opaque cell takes from skylight passing into it.
pub open spec fn opaque_cost(c: Option<LightCell>) -> int {
    max_int(min_int(attenuation_spec(c), 15), 1)
}

/// Block light that reaches a neighbor cell from a cell at `level`.
pub open spec fn spread_step(level: int, c: Option<LightCell>) -> int {
    sat_sub(level, 1 + min_int(attenuation_spec(c), 1))
}

/// The cells of a chunk's light grid: `None` where there is no block, air,
/// or a block the registry does not know; the cell's light properties
/// otherwise. Indexed like [`ChunkLightGrid::idx`].
pub struct LightBuildContext {
    pub cells: Vec<Option<LightCell>>,
}

impl LightBuildContext {
    pub open spec fn wf(&self) -> bool {
        self.cells@.len() == GRID_VOLUME
    }

    /// The cell at local coordinates; cells outside the grid are empty.
    pub open spec fn cell(&self, x: int, y: int, z: int) -> Option<LightCell> {
        if in_grid(x, y, z) {
            self.cells@[grid_index(x, y, z)]
        } else {
            None
        }
    }

    /// Skylight entering cell `y` of column `(x, z)` from above.
    pub open spec fn sky_in(&self, x: int, z: int, y: int) -> int
        decreases 16 - y,
    {
        if y >= 16 {
            15
        } else {
            let l = self.sky_in(x, z, y + 1);
            let c = self.cell(x, y + 1, z);
            if blocks_spec(c) {
                sat_sub(l, opaque_cost(c))
            } else {
                sat_sub(l, attenuation_spec(c))
            }
        }
    }

    /// Skylight stored for cell `y` of column `(x, z)`.
    pub open spec fn sky_at(&self, x: int, z: int, y: int) -> int {
        let c = self.cell(x, y, z);
        if blocks_spec(c) {
            sat_sub(self.sky_in(x, z, y), opaque_cost(c))
        } else {
            self.sky_in(x, z, y)
        }
    }

    /// Skylight stored at a flat grid index.
    pub open spec fn sky_at_index(&self, i: int) -> int {
        self.sky_at(cell_x(i), cell_z(i), cell_y(i))
    }

    proof fn lemma_dark_below(&self, x: int, z: int, y: int, y2: int)
        requires
            y2 <= y <= 16,
            self.sky_in(x, z, y) == 0,
        ensures
            self.sky_in(x, z, y2) == 0,
            self.sky_at(x, z, y2) == 0,
        decreases y - y2,
    {
        if y2 < y {
            self.lemma_dark_below(x, z, y, y2 + 1);
        }
    }

    /// The light properties of the block at local coordinates, if any.
    pub fn def_at(&self, lx: i32, ly: i32, lz: i32) -> (r: Option<LightCell>)
        requires
            self.wf(),
        ensures
            r == self.cell(lx as int, ly as int, lz as int),
    {
        if lx < -1 || lx > CHUNK_SIZE || ly < -1 || ly > CHUNK_SIZE || lz < -1 || lz > CHUNK_SIZE {
            return None;
        }
        let i = ChunkLightGrid::idx(lx, ly, lz);
        self.cells[i]
    }

    /// Whether the block at local coordinates stops skylight.
    pub fn blocks_light(&self, lx: i32, ly: i32, lz: i32) -> (r: bool)
        requires
            self.wf(),
        ensures
            r == blocks_spec(self.cell(lx as int, ly as int, lz as int)),
    {
        match self.def_at(lx, ly, lz) {
            Some(def) => def.blocks_skylight,
            None => false,
        }
    }

    /// Light emitted by the block at local coordinates, clamped to 15.
    pub fn emission_at(&self, lx: i32, ly: i32, lz: i32) -> (r: u8)
        requires
            self.wf(),
        ensures
            r as int == emission_spec(self.cell(lx as int, ly as int, lz as int)),
    {
        match self.def_at(lx, ly, lz) {
            Some(def) => if def.emission < 15 { def.emission } else { 15 },
            None => 0,
        }
    }

    /// Light attenuation of the block at local coordinates.
    pub fn attenuation_at(&self, lx: i32, ly: i32, lz: i32) -> (r: u8)
        requires
            self.wf(),
        ensures
            r as int == attenuation_spec(self.cell(lx as int, ly as int, lz as int)),
    {
        match self.def_at(lx, ly, lz) {
            Some(def) => def.attenuation,
            None => 0,
        }
    }

    /// Fills the sky layer column by column, top to bottom.
    pub fn propagate_skylight(&self, grid: &mut ChunkLightGrid)
        requires
            self.wf(),
            old(grid).wf(),
        ensures
            final(grid).wf(),
            final(grid).block@ == old(grid).block@,
            forall|i: int|
                0 <= i < GRID_VOLUME ==> #[trigger] final(grid).sky@[i] == self.sky_at_index(i),
    {
        let ghost block0 = grid.block@;
        let mut lx: i32 = -1;
        while lx <= CHUNK_SIZE
            invariant
                -1 <= lx <= 17,
                self.wf(),
                grid.wf(),
                grid.block@ == block0,
                forall|i: int|
                    0 <= i < GRID_VOLUME && cell_x(i) < lx ==> #[trigger] grid.sky@[i]
                        == self.sky_at_index(i),
            decreases 17 - lx,
        {
            let mut lz: i32 = -1;
            while lz <= CHUNK_SIZE
                invariant
                    -1 <= lx <= 16,
                    -1 <= lz <= 17,
                    self.wf(),
                    grid.wf(),
                    grid.block@ == block0,
                    forall|i: int|
                        0 <= i < GRID_VOLUME && (cell_x(i) < lx || (cell_x(i) == lx && cell_z(i)
                            < lz)) ==> #[trigger] grid.sky@[i] == self.sky_at_index(i),
                decreases 17 - lz,
            {
                self.fill_sky_column(grid, lx, lz);
                lz = lz + 1;
            }
            lx = lx + 1;
        }
        assert forall|i: int| 0 <= i < GRID_VOLUME implies #[trigger] grid.sky@[i]
            == self.sky_at_index(i) by {
            lemma_cell_of_index(i);
        }
    }

    /// Fills one column `(lx, lz)` of the sky layer.
    fn fill_sky_column(&self, grid: &mut ChunkLightGrid, lx: i32, lz: i32)
        requires
            self.wf(),
            old(grid).wf(),
            -1 <= lx <= 16,
            -1 <= lz <= 16,
        ensures
            final(grid).wf(),
            final(grid).block@ == old(grid).block@,
            forall|i: int|
                0 <= i < GRID_VOLUME ==> #[trigger] final(grid).sky@[i] == if cell_x(i) == lx
                    && cell_z(i) == lz {
                    self.sky_at_index(i)
                } else {
                    old(grid).sky@[i] as int
                },
    {
        let ghost sky0 = grid.sky@;
        let mut light: u8 = MAX_LIGHT;
        let mut ly: i32 = CHUNK_SIZE;
        while ly >= -1
            invariant_except_break
                -2 <= ly <= 16,
                light as int == self.sky_in(lx as int, lz as int, ly as int),
                forall|i: int|
                    0 <= i < GRID_VOLUME ==> #[trigger] grid.sky@[i] == if cell_x(i) == lx
                        && cell_z(i) == lz && cell_y(i) > ly {
                        self.sky_at_index(i)
                    } else {
                        sky0[i] as int
                    },
            invariant
                self.wf(),
                grid.wf(),
                grid.block@ == old(grid).block@,
                -1 <= lx <= 16,
                -1 <= lz <= 16,
            ensures
                forall|i: int|
                    0 <= i < GRID_VOLUME ==> #[trigger] grid.sky@[i] == if cell_x(i) == lx
                        && cell_z(i) == lz {
                        self.sky_at_index(i)
                    } else {
                        sky0[i] as int
                    },
            decreases ly + 2,
        {
            let i = ChunkLightGrid::idx(lx, ly, lz);
            proof {
                lemma_grid_index(lx as int, ly as int, lz as int);
            }
            if self.blocks_light(lx, ly, lz) {
                let min: u8 = match self.def_at(lx, ly, lz) {
                    Some(d) => if d.attenuation < 15 { d.attenuation } else { 15 },
                    None => 15,
                };
                let cost: u8 = if min > 1 { min } else { 1 };
                light = if light >= cost { light - cost } else { 0 };
                grid.sky.set(i, light);
                if light == 0 {
                    assert(self.sky_in(lx as int, lz as int, ly as int - 1) == 0);
                    let mut y2: i32 = ly - 1;
                    while y2 >= -1
                        invariant
                            -2 <= y2 < ly <= 16,
                            self.wf(),
                            grid.wf(),
                            grid.block@ == old(grid).block@,
                            -1 <= lx <= 16,
                            -1 <= lz <= 16,
                            self.sky_in(lx as int, lz as int, ly as int - 1) == 0,
                            forall|i: int|
                                0 <= i < GRID_VOLUME ==> #[trigger] grid.sky@[i] == if cell_x(i)
                                    == lx && cell_z(i) == lz && cell_y(i) > y2 {
                                    self.sky_at_index(i)
                                } else {
                                    sky0[i] as int
                                },
                        decreases y2 + 2,
                    {
                        let j = ChunkLightGrid::idx(lx, y2, lz);
                        proof {
                            lemma_grid_index(lx as int, y2 as int, lz as int);
                            self.lemma_dark_below(lx as int, lz as int, ly as int - 1, y2 as int);
                        }
                        grid.sky.set(j, 0);
                        y2 = y2 - 1;
                    }
                    proof {
                        assert forall|k: int| 0 <= k < GRID_VOLUME implies #[trigger] grid.sky@[k]
                            == if cell_x(k) == lx && cell_z(k) == lz {
                            self.sky_at_index(k)
                        } else {
                            sky0[k] as int
                        } by {
                            lemma_cell_of_index(k);
                        }
                    }
                    break;
                }
            } else {
                grid.sky.set(i, light);
                let att = self.attenuation_at(lx, ly, lz);
                if att > 0 {
                    light = if light >= att { light - att } else { 0 };
                }
            }
            ly = ly - 1;
        }
        proof {
            assert forall|k: int| 0 <= k < GRID_VOLUME implies #[trigger] grid.sky@[k] == if cell_x(
                k,
            ) == lx && cell_z(k) == lz {
                self.sky_at_index(k)
            } else {
                sky0[k] as int
            } by {
                lemma_cell_of_index(k);
            }
        }
    }
}


/// Offset of the `d`-th face neighbor, in the order +x, -x, +y, -y, +z, -z.
pub open spec fn offset_spec(d: int) -> (int, int, int) {
    if d == 0 {
        (1, 0, 0)
    } else if d == 1 {
        (-1, 0, 0)
    } else if d == 2 {
        (0, 1, 0)
    } else if d == 3 {
        (0, -1, 0)
    } else if d == 4 {
        (0, 0, 1)
    } else {
        (0, 0, -1)
    }
}

/// Offset of the `d`-th face neighbor.
pub fn neighbor_offset(d: usize) -> (r: (i32, i32, i32))
    requires
        d < 6,
    ensures
        (r.0 as int, r.1 as int, r.2 as int) == offset_spec(d as int),
{
    if d == 0 {
        (1, 0, 0)
    } else if d == 1 {
        (-1, 0, 0)
    } else if d == 2 {
        (0, 1, 0)
    } else if d == 3 {
        (0, -1, 0)
    } else if d == 4 {
        (0, 0, 1)
    } else {
        (0, 0, -1)
    }
}

/// Sum over cells of how far each is below full brightness.
pub open spec fn light_deficit(s: Seq<u8>) -> int
    decreases s.len(),
{
    if s.len() == 0 {
        0
    } else {
        light_deficit(s.drop_last()) + (15 - s.last())
    }
}

proof fn lemma_deficit_update(s: Seq<u8>, k: int, v: u8)
    requires
        0 <= k < s.len(),
    ensures
        light_deficit(s.update(k, v)) == light_deficit(s) - v + s[k],
    decreases s.len(),
{
    let t = s.update(k, v);
    if k == s.len() - 1 {
        assert(t.drop_last() =~= s.drop_last());
    } else {
        assert(t.drop_last() =~= s.drop_last().update(k, v));
        lemma_deficit_update(s.drop_last(), k, v);
    }
}

proof fn lemma_deficit_nonneg(s: Seq<u8>)
    requires
        forall|i: int| 0 <= i < s.len() ==> s[i] <= 15,
    ensures
        light_deficit(s) >= 0,
    decreases s.len(),
{
    if s.len() > 0 {
        lemma_deficit_nonneg(s.drop_last());
    }
}

/// Pointwise `a <= g` over the whole grid.
pub open spec fn dominated(a: Seq<u8>, g: Seq<u8>) -> bool {
    forall|i: int| 0 <= i < GRID_VOLUME ==> #[trigger] a[i] <= g[i]
}

/// Whether a queue entry holds cell `i` at `level`.
pub open spec fn entry_is(e: (i32, i32, i32, u8), i: int, level: int) -> bool {
    &&& in_grid(e.0 as int, e.1 as int, e.2 as int)
    &&& grid_index(e.0 as int, e.1 as int, e.2 as int) == i
    &&& e.3 as int == level
}

/// Cell `i` still has an unprocessed queue entry at its current level.
pub open spec fn pending(q: Seq<(i32, i32, i32, u8)>, head: int, b: Seq<u8>, i: int) -> bool {
    exists|j: int| head <= j < q.len() && #[trigger] entry_is(q[j], i, b[i] as int)
}

impl LightBuildContext {
    /// Block light in `g` reaches the `d`-th neighbor of cell `i` as far as
    /// one spreading step demands.
    pub open spec fn edge_ok(&self, g: Seq<u8>, i: int, d: int) -> bool {
        let o = offset_spec(d);
        let nx = cell_x(i) + o.0;
        let ny = cell_y(i) + o.1;
        let nz = cell_z(i) + o.2;
        in_grid(nx, ny, nz) ==> g[grid_index(nx, ny, nz)] >= spread_step(
            g[i] as int,
            self.cells@[grid_index(nx, ny, nz)],
        )
    }

    /// `g` is a block-light layer in which every emitter is at least as
    /// bright as its emission and light spreads to every face neighbor,
    /// losing one level per step plus one more into attenuating cells.
    pub open spec fn block_light_closed(&self, g: Seq<u8>) -> bool {
        &&& g.len() == GRID_VOLUME
        &&& forall|i: int| 0 <= i < GRID_VOLUME ==> #[trigger] g[i] >= emission_spec(self.cells@[i])
        &&& forall|i: int, d: int| 0 <= i < GRID_VOLUME && 0 <= d < 6 ==> #[trigger] self.edge_ok(g, i, d)
    }

    /// `g` is the darkest layer closed under emission and spreading: it is
    /// closed, and no other closed layer is darker anywhere.
    pub open spec fn is_block_light_of(&self, g: Seq<u8>) -> bool {
        &&& self.block_light_closed(g)
        &&& forall|h: Seq<u8>| #[trigger] self.block_light_closed(h) ==> dominated(g, h)
    }
}


/// Cell `i` comes before `(lx, ly, lz)` in x-major, then y, then z order.
pub open spec fn seeded_before(i: int, lx: int, ly: int, lz: int) -> bool {
    ||| cell_x(i) < lx
    ||| cell_x(i) == lx && cell_y(i) < ly
    ||| cell_x(i) == lx && cell_y(i) == ly && cell_z(i) < lz
}

/// Every queue entry names an in-grid cell whose level is at least the
/// entry's level.
pub open spec fn entries_valid(q: Seq<(i32, i32, i32, u8)>, b: Seq<u8>) -> bool {
    forall|j: int|
        0 <= j < q.len() ==> {
            &&& in_grid(#[trigger] q[j].0 as int, q[j].1 as int, q[j].2 as int)
            &&& q[j].3 <= b[grid_index(q[j].0 as int, q[j].1 as int, q[j].2 as int)]
        }
}

impl LightBuildContext {
    /// Seeds the block layer with every emitter and queues each emitter for
    /// spreading.
    fn seed_block_light(&self, grid: &mut ChunkLightGrid) -> (q: Vec<(i32, i32, i32, u8)>)
        requires
            self.wf(),
            old(grid).wf(),
            forall|i: int| 0 <= i < GRID_VOLUME ==> old(grid).block@[i] == 0,
        ensures
            final(grid).wf(),
            final(grid).sky@ == old(grid).sky@,
            forall|i: int|
                0 <= i < GRID_VOLUME ==> #[trigger] final(grid).block@[i] == emission_spec(
                    self.cells@[i],
                ),
            entries_valid(q@, final(grid).block@),
            forall|i: int|
                0 <= i < GRID_VOLUME && final(grid).block@[i] > 0 ==> pending(
                    q@,
                    0,
                    final(grid).block@,
                    i,
                ),
    {
        let ghost sky0 = grid.sky@;
        let mut q: Vec<(i32, i32, i32, u8)> = Vec::new();
        let mut lx: i32 = -1;
        while lx <= CHUNK_SIZE
            invariant
                -1 <= lx <= 17,
                self.wf(),
                grid.wf(),
                grid.sky@ == sky0,
                forall|i: int|
                    0 <= i < GRID_VOLUME ==> #[trigger] grid.block@[i] == if seeded_before(
                        i,
                        lx as int,
                        -1,
                        -1,
                    ) {
                        emission_spec(self.cells@[i])
                    } else {
                        0
                    },
                entries_valid(q@, grid.block@),
                forall|j: int| 0 <= j < q@.len() ==> #[trigger] q@[j].3 > 0,
                forall|j: int|
                    0 <= j < q@.len() ==> #[trigger] q@[j].3 == grid.block@[grid_index(
                        q@[j].0 as int,
                        q@[j].1 as int,
                        q@[j].2 as int,
                    )],
                forall|i: int|
                    0 <= i < GRID_VOLUME && grid.block@[i] > 0 ==> pending(q@, 0, grid.block@, i),
            decreases 17 - lx,
        {
            let mut ly: i32 = -1;
            while ly <= CHUNK_SIZE
                invariant
                    -1 <= lx <= 16,
                    -1 <= ly <= 17,
                    self.wf(),
                    grid.wf(),
                    grid.sky@ == sky0,
                    forall|i: int|
                        0 <= i < GRID_VOLUME ==> #[trigger] grid.block@[i] == if seeded_before(
                            i,
                            lx as int,
                            ly as int,
                            -1,
                        ) {
                            emission_spec(self.cells@[i])
                        } else {
                            0
                        },
                    entries_valid(q@, grid.block@),
                    forall|j: int| 0 <= j < q@.len() ==> #[trigger] q@[j].3 > 0,
                    forall|j: int|
                        0 <= j < q@.len() ==> #[trigger] q@[j].3 == grid.block@[grid_index(
                            q@[j].0 as int,
                            q@[j].1 as int,
                            q@[j].2 as int,
                        )],
                    forall|i: int|
                        0 <= i < GRID_VOLUME && grid.block@[i] > 0 ==> pending(
                            q@,
                            0,
                            grid.block@,
                            i,
                        ),
                decreases 17 - ly,
            {
                let mut lz: i32 = -1;
                while lz <= CHUNK_SIZE
                    invariant
                        -1 <= lx <= 16,
                        -1 <= ly <= 16,
                        -1 <= lz <= 17,
                        self.wf(),
                        grid.wf(),
                        grid.sky@ == sky0,
                        forall|i: int|
                            0 <= i < GRID_VOLUME ==> #[trigger] grid.block@[i] == if seeded_before(
                                i,
                                lx as int,
                                ly as int,
                                lz as int,
                            ) {
                                emission_spec(self.cells@[i])
                            } else {
                                0
                            },
                        entries_valid(q@, grid.block@),
                        forall|j: int| 0 <= j < q@.len() ==> #[trigger] q@[j].3 > 0,
                        forall|j: int|
                            0 <= j < q@.len() ==> #[trigger] q@[j].3 == grid.block@[grid_index(
                                q@[j].0 as int,
                                q@[j].1 as int,
                                q@[j].2 as int,
                            )],
                        forall|i: int|
                            0 <= i < GRID_VOLUME && grid.block@[i] > 0 ==> pending(
                                q@,
                                0,
                                grid.block@,
                                i,
                            ),
                    decreases 17 - lz,
                {
                    let emit = self.emission_at(lx, ly, lz);
                    let ghost b0 = grid.block@;
                    let ghost q0 = q@;
                    let ghost ci = grid_index(lx as int, ly as int, lz as int);
                    proof {
                        lemma_grid_index(lx as int, ly as int, lz as int);
                    }
                    if emit > 0 {
                        let i = ChunkLightGrid::idx(lx, ly, lz);
                        grid.block.set(i, emit);
                        q.push((lx, ly, lz, emit));
                        proof {
                            assert(b0[ci] == 0);
                            assert forall|j: int| 0 <= j < q0.len() implies grid_index(
                                #[trigger] q0[j].0 as int,
                                q0[j].1 as int,
                                q0[j].2 as int,
                            ) != ci by {
                                assert(q0[j].3 > 0);
                            }
                            assert(entry_is(q@[q0.len() as int], ci, grid.block@[ci] as int));
                            assert forall|k: int|
                                0 <= k < GRID_VOLUME && grid.block@[k] > 0 implies pending(
                                q@,
                                0,
                                grid.block@,
                                k,
                            ) by {
                                if k != ci {
                                    assert(pending(q0, 0, b0, k));
                                    let j = choose|j: int|
                                        0 <= j < q0.len() && #[trigger] entry_is(
                                            q0[j],
                                            k,
                                            b0[k] as int,
                                        );
                                    assert(entry_is(q@[j], k, grid.block@[k] as int));
                                }
                            }
                        }
                    }
                    proof {
                        assert forall|k: int| 0 <= k < GRID_VOLUME implies #[trigger] grid.block@[k]
                            == if seeded_before(k, lx as int, ly as int, lz as int + 1) {
                            emission_spec(self.cells@[k])
                        } else {
                            0
                        } by {
                            lemma_cell_of_index(k);
                            if k == ci {
                            } else {
                                assert(cell_x(k) != lx || cell_y(k) != ly || cell_z(k) != lz);
                            }
                        }
                    }
                    lz = lz + 1;
                }
                proof {
                    assert forall|k: int| 0 <= k < GRID_VOLUME implies #[trigger] grid.block@[k]
                        == if seeded_before(k, lx as int, ly as int + 1, -1) {
                        emission_spec(self.cells@[k])
                    } else {
                        0
                    } by {
                        lemma_cell_of_index(k);
                    }
                }
                ly = ly + 1;
            }
            proof {
                assert forall|k: int| 0 <= k < GRID_VOLUME implies #[trigger] grid.block@[k]
                    == if seeded_before(k, lx as int + 1, -1, -1) {
                    emission_spec(self.cells@[k])
                } else {
                    0
                } by {
                    lemma_cell_of_index(k);
                }
            }
            lx = lx + 1;
        }
        proof {
            assert forall|k: int| 0 <= k < GRID_VOLUME implies #[trigger] grid.block@[k]
                == emission_spec(self.cells@[k]) by {
                lemma_cell_of_index(k);
            }
        }
        q
    }
}


impl LightBuildContext {
    /// Spreads queued block light to face neighbors until nothing changes.
    #[verifier::rlimit(100)]
    fn spread_block_light(&self, grid: &mut ChunkLightGrid, q: Vec<(i32, i32, i32, u8)>)
        requires
            self.wf(),
            old(grid).wf(),
            forall|i: int|
                0 <= i < GRID_VOLUME ==> #[trigger] old(grid).block@[i] == emission_spec(
                    self.cells@[i],
                ),
            entries_valid(q@, old(grid).block@),
            forall|i: int|
                0 <= i < GRID_VOLUME && old(grid).block@[i] > 0 ==> pending(
                    q@,
                    0,
                    old(grid).block@,
                    i,
                ),
        ensures
            final(grid).wf(),
            final(grid).sky@ == old(grid).sky@,
            self.is_block_light_of(final(grid).block@),
    {
        let ghost sky0 = grid.sky@;
        let mut q = q;
        let mut head: usize = 0;
        proof {
            assert forall|i: int, d: int| 0 <= i < GRID_VOLUME && 0 <= d < 6 implies #[trigger] self.edge_ok(
                grid.block@,
                i,
                d,
            ) || pending(q@, head as int, grid.block@, i) by {
                if grid.block@[i] == 0 {
                    assert(self.edge_ok(grid.block@, i, d));
                }
            }
            assert forall|h: Seq<u8>| #[trigger] self.block_light_closed(h) implies dominated(
                grid.block@,
                h,
            ) by {
                assert forall|i: int| 0 <= i < GRID_VOLUME implies #[trigger] grid.block@[i]
                    <= h[i] by {
                    assert(h[i] >= emission_spec(self.cells@[i]));
                }
            }
            lemma_deficit_nonneg(grid.block@);
        }
        while head < q.len()
            invariant
                self.wf(),
                grid.wf(),
                grid.sky@ == sky0,
                head <= q@.len(),
                entries_valid(q@, grid.block@),
                forall|i: int| 0 <= i < GRID_VOLUME ==> #[trigger] grid.block@[i] <= 15,
                forall|i: int|
                    0 <= i < GRID_VOLUME ==> #[trigger] grid.block@[i] >= emission_spec(
                        self.cells@[i],
                    ),
                forall|i: int, d: int|
                    0 <= i < GRID_VOLUME && 0 <= d < 6 ==> #[trigger] self.edge_ok(
                        grid.block@,
                        i,
                        d,
                    ) || pending(q@, head as int, grid.block@, i),
                forall|h: Seq<u8>| #[trigger]
                    self.block_light_closed(h) ==> dominated(grid.block@, h),
            decreases q@.len() - head + 7 * light_deficit(grid.block@),
        {
            proof {
                lemma_deficit_nonneg(grid.block@);
            }
            let (lx, ly, lz, level) = q[head];
            let ghost old_head = head as int;
            head = head + 1;
            let ghost ci = grid_index(lx as int, ly as int, lz as int);
            proof {
                lemma_grid_index(lx as int, ly as int, lz as int);
                assert(in_grid(q@[old_head].0 as int, q@[old_head].1 as int, q@[old_head].2 as int));
            }
            let ghost bci = grid.block@[ci];
            proof {
                // A cell that lost its only pending entry is the popped one, at its
                // current level.
                assert forall|i: int|
                    0 <= i < GRID_VOLUME && pending(q@, old_head, grid.block@, i) && !pending(
                        q@,
                        head as int,
                        grid.block@,
                        i,
                    ) implies i == ci && level == grid.block@[i] by {
                    let j = choose|j: int|
                        old_head <= j < q@.len() && #[trigger] entry_is(
                            q@[j],
                            i,
                            grid.block@[i] as int,
                        );
                    if j != old_head {
                        assert(entry_is(q@[j], i, grid.block@[i] as int));
                    }
                }
            }
            if level <= 1 {
                proof {
                    assert forall|i: int, d: int| 0 <= i < GRID_VOLUME && 0 <= d < 6 implies #[trigger] self.edge_ok(
                        grid.block@,
                        i,
                        d,
                    ) || pending(q@, head as int, grid.block@, i) by {
                        if !pending(q@, head as int, grid.block@, i) && !self.edge_ok(
                            grid.block@,
                            i,
                            d,
                        ) {
                            assert(pending(q@, old_head, grid.block@, i));
                            assert(i == ci && level == grid.block@[i]);
                        }
                    }
                }
                continue;
            }
            let ghost len0 = q@.len();
            let ghost def0 = light_deficit(grid.block@);
            let ghost popped_current = !pending(q@, head as int, grid.block@, ci);
            proof {
                if popped_current && level != bci {
                    assert forall|e: int| 0 <= e < 6 implies #[trigger] self.edge_ok(
                        grid.block@,
                        ci,
                        e,
                    ) by {
                        if !self.edge_ok(grid.block@, ci, e) {
                            assert(pending(q@, old_head, grid.block@, ci));
                        }
                    }
                }
            }
            proof {
                reveal(LightBuildContext::spread_inner);
            }
            let mut d: usize = 0;
            while d < 6
                invariant
                    self.wf(),
                    grid.wf(),
                    grid.sky@ == sky0,
                    1 <= head <= q@.len(),
                    in_grid(lx as int, ly as int, lz as int),
                    ci == grid_index(lx as int, ly as int, lz as int),
                    0 <= ci < GRID_VOLUME,
                    d <= 6,
                    grid.block@[ci] == bci,
                    level <= bci,
                    level <= 15,
                    self.spread_inner(grid.block@, q@, head as int, ci, level, bci, popped_current, d as int),
                    q@.len() + 7 * light_deficit(grid.block@) <= len0 + 7 * def0,
                decreases 6 - d,
            {
                let (dx, dy, dz) = neighbor_offset(d);
                let nx = lx + dx;
                let ny = ly + dy;
                let nz = lz + dz;
                let ghost b0 = grid.block@;
                let ghost q0 = q@;
                proof {
                    lemma_grid_index(lx as int, ly as int, lz as int);
                }
                if nx < -1 || nx > CHUNK_SIZE || ny < -1 || ny > CHUNK_SIZE || nz < -1 || nz
                    > CHUNK_SIZE {
                    proof {
                        self.lemma_inner_keep(b0, q0, head as int, ci, level, bci, popped_current, d as int);
                    }
                } else {
                    let att = self.attenuation_at(nx, ny, nz);
                    let cost: u8 = if att >= 1 { 2 } else { 1 };
                    let next: u8 = if level >= cost { level - cost } else { 0 };
                    let ghost ni = grid_index(nx as int, ny as int, nz as int);
                    proof {
                        lemma_grid_index(nx as int, ny as int, nz as int);
                        assert(ni != ci);
                        assert(next as int == spread_step(level as int, self.cells@[ni]));
                    }
                    if next != 0 && grid.block[ChunkLightGrid::idx(nx, ny, nz)] < next {
                        let i = ChunkLightGrid::idx(nx, ny, nz);
                        grid.block.set(i, next);
                        q.push((nx, ny, nz, next));
                        proof {
                            reveal(LightBuildContext::spread_inner);
                            self.lemma_raise_keeps(b0, grid.block@, q0, q@, head as int, ci, ni, d as int, level);
                            self.lemma_inner_raise(b0, grid.block@, q0, q@, head as int, ci, ni, level, bci, popped_current, d as int);
                        }
                    } else {
                        proof {
                            self.lemma_inner_keep(b0, q0, head as int, ci, level, bci, popped_current, d as int);
                        }
                    }
                }
                d = d + 1;
            }
            proof {
                reveal(LightBuildContext::spread_inner);
            }
            proof {
                assert forall|i: int, e: int| 0 <= i < GRID_VOLUME && 0 <= e < 6 implies #[trigger] self.edge_ok(
                    grid.block@,
                    i,
                    e,
                ) || pending(q@, head as int, grid.block@, i) by {
                    if i == ci && popped_current {
                        assert(self.edge_ok(grid.block@, ci, e));
                    }
                }
                lemma_deficit_nonneg(grid.block@);
            }
        }
        proof {
            assert forall|i: int, d: int| 0 <= i < GRID_VOLUME && 0 <= d < 6 implies #[trigger] self.edge_ok(
                grid.block@,
                i,
                d,
            ) by {
                if pending(q@, head as int, grid.block@, i) {
                    let j = choose|j: int|
                        head <= j < q@.len() && #[trigger] entry_is(q@[j], i, grid.block@[i] as int);
                }
            }
        }
    }

    /// Raising cell `ni`, a face neighbor of `ci` in direction `d`, to the
    /// light that spreads from `ci` at `level`, and queueing it, keeps every
    /// invariant of spreading.
    proof fn lemma_raise_keeps(
        &self,
        b0: Seq<u8>,
        b1: Seq<u8>,
        q0: Seq<(i32, i32, i32, u8)>,
        q1: Seq<(i32, i32, i32, u8)>,
        head: int,
        ci: int,
        ni: int,
        d: int,
        level: u8,
    )
        requires
            self.wf(),
            b0.len() == GRID_VOLUME,
            0 <= ci < GRID_VOLUME,
            0 <= d < 6,
            0 <= head <= q0.len(),
            ({
                let o = offset_spec(d);
                &&& in_grid(cell_x(ci) + o.0, cell_y(ci) + o.1, cell_z(ci) + o.2)
                &&& ni == grid_index(cell_x(ci) + o.0, cell_y(ci) + o.1, cell_z(ci) + o.2)
            }),
            ni != ci,
            level <= b0[ci],
            level <= 15,
            b0[ni] < spread_step(level as int, self.cells@[ni]),
            b1 == b0.update(ni, spread_step(level as int, self.cells@[ni]) as u8),
            q1 == q0.push(
                (
                    (cell_x(ni)) as i32,
                    (cell_y(ni)) as i32,
                    (cell_z(ni)) as i32,
                    spread_step(level as int, self.cells@[ni]) as u8,
                ),
            ),
            entries_valid(q0, b0),
            forall|i: int| 0 <= i < GRID_VOLUME ==> #[trigger] b0[i] <= 15,
            forall|i: int| 0 <= i < GRID_VOLUME ==> #[trigger] b0[i] >= emission_spec(self.cells@[i]),
            forall|h: Seq<u8>| #[trigger] self.block_light_closed(h) ==> dominated(b0, h),
        ensures
            entries_valid(q1, b1),
            forall|i: int| 0 <= i < GRID_VOLUME ==> #[trigger] b1[i] <= 15,
            forall|i: int| 0 <= i < GRID_VOLUME ==> #[trigger] b1[i] >= emission_spec(self.cells@[i]),
            forall|h: Seq<u8>| #[trigger] self.block_light_closed(h) ==> dominated(b1, h),
            pending(q1, head, b1, ni),
            forall|i: int| 0 <= i < GRID_VOLUME && i != ni && pending(q0, head, b0, i) ==> pending(q1, head, b1, i),
            forall|i: int, e: int| 0 <= i < GRID_VOLUME && 0 <= e < 6 && i != ni && #[trigger] self.edge_ok(b0, i, e) ==> self.edge_ok(b1, i, e),
            level == b0[ci] ==> self.edge_ok(b1, ci, d),
            b1[ci] == b0[ci],
            q1.len() + 7 * light_deficit(b1) <= q0.len() + 7 * light_deficit(b0) - 6,
    {
        let next = spread_step(level as int, self.cells@[ni]);
        let o = offset_spec(d);
        lemma_grid_index(cell_x(ci) + o.0, cell_y(ci) + o.1, cell_z(ci) + o.2);
        lemma_deficit_update(b0, ni, next as u8);
        assert(entry_is(q1[q0.len() as int], ni, b1[ni] as int));
        assert forall|j: int| 0 <= j < q1.len() implies {
            &&& in_grid(#[trigger] q1[j].0 as int, q1[j].1 as int, q1[j].2 as int)
            &&& q1[j].3 <= b1[grid_index(q1[j].0 as int, q1[j].1 as int, q1[j].2 as int)]
        } by {
            if j < q0.len() {
                assert(q1[j] == q0[j]);
                assert(in_grid(q0[j].0 as int, q0[j].1 as int, q0[j].2 as int));
            }
        }
        assert forall|h: Seq<u8>| #[trigger] self.block_light_closed(h) implies dominated(b1, h) by {
            assert(dominated(b0, h));
            assert(self.edge_ok(h, ci, d));
            assert(b0[ci] <= h[ci]);
            assert forall|i: int| 0 <= i < GRID_VOLUME implies #[trigger] b1[i] <= h[i] by {
                assert(b0[i] <= h[i]);
            }
        }
        assert forall|i: int| 0 <= i < GRID_VOLUME && i != ni && pending(q0, head, b0, i) implies pending(q1, head, b1, i) by {
            let j = choose|j: int| head <= j < q0.len() && #[trigger] entry_is(q0[j], i, b0[i] as int);
            assert(q1[j] == q0[j]);
            assert(entry_is(q1[j], i, b1[i] as int));
        }
        assert forall|i: int, e: int| 0 <= i < GRID_VOLUME && 0 <= e < 6 && i != ni && #[trigger] self.edge_ok(b0, i, e) implies self.edge_ok(b1, i, e) by {
            let oe = offset_spec(e);
            let tx = cell_x(i) + oe.0;
            let ty = cell_y(i) + oe.1;
            let tz = cell_z(i) + oe.2;
            if in_grid(tx, ty, tz) {
                lemma_grid_index(tx, ty, tz);
            }
        }
    }
}


impl LightBuildContext {
    /// Seeds every emitter and spreads block light through the grid.
    fn propagate_block_light(&self, grid: &mut ChunkLightGrid)
        requires
            self.wf(),
            old(grid).wf(),
            forall|i: int| 0 <= i < GRID_VOLUME ==> old(grid).block@[i] == 0,
        ensures
            final(grid).wf(),
            final(grid).sky@ == old(grid).sky@,
            self.is_block_light_of(final(grid).block@),
    {
        let q = self.seed_block_light(grid);
        self.spread_block_light(grid, q);
    }

    /// Computes the chunk's light grid: skylight falling down each column
    /// and block light spreading from every emitter.
    pub fn build_grid(&self) -> (grid: ChunkLightGrid)
        requires
            self.wf(),
        ensures
            grid.wf(),
            forall|i: int| 0 <= i < GRID_VOLUME ==> #[trigger] grid.sky@[i] == self.sky_at_index(i),
            self.is_block_light_of(grid.block@),
    {
        let mut grid = ChunkLightGrid::default();
        self.propagate_skylight(&mut grid);
        self.propagate_block_light(&mut grid);
        grid
    }
}

/// The light a cell reads as: its stored levels inside the grid, full sky
/// light and no block light outside it.
pub open spec fn sample_spec(g: &ChunkLightGrid, x: int, y: int, z: int) -> (u8, u8) {
    if in_grid(x, y, z) {
        (g.sky@[grid_index(x, y, z)], g.block@[grid_index(x, y, z)])
    } else {
        (15u8, 0u8)
    }
}

pub open spec fn occludes_spec(ctx: &LightBuildContext, x: int, y: int, z: int) -> int {
    if blocks_spec(ctx.cell(x, y, z)) {
        1
    } else {
        0
    }
}

/// Ambient occlusion of the corner at offset `o` (in the face plane) of the
/// face of cell `(x, y, z)`: 3 less the occluding cells among the two sides
/// and the diagonal next to the corner, at least 0.
pub open spec fn corner_ao_of(ctx: &LightBuildContext, x: int, y: int, z: int, o: (i32, i32, i32)) -> int {
    sat_sub(
        3,
        occludes_spec(ctx, x + o.0, y + o.1, z + o.2) + occludes_spec(ctx, x + o.2, y + o.1, z + o.0)
            + occludes_spec(ctx, x + o.0 + o.2, y + o.1, z + o.0 + o.2),
    )
}

/// Ambient occlusion counts the light-blocking cells around a corner: a
/// corner with neither side nor the diagonal blocking light is fully lit
/// (3), each blocking cell takes one step off, and a corner boxed in by
/// three blocking cells is fully dark (0).
pub proof fn lemma_corner_ao_counts_blockers(ctx: &LightBuildContext, x: int, y: int, z: int, o: (i32, i32, i32))
    ensures
        ({
            let s1 = blocks_spec(ctx.cell(x + o.0, y + o.1, z + o.2));
            let s2 = blocks_spec(ctx.cell(x + o.2, y + o.1, z + o.0));
            let d = blocks_spec(ctx.cell(x + o.0 + o.2, y + o.1, z + o.0 + o.2));
            &&& (!s1 && !s2 && !d) ==> corner_ao_of(ctx, x, y, z, o) == 3
            &&& (s1 && s2 && d) ==> corner_ao_of(ctx, x, y, z, o) == 0
            &&& corner_ao_of(ctx, x, y, z, o) == 3 - (if s1 { 1int } else { 0 }) - (if s2 { 1int } else { 0 }) - (
            if d { 1int } else { 0 })
        }),
{
}

pub open spec fn fits_i32(v: int) -> bool {
    i32::MIN <= v <= i32::MAX
}

/// The four neighborhood cells of a face corner have `i32` coordinates.
pub open spec fn around_fits(
    lx: int,
    ly: int,
    lz: int,
    normal: (i32, i32, i32),
    around: Seq<(i32, i32, i32)>,
) -> bool {
    forall|k: int|
        0 <= k < 4 ==> {
            &&& fits_i32(lx + normal.0 + #[trigger] around[k].0)
            &&& fits_i32(ly + normal.1 + around[k].1)
            &&& fits_i32(lz + normal.2 + around[k].2)
        }
}

/// Reads light levels and block properties around a chunk's blocks while
/// its mesh is built.
pub struct LightSampler<'a> {
    grid: &'a ChunkLightGrid,
    ctx: &'a LightBuildContext,
}

impl<'a> LightSampler<'a> {
    pub closed spec fn grid(&self) -> &'a ChunkLightGrid {
        self.grid
    }

    pub closed spec fn ctx(&self) -> &'a LightBuildContext {
        self.ctx
    }

    pub open spec fn wf(&self) -> bool {
        self.grid().wf() && self.ctx().wf()
    }

    pub fn new(grid: &'a ChunkLightGrid, ctx: &'a LightBuildContext) -> (r: Self)
        ensures
            r.grid() == grid,
            r.ctx() == ctx,
    {
        LightSampler { grid, ctx }
    }

    /// Sky and block light at local coordinates; full sky and no block light
    /// outside the grid.
    pub fn sky_block_at(&self, lx: i32, ly: i32, lz: i32) -> (r: (u8, u8))
        requires
            self.wf(),
        ensures
            r == sample_spec(self.grid(), lx as int, ly as int, lz as int),
    {
        if lx < -1 || lx > CHUNK_SIZE || ly < -1 || ly > CHUNK_SIZE || lz < -1 || lz > CHUNK_SIZE {
            return (15, 0);
        }
        self.grid.sky_block(lx, ly, lz)
    }

    fn side_occludes(&self, lx: i32, ly: i32, lz: i32) -> (r: u8)
        requires
            self.wf(),
        ensures
            r as int == occludes_spec(self.ctx(), lx as int, ly as int, lz as int),
    {
        if self.ctx.blocks_light(lx, ly, lz) {
            1
        } else {
            0
        }
    }

    /// Ambient occlusion of a face corner: 3 minus the number of light
    /// blocking cells among the two sides and the diagonal next to the
    /// corner, where `(dx, dy, dz)` is the corner's offset in the face plane.
    pub fn corner_ao(&self, lx: i32, ly: i32, lz: i32, offset: (i32, i32, i32)) -> (r: u8)
        requires
            self.wf(),
            fits_i32(lx + offset.0),
            fits_i32(ly + offset.1),
            fits_i32(lz + offset.2),
            fits_i32(lx + offset.2),
            fits_i32(lz + offset.0),
            fits_i32(lx + offset.0 + offset.2),
            fits_i32(lz + offset.0 + offset.2),
        ensures
            r as int == corner_ao_of(self.ctx(), lx as int, ly as int, lz as int, offset),
    {
        let (dx, dy, dz) = offset;
        let side1 = self.side_occludes(lx + dx, ly + dy, lz + dz);
        let side2 = self.side_occludes(lx + dz, ly + dy, lz + dx);
        let corner_occ = self.side_occludes(lx + dx + dz, ly + dy, lz + dx + dz);
        let total = side1 + side2 + corner_occ;
        if total >= 3 {
            0
        } else {
            3 - total
        }
    }

    /// Light at a face corner: the brightest sky and block light among the
    /// four cells `(lx, ly, lz) + normal + w` for the corner's 2x2
    /// neighborhood offsets `w` on the air side of the face, and the corner's
    /// ambient occlusion for corner offset `ao_offset`.
    pub fn face_corner_light(
        &self,
        lx: i32,
        ly: i32,
        lz: i32,
        normal: (i32, i32, i32),
        around: [(i32, i32, i32); 4],
        ao_offset: (i32, i32, i32),
    ) -> (r: (u8, u8, u8))
        requires
            self.wf(),
            around_fits(lx as int, ly as int, lz as int, normal, around@),
            fits_i32(lx + normal.0),
            fits_i32(ly + normal.1),
            fits_i32(lz + normal.2),
            fits_i32(lx + ao_offset.0),
            fits_i32(ly + ao_offset.1),
            fits_i32(lz + ao_offset.2),
            fits_i32(lx + ao_offset.2),
            fits_i32(lz + ao_offset.0),
            fits_i32(lx + ao_offset.0 + ao_offset.2),
            fits_i32(lz + ao_offset.0 + ao_offset.2),
        ensures
            forall|k: int|
                0 <= k < 4 ==> r.0 >= #[trigger] sample_spec(
                    self.grid(),
                    lx + normal.0 + around@[k].0,
                    ly + normal.1 + around@[k].1,
                    lz + normal.2 + around@[k].2,
                ).0 && r.1 >= sample_spec(
                    self.grid(),
                    lx + normal.0 + around@[k].0,
                    ly + normal.1 + around@[k].1,
                    lz + normal.2 + around@[k].2,
                ).1,
            exists|k: int|
                0 <= k < 4 && r.0 == #[trigger] sample_spec(
                    self.grid(),
                    lx + normal.0 + around@[k].0,
                    ly + normal.1 + around@[k].1,
                    lz + normal.2 + around@[k].2,
                ).0,
            exists|k: int|
                0 <= k < 4 && r.1 == #[trigger] sample_spec(
                    self.grid(),
                    lx + normal.0 + around@[k].0,
                    ly + normal.1 + around@[k].1,
                    lz + normal.2 + around@[k].2,
                ).1,
            r.2 as int == corner_ao_of(self.ctx(), lx as int, ly as int, lz as int, ao_offset),
    {
        let (nx, ny, nz) = normal;
        let mut sky: u8 = 0;
        let mut block: u8 = 0;
        let ghost mut sky_k: int = 0;
        let ghost mut block_k: int = 0;
        let mut k: usize = 0;
        while k < 4
            invariant
                0 <= k <= 4,
                self.wf(),
                around_fits(lx as int, ly as int, lz as int, normal, around@),
                fits_i32(lx + normal.0),
                fits_i32(ly + normal.1),
                fits_i32(lz + normal.2),
                (nx, ny, nz) == normal,
                forall|m: int|
                    0 <= m < k ==> sky >= #[trigger] sample_spec(
                        self.grid(),
                        lx + normal.0 + around@[m].0,
                        ly + normal.1 + around@[m].1,
                        lz + normal.2 + around@[m].2,
                    ).0 && block >= sample_spec(
                        self.grid(),
                        lx + normal.0 + around@[m].0,
                        ly + normal.1 + around@[m].1,
                        lz + normal.2 + around@[m].2,
                    ).1,
                k > 0 ==> 0 <= sky_k < k && sky == sample_spec(
                    self.grid(),
                    lx + normal.0 + around@[sky_k].0,
                    ly + normal.1 + around@[sky_k].1,
                    lz + normal.2 + around@[sky_k].2,
                ).0,
                k > 0 ==> 0 <= block_k < k && block == sample_spec(
                    self.grid(),
                    lx + normal.0 + around@[block_k].0,
                    ly + normal.1 + around@[block_k].1,
                    lz + normal.2 + around@[block_k].2,
                ).1,
            decreases 4 - k,
        {
            let (wx, wy, wz) = around[k];
            let (s, b) = self.sky_block_at(lx + nx + wx, ly + ny + wy, lz + nz + wz);
            if k == 0 || s > sky {
                sky = s;
                proof {
                    sky_k = k as int;
                }
            }
            if k == 0 || b > block {
                block = b;
                proof {
                    block_k = k as int;
                }
            }
            k = k + 1;
        }
        let ao = self.corner_ao(lx, ly, lz, ao_offset);
        (sky, block, ao)
    }

    /// Whether the cell the face with this (rounded) normal looks at holds a
    /// fluid.
    pub fn faces_fluid(&self, lx: i32, ly: i32, lz: i32, normal: (i32, i32, i32)) -> (r: bool)
        requires
            self.wf(),
            fits_i32(lx + normal.0),
            fits_i32(ly + normal.1),
            fits_i32(lz + normal.2),
        ensures
            r == (self.ctx().cell(lx + normal.0, ly + normal.1, lz + normal.2) matches Some(d)
                && d.fluid),
    {
        let (dx, dy, dz) = normal;
        match self.ctx.def_at(lx + dx, ly + dy, lz + dz) {
            Some(d) => d.fluid,
            None => false,
        }
    }

    /// Whether the block at local coordinates emits light.
    pub fn is_emissive_block(&self, lx: i32, ly: i32, lz: i32) -> (r: bool)
        requires
            self.wf(),
        ensures
            r == (emission_spec(self.ctx().cell(lx as int, ly as int, lz as int)) > 0),
    {
        self.ctx.emission_at(lx, ly, lz) > 0
    }
}


impl LightBuildContext {
    /// What holds while the neighbors of popped cell `ci` (popped at `level`,
    /// whose block light is `bci`) are relaxed, after the first `d` of them.
    #[verifier::opaque]
    pub open spec fn spread_inner(
        &self,
        b: Seq<u8>,
        q: Seq<(i32, i32, i32, u8)>,
        head: int,
        ci: int,
        level: u8,
        bci: u8,
        popped: bool,
        d: int,
    ) -> bool {
        &&& entries_valid(q, b)
        &&& forall|i: int| 0 <= i < GRID_VOLUME ==> #[trigger] b[i] <= 15
        &&& forall|i: int| 0 <= i < GRID_VOLUME ==> #[trigger] b[i] >= emission_spec(self.cells@[i])
        &&& forall|i: int, e: int|
            0 <= i < GRID_VOLUME && 0 <= e < 6 && i != ci ==> #[trigger] self.edge_ok(b, i, e)
                || pending(q, head, b, i)
        &&& popped ==> level == bci || forall|e: int| 0 <= e < 6 ==> #[trigger] self.edge_ok(b, ci, e)
        &&& popped ==> forall|e: int| 0 <= e < d ==> #[trigger] self.edge_ok(b, ci, e)
        &&& !popped ==> pending(q, head, b, ci)
        &&& forall|h: Seq<u8>| #[trigger] self.block_light_closed(h) ==> dominated(b, h)
    }

    /// Neighbor `d` of `ci` needs no change.
    proof fn lemma_inner_keep(
        &self,
        b: Seq<u8>,
        q: Seq<(i32, i32, i32, u8)>,
        head: int,
        ci: int,
        level: u8,
        bci: u8,
        popped: bool,
        d: int,
    )
        requires
            self.wf(),
            b.len() == GRID_VOLUME,
            0 <= ci < GRID_VOLUME,
            0 <= d < 6,
            b[ci] == bci,
            level <= bci,
            self.spread_inner(b, q, head, ci, level, bci, popped, d),
            ({
                let o = offset_spec(d);
                let nx = cell_x(ci) + o.0;
                let ny = cell_y(ci) + o.1;
                let nz = cell_z(ci) + o.2;
                in_grid(nx, ny, nz) ==> b[grid_index(nx, ny, nz)] >= spread_step(
                    level as int,
                    self.cells@[grid_index(nx, ny, nz)],
                )
            }),
        ensures
            self.spread_inner(b, q, head, ci, level, bci, popped, d + 1),
    {
        reveal(LightBuildContext::spread_inner);
        if popped {
            assert forall|e: int| 0 <= e < d + 1 implies #[trigger] self.edge_ok(b, ci, e) by {
                if e == d && level != bci {
                    assert(self.edge_ok(b, ci, e));
                }
            }
        }
    }

    /// Neighbor `ni` (direction `d` of `ci`) was raised and queued.
    proof fn lemma_inner_raise(
        &self,
        b0: Seq<u8>,
        b1: Seq<u8>,
        q0: Seq<(i32, i32, i32, u8)>,
        q1: Seq<(i32, i32, i32, u8)>,
        head: int,
        ci: int,
        ni: int,
        level: u8,
        bci: u8,
        popped: bool,
        d: int,
    )
        requires
            self.wf(),
            b0.len() == GRID_VOLUME,
            0 <= ci < GRID_VOLUME,
            0 <= ni < GRID_VOLUME,
            ni != ci,
            0 <= d < 6,
            b0[ci] == bci,
            level <= bci,
            self.spread_inner(b0, q0, head, ci, level, bci, popped, d),
            entries_valid(q1, b1),
            forall|i: int| 0 <= i < GRID_VOLUME ==> #[trigger] b1[i] <= 15,
            forall|i: int| 0 <= i < GRID_VOLUME ==> #[trigger] b1[i] >= emission_spec(self.cells@[i]),
            forall|h: Seq<u8>| #[trigger] self.block_light_closed(h) ==> dominated(b1, h),
            pending(q1, head, b1, ni),
            forall|i: int| 0 <= i < GRID_VOLUME && i != ni && pending(q0, head, b0, i) ==> pending(q1, head, b1, i),
            forall|i: int, e: int| 0 <= i < GRID_VOLUME && 0 <= e < 6 && i != ni && #[trigger] self.edge_ok(b0, i, e) ==> self.edge_ok(b1, i, e),
            level == b0[ci] ==> self.edge_ok(b1, ci, d),
            b1[ci] == b0[ci],
        ensures
            self.spread_inner(b1, q1, head, ci, level, bci, popped, d + 1),
    {
        reveal(LightBuildContext::spread_inner);
        assert forall|k: int, e: int|
            0 <= k < GRID_VOLUME && 0 <= e < 6 && k != ci implies #[trigger] self.edge_ok(b1, k, e)
            || pending(q1, head, b1, k) by {
            if k != ni {
                if self.edge_ok(b0, k, e) {
                } else {
                    assert(pending(q0, head, b0, k));
                }
            }
        }
        if popped {
            assert forall|e: int| 0 <= e < d + 1 implies #[trigger] self.edge_ok(b1, ci, e) by {
                if e < d {
                    assert(self.edge_ok(b0, ci, e));
                } else if level != bci {
                    assert(self.edge_ok(b0, ci, e));
                }
            }
            if level != bci {
                assert forall|e: int| 0 <= e < 6 implies #[trigger] self.edge_ok(b1, ci, e) by {
                    assert(self.edge_ok(b0, ci, e));
                }
            }
        } else {
            assert(pending(q0, head, b0, ci));
        }
    }
}


impl LightBuildContext {
    proof fn lemma_sky_in_bounded(&self, x: int, z: int, y: int)
        ensures
            0 <= self.sky_in(x, z, y) <= 15,
            0 <= self.sky_at(x, z, y) <= self.sky_in(x, z, y),
        decreases 16 - y,
    {
        if y < 16 {
            self.lemma_sky_in_bounded(x, z, y + 1);
        }
    }

    /// Skylight never grows on the way down a column of the grid: a cell is
    /// at most as bright as every cell above it, and every level lies
    /// between 0 and 15.
    pub proof fn lemma_sky_never_brightens_downward(&self, x: int, z: int, y1: int, y2: int)
        requires
            -1 <= y1 <= y2 <= 16,
        ensures
            0 <= self.sky_at(x, z, y1) <= self.sky_at(x, z, y2) <= 15,
        decreases y2 - y1,
    {
        self.lemma_sky_in_bounded(x, z, y1);
        self.lemma_sky_in_bounded(x, z, y2);
        if y1 < y2 {
            self.lemma_sky_in_bounded(x, z, y1 + 1);
            self.lemma_sky_never_brightens_downward(x, z, y1 + 1, y2);
        }
    }

    /// Block light never exceeds 15.
    pub proof fn lemma_block_light_at_most_full(&self, g: Seq<u8>)
        requires
            self.wf(),
            self.is_block_light_of(g),
        ensures
            forall|i: int| 0 <= i < GRID_VOLUME ==> #[trigger] g[i] <= 15,
    {
        let h = Seq::new(GRID_VOLUME as nat, |i: int| 15u8);
        assert forall|i: int, d: int| 0 <= i < GRID_VOLUME && 0 <= d < 6 implies #[trigger] self.edge_ok(
            h,
            i,
            d,
        ) by {
            let o = offset_spec(d);
            let nx = cell_x(i) + o.0;
            let ny = cell_y(i) + o.1;
            let nz = cell_z(i) + o.2;
            if in_grid(nx, ny, nz) {
                lemma_grid_index(nx, ny, nz);
            }
        }
        assert(self.block_light_closed(h));
        assert(dominated(g, h));
    }

    /// Without an emitter in the grid there is no block light anywhere.
    pub proof fn lemma_no_emitter_no_block_light(&self, g: Seq<u8>)
        requires
            self.wf(),
            self.is_block_light_of(g),
            forall|i: int| 0 <= i < GRID_VOLUME ==> emission_spec(#[trigger] self.cells@[i]) == 0,
        ensures
            forall|i: int| 0 <= i < GRID_VOLUME ==> #[trigger] g[i] == 0,
    {
        let h = Seq::new(GRID_VOLUME as nat, |i: int| 0u8);
        assert forall|i: int, d: int| 0 <= i < GRID_VOLUME && 0 <= d < 6 implies #[trigger] self.edge_ok(
            h,
            i,
            d,
        ) by {
            let o = offset_spec(d);
            let nx = cell_x(i) + o.0;
            let ny = cell_y(i) + o.1;
            let nz = cell_z(i) + o.2;
            if in_grid(nx, ny, nz) {
                lemma_grid_index(nx, ny, nz);
            }
        }
        assert(self.block_light_closed(h));
        assert(dominated(g, h));
    }

    /// The block light of a grid is determined by its cells: two layers
    /// that both are the darkest closed layer are equal.
    pub proof fn lemma_block_light_unique(&self, g1: Seq<u8>, g2: Seq<u8>)
        requires
            self.is_block_light_of(g1),
            self.is_block_light_of(g2),
        ensures
            g1 == g2,
    {
        assert(dominated(g1, g2));
        assert(dominated(g2, g1));
        assert forall|i: int| 0 <= i < g1.len() implies g1[i] == g2[i] by {
            assert(g1[i] <= g2[i]);
            assert(g2[i] <= g1[i]);
        }
        assert(g1 =~= g2);
    }
}

} // verus!
