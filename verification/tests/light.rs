use stagcrest::light::{
    pack_light, vertex_ao, ChunkLightGrid, LightBuildContext, LightCell, LightSampler, GRID_VOLUME,
};

fn empty_context() -> LightBuildContext {
    LightBuildContext { cells: vec![None; GRID_VOLUME] }
}

fn solid() -> LightCell {
    LightCell { blocks_skylight: true, attenuation: 15, emission: 0, fluid: false }
}

fn torch(level: u8) -> LightCell {
    LightCell { blocks_skylight: false, attenuation: 0, emission: level, fluid: false }
}

fn put(ctx: &mut LightBuildContext, x: i32, y: i32, z: i32, cell: LightCell) {
    ctx.cells[ChunkLightGrid::idx(x, y, z)] = Some(cell);
}

#[test]
fn pack_unpack_light() {
    assert_eq!(pack_light(15, 7), (15 << 4) | 7);
}

#[test]
fn pack_light_clamps_each_nibble() {
    assert_eq!(pack_light(200, 3), (15 << 4) | 3);
    assert_eq!(pack_light(4, 99), (4 << 4) | 15);
    assert_eq!(pack_light(0, 0), 0);
}

#[test]
fn vertex_ao_clamps_to_three() {
    assert_eq!(vertex_ao(0), 0);
    assert_eq!(vertex_ao(2), 2);
    assert_eq!(vertex_ao(3), 3);
    assert_eq!(vertex_ao(9), 3);
}

#[test]
fn grid_index_runs_x_fastest() {
    assert_eq!(ChunkLightGrid::idx(-1, -1, -1), 0);
    assert_eq!(ChunkLightGrid::idx(0, -1, -1), 1);
    assert_eq!(ChunkLightGrid::idx(-1, 0, -1), 18);
    assert_eq!(ChunkLightGrid::idx(-1, -1, 0), 324);
    assert_eq!(ChunkLightGrid::idx(16, 16, 16), GRID_VOLUME - 1);
}

#[test]
fn open_sky_is_full_everywhere() {
    let ctx = empty_context();
    let grid = ctx.build_grid();
    for z in -1..=16 {
        for y in -1..=16 {
            for x in -1..=16 {
                assert_eq!(grid.sky_block(x, y, z), (15, 0));
            }
        }
    }
}

#[test]
fn opaque_block_shadows_the_column_below() {
    let mut ctx = empty_context();
    put(&mut ctx, 4, 10, 4, solid());
    let grid = ctx.build_grid();
    assert_eq!(grid.sky_block(4, 11, 4).0, 15);
    assert_eq!(grid.sky_block(4, 10, 4).0, 0);
    assert_eq!(grid.sky_block(4, 3, 4).0, 0);
    assert_eq!(grid.sky_block(5, 3, 4).0, 15);
}

#[test]
fn skylight_never_brightens_downward() {
    let mut ctx = empty_context();
    put(&mut ctx, 2, 12, 2, LightCell { blocks_skylight: false, attenuation: 3, emission: 0, fluid: true });
    put(&mut ctx, 2, 6, 2, LightCell { blocks_skylight: true, attenuation: 2, emission: 0, fluid: false });
    let grid = ctx.build_grid();
    let mut above = 15;
    for y in (-1..=16).rev() {
        let s = grid.sky_block(2, y, 2).0;
        assert!(s <= above, "y={y}: {s} > {above}");
        above = s;
    }
    assert_eq!(grid.sky_block(2, 12, 2).0, 15);
    assert_eq!(grid.sky_block(2, 11, 2).0, 12);
    assert_eq!(grid.sky_block(2, 6, 2).0, 10);
    assert_eq!(grid.sky_block(2, 5, 2).0, 10);
}

#[test]
fn torch_light_falls_off_by_one_per_step() {
    let mut ctx = empty_context();
    put(&mut ctx, 8, 8, 8, torch(14));
    let grid = ctx.build_grid();
    assert_eq!(grid.sky_block(8, 8, 8).1, 14);
    assert_eq!(grid.sky_block(9, 8, 8).1, 13);
    assert_eq!(grid.sky_block(8, 5, 8).1, 11);
    assert_eq!(grid.sky_block(10, 10, 8).1, 10);
    assert_eq!(grid.sky_block(-1, 8, 8).1, 5);
}

#[test]
fn attenuating_cell_costs_one_more_level() {
    let mut ctx = empty_context();
    put(&mut ctx, 8, 8, 8, torch(10));
    put(&mut ctx, 9, 8, 8, LightCell { blocks_skylight: false, attenuation: 2, emission: 0, fluid: true });
    let grid = ctx.build_grid();
    assert_eq!(grid.sky_block(7, 8, 8).1, 9);
    assert_eq!(grid.sky_block(9, 8, 8).1, 8);
}

#[test]
fn no_emitter_means_no_block_light() {
    let mut ctx = empty_context();
    put(&mut ctx, 3, 3, 3, solid());
    let grid = ctx.build_grid();
    assert!(grid.block.iter().all(|&b| b == 0));
}

#[test]
fn block_light_never_exceeds_fifteen() {
    let mut ctx = empty_context();
    put(&mut ctx, 1, 1, 1, torch(200));
    let grid = ctx.build_grid();
    assert_eq!(grid.sky_block(1, 1, 1).1, 15);
    assert!(grid.block.iter().all(|&b| b <= 15));
}

#[test]
fn sampling_outside_the_grid_reads_full_sky() {
    let grid = ChunkLightGrid::default();
    assert_eq!(grid.sample_at_block(0, 0, 0), (0, 0));
    assert_eq!(grid.sample_at_block(16, -1, 16), (0, 0));
    assert_eq!(grid.sample_world((0, 0, 0), (17, 0, 0)), (15, 0));
    assert_eq!(grid.sample_world((0, 0, 0), (0, -2, 0)), (15, 0));
    assert_eq!(grid.sample_world((32, 0, 0), (31, 0, 0)), (0, 0));
    assert_eq!(grid.sample_world((32, 0, 0), (10, 0, 0)), (15, 0));
}

#[test]
fn sampler_reads_grid_and_emitters() {
    let mut ctx = empty_context();
    put(&mut ctx, 8, 8, 8, torch(12));
    let grid = ctx.build_grid();
    let sampler = LightSampler::new(&grid, &ctx);
    assert_eq!(sampler.sky_block_at(8, 8, 8), (15, 12));
    assert!(sampler.is_emissive_block(8, 8, 8));
    assert!(!sampler.is_emissive_block(8, 9, 8));
}
