use stagcrest::chunk_map::ChunkPos;
use stagcrest::scheduler::{GpuChunkScheduler, MeshScheduler, RemeshUrgency};
use stagcrest::streaming::{chunk_coord, chunk_of_block, local_coord, recover_tick, BiomeGridCache};

#[test]
fn block_coordinates_split_into_chunk_and_local() {
    assert_eq!(chunk_coord(0), 0);
    assert_eq!(chunk_coord(15), 0);
    assert_eq!(chunk_coord(16), 1);
    assert_eq!(chunk_coord(-1), -1);
    assert_eq!(chunk_coord(-16), -1);
    assert_eq!(chunk_coord(-17), -2);
    assert_eq!(chunk_coord(i32::MIN), i32::MIN.div_euclid(16));
    assert_eq!(local_coord(-1), 15);
    assert_eq!(local_coord(33), 1);
    assert_eq!(local_coord(i32::MIN), i32::MIN.rem_euclid(16));
    assert_eq!(chunk_of_block((17, -3, 40)), ChunkPos { x: 1, y: -1, z: 2 });
}

#[test]
fn recovery_runs_every_sixtieth_frame() {
    assert_eq!(recover_tick(58), (59, false));
    assert_eq!(recover_tick(59), (60, true));
    assert_eq!(recover_tick(u32::MAX), (0, true));
}

#[test]
fn recovery_skips_far_busy_and_unready_chunks() {
    let mut sched: MeshScheduler<u32, u32> = MeshScheduler::new();
    let center = ChunkPos { x: 0, y: 0, z: 0 };
    let near = ChunkPos { x: 1, y: 0, z: 0 };
    let far = ChunkPos { x: 9, y: 0, z: 0 };
    let waiting = ChunkPos { x: 0, y: 1, z: 0 };
    let unready = ChunkPos { x: 0, y: 0, z: 1 };
    sched.request(waiting, RemeshUrgency::Visible, 0);
    let candidates = vec![(near, true), (far, true), (waiting, true), (unready, false)];
    assert_eq!(sched.chunks_to_recover(&candidates, center, 4, 2), vec![near]);
    let mut gpu = GpuChunkScheduler::new();
    gpu.request(near, RemeshUrgency::Visible, 0);
    assert_eq!(gpu.chunks_to_recover(&candidates, center, 4, 2), vec![waiting]);
}

#[test]
fn biome_lookup_reads_the_chunk_grid() {
    let mut cache = BiomeGridCache::new();
    let mut grid = [0u8; 64];
    for (i, g) in grid.iter_mut().enumerate() {
        *g = i as u8;
    }
    cache.insert(ChunkPos { x: -1, y: 0, z: 0 }, grid);
    assert_eq!(cache.biome_at((-1, 0, 0)), Some(3));
    assert_eq!(cache.biome_at((-16, 5, 9)), Some(0 + 4 + 32));
    assert_eq!(cache.biome_at((0, 0, 0)), None);
    cache.remove(ChunkPos { x: -1, y: 0, z: 0 });
    assert_eq!(cache.biome_at((-1, 0, 0)), None);
}
