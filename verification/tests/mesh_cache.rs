use stagcrest::chunk_map::ChunkPos;
use stagcrest::mesh_cache::MeshCache;

fn pos(x: i32) -> ChunkPos {
    ChunkPos { x, y: -1, z: 2 }
}

#[test]
fn committed_and_removed_meshes_wait_for_upload() {
    let mut cache: MeshCache<Vec<u32>> = MeshCache::new();
    cache.commit_mesh(pos(1), vec![1, 2]);
    cache.commit_mesh(pos(2), vec![3]);
    cache.commit_mesh(pos(1), vec![4]);
    assert_eq!(cache.get(pos(1)), Some(&vec![4]));
    let mut dirty = cache.take_dirty();
    dirty.sort_by_key(|p| p.x);
    assert_eq!(dirty, vec![pos(1), pos(2)]);
    assert!(cache.take_dirty().is_empty());
    cache.remove(pos(2));
    assert_eq!(cache.get(pos(2)), None);
    assert_eq!(cache.take_dirty(), vec![pos(2)]);
    assert_eq!(cache.meshes().len(), 1);
}

#[test]
fn mark_all_dirty_and_clear() {
    let mut cache: MeshCache<u8> = MeshCache::default();
    cache.commit_mesh(pos(-3), 1);
    cache.commit_mesh(pos(i32::MAX), 2);
    cache.commit_mesh(pos(i32::MIN), 3);
    let _ = cache.take_dirty();
    cache.mark_all_dirty();
    assert_eq!(cache.take_dirty().len(), 3);
    let mut cleared = cache.clear_meshes();
    cleared.sort_by_key(|p| p.x);
    assert_eq!(cleared, vec![pos(i32::MIN), pos(-3), pos(i32::MAX)]);
    assert!(cache.get(pos(-3)).is_none());
    assert!(cache.take_dirty().is_empty());
}
