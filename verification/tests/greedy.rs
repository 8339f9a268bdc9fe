use stagcrest::greedy::atlas_frame_height;
use stagcrest::greedy::{block_is_meshed, plan_cell, CellPlan};
use stagcrest::greedy::{greedy_mesh_setting, is_greedy_eligible};
use stagcrest::greedy::{build_slice_mask, slice_normal, slice_position};
use stagcrest::greedy::{
    bucket_code, face_tex_key, greedy_merge, layer_bucket, neighbor_culls_face, should_cull_face,
    CullProps, GreedyGrid, MergeKey, MergedQuad, MeshBucket, ModelRenderLayer,
};

fn key(block_id: u32) -> MergeKey {
    MergeKey {
        block_id,
        block_state: 0,
        face_tex_hash: 0,
        tint: 0,
        overlay_tint: 0,
        tint_mul_r: 0,
        tint_mul_g: 0,
        tint_mul_b: 0,
        bucket: 0,
    }
}

fn quad(row: usize, col: usize, width: usize, height: usize, block_id: u32) -> MergedQuad {
    MergedQuad { row, col, width, height, key: key(block_id) }
}

#[test]
fn uniform_slice_merges_into_one_quad() {
    let mask = vec![Some(key(1)); 6];
    assert_eq!(greedy_merge(mask, 2, 3), vec![quad(0, 0, 3, 2, 1)]);
}

#[test]
fn different_keys_split_quads() {
    let a = Some(key(1));
    let b = Some(key(2));
    let mask = vec![a, a, b, a, a, b, None, b, b];
    assert_eq!(
        greedy_merge(mask, 3, 3),
        vec![quad(0, 0, 2, 2, 1), quad(0, 2, 1, 3, 2), quad(2, 1, 1, 1, 2)]
    );
}

#[test]
fn empty_slice_has_no_quads() {
    assert!(greedy_merge(vec![None; 4], 2, 2).is_empty());
    assert!(greedy_merge(vec![], 0, 5).is_empty());
}

#[test]
fn merged_quads_cover_each_face_once() {
    let a = Some(key(1));
    let b = Some(key(2));
    let mask = vec![a, b, a, a, a, a, b, b, None, a, b, a];
    let rows = 3;
    let cols = 4;
    let quads = greedy_merge(mask.clone(), rows, cols);
    for r in 0..rows {
        for c in 0..cols {
            let covering: Vec<&MergedQuad> = quads
                .iter()
                .filter(|q| q.row <= r && r < q.row + q.height && q.col <= c && c < q.col + q.width)
                .collect();
            match mask[r * cols + c] {
                Some(k) => {
                    assert_eq!(covering.len(), 1, "cell ({r},{c})");
                    assert_eq!(covering[0].key, k);
                }
                None => assert!(covering.is_empty()),
            }
        }
    }
}

#[test]
fn face_texture_key_folds_with_31() {
    assert_eq!(face_tex_key(1, None, 0, 0), 31 * 31 * 31);
    assert_eq!(face_tex_key(2, Some(3), 4, 5), ((2 * 31 + 3) * 31 + 4) * 31 + 5);
    let big = face_tex_key(u32::MAX, Some(u32::MAX), u32::MAX, u32::MAX);
    let mut h = u32::MAX as u64;
    for x in [u32::MAX, u32::MAX, u32::MAX] {
        h = h.wrapping_mul(31).wrapping_add(x as u64);
    }
    assert_eq!(big, h);
    assert_ne!(face_tex_key(1, None, 0, 0), 1);
}

#[test]
fn render_layers_map_to_buckets() {
    assert_eq!(layer_bucket(ModelRenderLayer::Opaque), MeshBucket::Opaque);
    assert_eq!(layer_bucket(ModelRenderLayer::Blend), MeshBucket::Blend);
    assert_eq!(layer_bucket(ModelRenderLayer::Cutout), MeshBucket::Cutout);
    assert_eq!(bucket_code(MeshBucket::Opaque), 0);
    assert_eq!(bucket_code(MeshBucket::Blend), 1);
    assert_eq!(bucket_code(MeshBucket::Cutout), 2);
}

#[test]
fn neighbor_face_culling() {
    let stone = CullProps { fluid: false, opaque: true, solid: true };
    let water = CullProps { fluid: true, opaque: false, solid: false };
    let plant = CullProps { fluid: false, opaque: false, solid: false };

    assert!(neighbor_culls_face(water, Some(water)));
    assert!(!neighbor_culls_face(water, None));
    assert!(neighbor_culls_face(stone, Some(stone)));
    assert!(!neighbor_culls_face(stone, Some(plant)));
}

#[test]
fn face_culling_by_neighbor_id() {
    let stone = CullProps { fluid: false, opaque: true, solid: true };
    let glass = CullProps { fluid: false, opaque: false, solid: true };
    let water = CullProps { fluid: true, opaque: false, solid: false };
    assert!(neighbor_culls_face(glass, Some(stone)));
    assert!(!neighbor_culls_face(stone, Some(glass)));
    assert!(neighbor_culls_face(water, Some(water)));
    assert!(!neighbor_culls_face(stone, None));
    assert!(!should_cull_face(stone, None, 0));
    assert!(!should_cull_face(stone, Some((0, Some(stone))), 0));
    assert!(should_cull_face(stone, Some((1, Some(stone))), 0));
    assert!(!should_cull_face(stone, Some((5, None)), 0));
}

#[test]
fn greedy_grid_holds_cells_in_the_chunk() {
    let mut grid: GreedyGrid<u8> = GreedyGrid::new();
    assert_eq!(grid.get(0, 0, 0), None);
    grid.insert(1, 2, 3, 7);
    grid.insert(15, 15, 15, 9);
    assert_eq!(grid.get(1, 2, 3), Some(&7));
    assert_eq!(grid.get(15, 15, 15), Some(&9));
    assert_eq!(grid.get(3, 2, 1), None);
    assert_eq!(grid.get(-1, 2, 3), None);
    assert_eq!(grid.get(16, 0, 0), None);
}

#[test]
fn slice_mask_reads_cells_across_the_axis() {
    let mut grid: GreedyGrid<u32> = GreedyGrid::new();
    grid.insert(3, 1, 2, 5);
    grid.insert(3, 4, 4, 6);
    assert_eq!(slice_position(0, 3, 1, 2), (3, 1, 2));
    assert_eq!(slice_position(1, 3, 1, 2), (2, 3, 1));
    assert_eq!(slice_position(2, 3, 1, 2), (1, 2, 3));
    assert_eq!(slice_normal(0, 0), (-1, 0, 0));
    assert_eq!(slice_normal(2, 1), (0, 0, 1));
    let mask = build_slice_mask(&grid, 0, 1, 3, |c: &u32, _p, n| {
        if *c == 6 { None } else { Some(key(*c + n.0 as u32)) }
    });
    assert_eq!(mask.len(), 256);
    assert_eq!(mask[16 + 2], Some(key(6)));
    assert_eq!(mask[4 * 16 + 4], None);
    assert_eq!(mask.iter().filter(|m| m.is_some()).count(), 1);
}

#[test]
fn greedy_meshing_switch_and_eligibility() {
    assert!(greedy_mesh_setting(None));
    assert!(greedy_mesh_setting(Some("1")));
    assert!(greedy_mesh_setting(Some("False")));
    assert!(!greedy_mesh_setting(Some("0")));
    assert!(!greedy_mesh_setting(Some("false")));
    assert!(!greedy_mesh_setting(Some("FALSE")));
    assert!(is_greedy_eligible(true, false, true));
    assert!(!is_greedy_eligible(true, true, true));
    assert!(!is_greedy_eligible(false, false, true));
    assert!(!is_greedy_eligible(true, false, false));
}

#[test]
fn animation_frame_heights() {
    assert_eq!(atlas_frame_height(Some(16), 16, 64), 16);
    assert_eq!(atlas_frame_height(Some(100), 16, 64), 64);
    assert_eq!(atlas_frame_height(None, 16, 64), 16);
    assert_eq!(atlas_frame_height(None, 16, 40), 40);
    assert_eq!(atlas_frame_height(None, 16, 16), 16);
    assert_eq!(atlas_frame_height(None, 0, 0), 1);
    assert_eq!(atlas_frame_height(Some(0), 16, 64), 1);
}

#[test]
fn air_unknown_and_empty_blocks_get_no_geometry() {
    assert!(!block_is_meshed(None, 0));
    assert!(!block_is_meshed(Some((0, Some((true, true, false)))), 0));
    assert!(!block_is_meshed(Some((4, None)), 0));
    assert!(!block_is_meshed(Some((4, Some((false, false, false)))), 0));
    assert!(block_is_meshed(Some((4, Some((false, false, true)))), 0));
    assert!(block_is_meshed(Some((4, Some((true, false, false)))), 0));
}

#[test]
fn cells_are_planned_by_geometry() {
    let stone = Some((1, Some((true, true, false))));
    assert_eq!(plan_cell(None, 0, true, false, true), CellPlan::Skip);
    assert_eq!(plan_cell(Some((0, Some((true, true, false)))), 0, true, false, true), CellPlan::Skip);
    assert_eq!(plan_cell(stone, 0, true, false, true), CellPlan::Greedy);
    assert_eq!(plan_cell(stone, 0, true, false, false), CellPlan::OwnGeometry);
    assert_eq!(plan_cell(Some((2, Some((false, false, true)))), 0, true, true, true), CellPlan::OwnGeometry);
    assert_eq!(plan_cell(Some((3, Some((false, false, true)))), 0, false, false, true), CellPlan::OwnGeometry);
}
