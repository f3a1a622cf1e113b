use gp2uv::model::FaceModel;
use gp2uv::unwrap::{
    group_islands, shared_count, texel_box, FaceCoords, LayoutMode, PackOpts, PackStrategy,
    UnionFind,
    Unwrap, ATLAS_H, ATLAS_W,
};

#[test]
fn labels_match_ui_text() {
    assert_eq!(PackStrategy::Shelf.label(), "Shelf (fast)");
    assert_eq!(PackStrategy::Skyline.label(), "Skyline");
    assert_eq!(PackStrategy::MaxRects.label(), "MaxRects (densest)");
    assert_eq!(LayoutMode::Dense.label(), "Dense (MaxRects)");
    assert_eq!(LayoutMode::Gp2Symmetric.label(), "GP2 / Symmetric");
}

#[test]
fn pack_opts_default_is_oriented_maxrects() {
    let p = PackOpts::default();
    assert_eq!(p.strategy, PackStrategy::MaxRects);
    assert!(p.orient);
    assert_eq!((ATLAS_W, ATLAS_H), (256, 164));
}

#[test]
fn from_parts_clamps_coords_into_the_atlas() {
    let uw = Unwrap::from_parts(
        vec![
            FaceCoords { face_idx: 4, coords: vec![[-5, 3], [300, 170], [12, 200]], tint: 2 },
            FaceCoords { face_idx: 9, coords: vec![[1, 1]], tint: 1 },
        ],
        vec![[0, 0, 10, 10]],
        false,
    );
    assert_eq!(uw.coords(4).unwrap(), &vec![[0, 3], [255, 163], [12, 163]]);
    assert_eq!(uw.tint(4), Some(2));
    assert_eq!(uw.tint(9), Some(1));
    assert!(uw.coords(5).is_none());
    assert!(uw.tint(5).is_none());
    assert!(!uw.fits);
    assert_eq!(uw.iter_faces().len(), 2);
}

#[test]
fn max_overlap_counts_doubly_covered_texels() {
    let uw = Unwrap::from_parts(vec![], vec![[0, 0, 10, 10], [5, 5, 15, 15]], true);
    assert_eq!(uw.max_overlap(), 25);
    let apart = Unwrap::from_parts(vec![], vec![[0, 0, 10, 10], [10, 0, 20, 10]], true);
    assert_eq!(apart.max_overlap(), 0);
    // boxes are clamped into the atlas
    let edge = Unwrap::from_parts(vec![], vec![[250, 160, 300, 200], [-10, -10, 300, 200]], true);
    assert_eq!(edge.max_overlap(), 6 * 4);
}

fn model(face_idx: usize, pts: Vec<usize>) -> FaceModel {
    let n = pts.len();
    FaceModel {
        face_idx,
        point_indices: pts,
        orig_uv: vec![[0, 0]; n],
        vert_refs: vec![0; n],
        recovered: false,
    }
}

#[test]
fn shared_count_counts_common_points() {
    let a = model(0, vec![1, 2, 3, 4]);
    let b = model(1, vec![3, 4, 9]);
    let c = model(2, vec![7, 8]);
    assert_eq!(shared_count(&a, &b), 2);
    assert_eq!(shared_count(&b, &a), 2);
    assert_eq!(shared_count(&a, &c), 0);
    // A repeated point counts once.
    let d = model(3, vec![3, 3]);
    assert_eq!(shared_count(&d, &a), 1);
    let e = model(4, vec![0, 14, 11, 11]);
    let f = model(5, vec![11, 20, 21]);
    assert_eq!(shared_count(&e, &f), 1);
    assert_eq!(shared_count(&f, &e), 1);
    assert_eq!(shared_count(&e, &e), 3);
}

#[test]
fn union_find_merges_classes() {
    let mut uf = UnionFind::new(5);
    assert_ne!(uf.find(0), uf.find(1));
    uf.union(0, 1);
    uf.union(3, 4);
    assert_eq!(uf.find(0), uf.find(1));
    assert_eq!(uf.find(3), uf.find(4));
    assert_ne!(uf.find(1), uf.find(3));
    uf.union(1, 4);
    assert_eq!(uf.find(0), uf.find(3));
    assert_ne!(uf.find(2), uf.find(0));
    assert_eq!(uf.find(2), 2);
}

#[test]
fn group_islands_orders_by_first_face() {
    let isl = group_islands(6, &[(4, 1), (2, 5), (1, 0)]);
    let groups: Vec<Vec<usize>> = isl.iter().map(|i| i.face_pos.clone()).collect();
    assert_eq!(groups, vec![vec![0, 1, 4], vec![2, 5], vec![3]]);
    let none = group_islands(3, &[]);
    let groups: Vec<Vec<usize>> = none.iter().map(|i| i.face_pos.clone()).collect();
    assert_eq!(groups, vec![vec![0], vec![1], vec![2]]);
    assert!(group_islands(0, &[]).is_empty());
}

#[test]
fn twice_areas_follow_the_shoelace_formula() {
    let uw = Unwrap::from_parts(
        vec![
            FaceCoords { face_idx: 0, coords: vec![[10, 10], [20, 10], [20, 20], [10, 20]], tint: 0 },
            FaceCoords { face_idx: 1, coords: vec![[0, 0], [0, 6], [4, 0]], tint: 0 },
            FaceCoords { face_idx: 2, coords: vec![[0, 0], [9, 9]], tint: 0 },
        ],
        vec![],
        true,
    );
    assert_eq!(uw.twice_areas(), vec![200, 24, 0]);
}

#[test]
fn texel_box_is_half_open_over_all_faces() {
    let island = vec![vec![[3, 9], [10, 4]], vec![], vec![[7, 20]]];
    assert_eq!(texel_box(&island), [3, 4, 11, 21]);
    assert_eq!(texel_box(&vec![vec![[0, 0]]]), [0, 0, 1, 1]);
    assert_eq!(texel_box(&Vec::new()), [i32::MAX, i32::MAX, i32::MIN, i32::MIN]);
}
