use gp2uv::model::FaceModel;
use gp2uv::weld::{fold_singletons, uv_weld_count};

fn face(idx: usize, pts: &[usize], uv: &[[u16; 2]]) -> FaceModel {
    FaceModel {
        face_idx: idx,
        point_indices: pts.to_vec(),
        orig_uv: uv.to_vec(),
        vert_refs: pts.iter().map(|&p| (p * 24) as u16).collect(),
        recovered: false,
    }
}

#[test]
fn weld_counts_points_with_matching_texels() {
    let a = face(0, &[0, 1, 2], &[[10, 10], [20, 10], [20, 20]]);
    // point 0 within one texel, point 1 two texels off, point 2 exact.
    let b = face(1, &[2, 1, 0], &[[20, 20], [22, 10], [11, 9]]);
    assert_eq!(uv_weld_count(&a, &b), 2);
    assert_eq!(uv_weld_count(&b, &a), 2);
}

#[test]
fn weld_takes_each_point_once_at_its_first_use() {
    // point 5 repeats in `a`; only its first texel counts.
    let a = face(0, &[5, 6, 5], &[[0, 0], [4, 4], [9, 9]]);
    let b = face(1, &[5, 6], &[[1, 1], [40, 40]]);
    assert_eq!(uv_weld_count(&a, &b), 1);
    let c = face(2, &[5], &[[9, 9]]);
    assert_eq!(uv_weld_count(&a, &c), 0);
}

#[test]
fn singletons_fold_into_touching_island() {
    let models = vec![
        face(0, &[0, 1, 2], &[[0, 0]; 3]),
        face(1, &[1, 2, 3], &[[0, 0]; 3]),
        face(2, &[2, 3, 4], &[[0, 0]; 3]),
        face(3, &[9, 10, 11], &[[0, 0]; 3]),
    ];
    let islands = vec![vec![0, 1], vec![2], vec![3]];
    let folded = fold_singletons(&islands, &models);
    // face 2 shares points 2 and 3 with face 1; face 3 touches nothing.
    assert_eq!(folded, vec![vec![0, 1, 2], vec![3]]);
}

#[test]
fn singletons_never_fold_into_singletons() {
    let models = vec![face(0, &[0, 1, 2], &[[0, 0]; 3]), face(1, &[0, 1, 2], &[[0, 0]; 3])];
    let islands = vec![vec![0], vec![1]];
    assert_eq!(fold_singletons(&islands, &models), islands);
}

#[test]
fn folded_faces_keep_island_order() {
    let models = vec![
        face(0, &[0, 1, 2], &[[0, 0]; 3]),
        face(1, &[0, 1, 2], &[[0, 0]; 3]),
        face(2, &[0, 1, 7], &[[0, 0]; 3]),
        face(3, &[1, 2, 8], &[[0, 0]; 3]),
    ];
    let islands = vec![vec![3], vec![0, 1], vec![2]];
    assert_eq!(fold_singletons(&islands, &models), vec![vec![0, 1, 3, 2]]);
}
