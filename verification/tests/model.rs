use gp2uv::dat::Geometry;
use gp2uv::model::{build_face_models, build_face_models_opts, ModelOpts};
use gp2uv::uvtable;

fn put_i32(b: &mut [u8], o: usize, v: i32) {
    b[o..o + 4].copy_from_slice(&v.to_le_bytes());
}

fn put_u16(b: &mut [u8], o: usize, v: u16) {
    b[o..o + 2].copy_from_slice(&v.to_le_bytes());
}

/// A tiny car block: 2 scales, one body face (jam id 530) walking edges
/// 1, 2, 3, three points (one a back-reference) and three edges.
fn tiny_dat() -> Vec<u8> {
    let mut b = vec![0u8; 110];
    put_u16(&mut b, 0, 0x8002); // magic
    put_i32(&mut b, 4, 54); // scale_begin
    put_i32(&mut b, 8, 58); // scale_end -> 2 scales
    put_i32(&mut b, 12, 58); // texture_begin
    put_i32(&mut b, 16, 74); // points_begin
    put_i32(&mut b, 20, 98); // vertex_begin -> 3 points
    put_i32(&mut b, 24, 74); // texture_end
    put_i32(&mut b, 28, 110); // vertex_end -> 3 edges
    // scales
    put_u16(&mut b, 54, 100);
    put_u16(&mut b, 56, 200);
    // one texture command: numl, numh, cmd 0x18, 11 args + terminator pair
    let face: [u8; 16] = [
        7, 0, 0x18, // numl numh cmd
        0, 0x12, 0x02, 0, 0, // args[0..5], jam id 0x0212 = 530
        1, 0, 2, 0, 3, 0, // point refs 1, 2, 3
        0, 0, // terminator pair
    ];
    b[58..74].copy_from_slice(&face);
    // points: (x raw, y raw, z raw, pad)
    put_u16(&mut b, 74, 0x04); // scales[0]
    put_u16(&mut b, 76, 0x08); // scales[1]
    put_u16(&mut b, 78, 5);
    put_u16(&mut b, 82, 0x84); // -scales[0]
    put_u16(&mut b, 84, 0);
    put_u16(&mut b, 86, 0xFFFF); // z = -1
    put_u16(&mut b, 90, 0x8000); // back-reference to point 0
    put_u16(&mut b, 92, 0);
    put_u16(&mut b, 94, 7);
    // edges: from, to
    b[98] = 0;
    b[99] = 1;
    b[102] = 1;
    b[103] = 2;
    b[106] = 2;
    b[107] = 0;
    b
}

/// A one-face UV table whose entry carries the given vertex references.
fn table_with_refs(refs: [u16; 3]) -> Vec<u8> {
    let mut b = vec![0u8; 26];
    b[0..4].copy_from_slice(&4u32.to_le_bytes());
    put_u16(&mut b, 4, 2);
    put_u16(&mut b, 6, 12);
    for (k, r) in refs.iter().enumerate() {
        let p = 8 + 6 * k;
        put_u16(&mut b, p, 10 * k as u16);
        put_u16(&mut b, p + 2, 20 * k as u16);
        put_u16(&mut b, p + 4, *r);
    }
    b
}

#[test]
fn models_link_uv_faces_to_points() {
    let g = Geometry::parse(&tiny_dat(), 54).unwrap();
    let t = uvtable::decode(&table_with_refs([0, 24, 48])).unwrap();
    let ms = build_face_models(&t, &g).unwrap();
    assert_eq!(ms.len(), 1);
    assert_eq!(ms[0].face_idx, 0);
    assert_eq!(ms[0].point_indices, vec![0, 1, 2]);
    assert_eq!(ms[0].orig_uv, vec![[0, 0], [10, 20], [20, 40]]);
    assert_eq!(ms[0].vert_refs, vec![0, 24, 48]);
    assert!(!ms[0].recovered);
    let pts = ms[0].points3d(&g);
    assert_eq!(pts, g.points);
}

#[test]
fn models_reject_out_of_range_refs() {
    let g = Geometry::parse(&tiny_dat(), 54).unwrap();
    let t = uvtable::decode(&table_with_refs([0, 24, 72])).unwrap();
    assert!(build_face_models(&t, &g).is_none());
}

#[test]
fn collapsed_face_recovers_from_edge_walk() {
    let g = Geometry::parse(&tiny_dat(), 54).unwrap();
    let t = uvtable::decode(&table_with_refs([0, 0, 0])).unwrap();
    let (ms, n) = build_face_models_opts(&t, &g, ModelOpts { recover_collapsed: true }).unwrap();
    assert_eq!(n, 1);
    assert!(ms[0].recovered);
    assert_eq!(ms[0].point_indices, vec![0, 1, 2]);
    assert_eq!(ms[0].vert_refs, vec![0, 24, 48]);
    let (ms, n) = build_face_models_opts(&t, &g, ModelOpts { recover_collapsed: false }).unwrap();
    assert_eq!(n, 0);
    assert!(!ms[0].recovered);
    assert_eq!(ms[0].point_indices, vec![0, 0, 0]);
    assert!(ModelOpts::default().recover_collapsed);
}
