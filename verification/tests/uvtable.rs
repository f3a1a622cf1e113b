use gp2uv::jam::jam_xor;
use gp2uv::model::FaceModel;
use gp2uv::unwrap::{FaceCoords, Unwrap};
use gp2uv::uvtable::{self, UvVert, SVGA_FILE_OFF, SVGA_LEN};

fn put_u16(b: &mut Vec<u8>, o: usize, v: u16) {
    b[o..o + 2].copy_from_slice(&v.to_le_bytes());
}

fn put_entry(b: &mut Vec<u8>, at: usize, verts: &[(u16, u16, u16)]) {
    put_u16(b, at, (verts.len() * 4) as u16);
    for (k, &(u, v, r)) in verts.iter().enumerate() {
        let p = at + 2 + 6 * k;
        put_u16(b, p, u);
        put_u16(b, p + 2, v);
        put_u16(b, p + 4, r);
    }
}

const V0: [(u16, u16, u16); 3] = [(1, 2, 0), (3, 4, 24), (5, 6, 48)];
const V1: [(u16, u16, u16); 3] = [(10, 11, 0), (12, 13, 24), (14, 15, 48)];

/// Three faces: face 0 has its own entry, faces 1 and 2 share one.
fn block_with(v0: &[(u16, u16, u16)]) -> Vec<u8> {
    let mut b = vec![0u8; 64];
    b[0..4].copy_from_slice(&4u32.to_le_bytes());
    put_u16(&mut b, 4, 6);
    put_u16(&mut b, 6, 26);
    put_u16(&mut b, 8, 26);
    put_entry(&mut b, 10, v0);
    put_entry(&mut b, 30, &V1);
    b
}

fn verts(v: &[(u16, u16, u16)]) -> Vec<UvVert> {
    v.iter().map(|&(u, v, r)| UvVert { u, v, vert_ref: r }).collect()
}

#[test]
fn decode_reads_faces_offsets_and_default() {
    let t = uvtable::decode(&block_with(&V0)).unwrap();
    assert_eq!(t.base, 4);
    assert_eq!(t.faces_present(), 3);
    assert_eq!(t.face(0).unwrap().verts, verts(&V0));
    assert_eq!(t.face(1).unwrap().verts, verts(&V1));
    assert_eq!(t.face(2).unwrap().verts, verts(&V1));
    assert!(t.face(3).is_none());
    assert_eq!(t.default_offset(), 26);
    assert!(t.is_default(1) && t.is_default(2) && !t.is_default(0));
    assert_eq!(t.real_face_indices(), vec![0]);
    let real = t.iter_real();
    assert_eq!(real.len(), 1);
    assert_eq!(real[0].0, 0);
    assert_eq!(real[0].1.verts, verts(&V0));
}

#[test]
fn decode_rejects_short_and_empty_tables() {
    assert!(uvtable::decode(&[4, 0, 0]).is_none());
    // an offset table with no present face never finds its end
    let mut b = vec![0u8; 16];
    b[0..4].copy_from_slice(&4u32.to_le_bytes());
    assert!(uvtable::decode(&b).is_none());
    // an entry that runs off the block
    let mut b = block_with(&V0);
    b.truncate(40);
    assert!(uvtable::decode(&b).is_none());
}

#[test]
fn encode_decode_roundtrip_on_small_table() {
    let t = uvtable::decode(&block_with(&V0)).unwrap();
    let enc = uvtable::encode(&t);
    // [u32 base][3 offsets][shared default entry][face 0 entry]
    assert_eq!(enc.len(), 4 + 6 + 20 + 20);
    assert_eq!(&enc[0..4], &4u32.to_le_bytes());
    let back = uvtable::decode(&enc).unwrap();
    for idx in 0..3 {
        assert_eq!(back.face(idx).unwrap().verts, t.face(idx).unwrap().verts, "face {idx}");
    }
    assert_eq!(back.faces_present(), t.faces_present());
    assert_eq!(back.real_face_indices(), vec![0]);
}

#[test]
fn patch_block_uv_rewrites_only_listed_faces() {
    let v0b = [(100u16, 101u16, 0u16), (102, 103, 24), (104, 105, 48)];
    let target = block_with(&v0b);
    let table2 = uvtable::decode(&target).unwrap();
    let mut block = block_with(&V0);
    uvtable::patch_block_uv(&mut block, &table2, &[0]).unwrap();
    assert_eq!(block, target);
    // faces not listed stay as they were
    let mut block = block_with(&V0);
    uvtable::patch_block_uv(&mut block, &table2, &[1, 2]).unwrap();
    assert_eq!(block, block_with(&V0));
}

#[test]
fn patch_block_uv_reports_offset_table_overrun() {
    let t = uvtable::decode(&block_with(&V0)).unwrap();
    let mut block = block_with(&V0);
    assert!(uvtable::patch_block_uv(&mut block, &t, &[40]).is_err());
    assert_eq!(block, block_with(&V0));
}

#[test]
fn read_svga_from_exe_decrypts_the_block() {
    let mut plain = block_with(&V0);
    plain.resize(SVGA_LEN, 0);
    let mut enc = plain.clone();
    jam_xor(&mut enc);
    let mut exe = vec![0u8; SVGA_FILE_OFF + SVGA_LEN];
    exe[SVGA_FILE_OFF..].copy_from_slice(&enc);
    let t = uvtable::read_svga_from_exe(&exe).unwrap();
    assert_eq!(t.face(0).unwrap().verts, verts(&V0));
    assert!(uvtable::read_svga_from_exe(&exe[..SVGA_FILE_OFF + 10]).is_none());
}

#[test]
fn patched_table_installs_unwrap_coords_and_refs() {
    let t = uvtable::decode(&block_with(&V0)).unwrap();
    let model = FaceModel {
        face_idx: 0,
        point_indices: vec![0, 1, 2],
        orig_uv: vec![[1, 2], [3, 4], [5, 6]],
        vert_refs: vec![0, 24, 72],
        recovered: true,
    };
    let uw = Unwrap::from_parts(
        vec![FaceCoords { face_idx: 0, coords: vec![[7, 8], [9, 10], [11, 12]], tint: 0 }],
        vec![],
        true,
    );
    let p = uvtable::patched_table(&t, &[model], &uw);
    assert_eq!(p.face(0).unwrap().verts, verts(&[(7, 8, 0), (9, 10, 24), (11, 12, 72)]));
    assert_eq!(p.face(1).unwrap().verts, verts(&V1));
    assert_eq!(p.default_offset(), t.default_offset());
}

#[test]
fn patch_block_uv_writes_shared_entries_once_and_keeps_layout() {
    let v2 = [(70u16, 71u16, 0u16), (72, 73, 24), (74, 75, 48)];
    let mut target = block_with(&V0);
    put_entry(&mut target, 30, &v2);
    let table = uvtable::decode(&target).unwrap();
    let orig = block_with(&V0);
    let mut block = orig.clone();
    // faces 1 and 2 share one entry and get equal vertices from the table
    uvtable::patch_block_uv(&mut block, &table, &[1, 2]).unwrap();
    assert_eq!(block.len(), orig.len());
    // base, offset table and every count field are unchanged
    assert_eq!(&block[0..10], &orig[0..10]);
    assert_eq!(&block[10..12], &orig[10..12]);
    assert_eq!(&block[30..32], &orig[30..32]);
    // face 0's record and the tail are unchanged
    assert_eq!(&block[12..30], &orig[12..30]);
    assert_eq!(&block[50..], &orig[50..]);
    let back = uvtable::decode(&block).unwrap();
    assert_eq!(back.face(1).unwrap().verts, verts(&v2));
    assert_eq!(back.face(2).unwrap().verts, verts(&v2));
    assert_eq!(back.face(0).unwrap().verts, verts(&V0));
}

#[test]
fn decode_can_yield_a_table_without_faces() {
    // slot 0 is empty; slot 1's offset 2 ends the offset table after one slot
    let b = vec![4u8, 0, 0, 0, 0, 0, 2, 0, 0, 0];
    let t = uvtable::decode(&b).unwrap();
    assert_eq!(t.faces_present(), 0);
    assert!(t.real_face_indices().is_empty());
}

#[test]
fn patched_table_rewrites_a_body_face_on_the_default_entry_only() {
    // faces 1 and 2 share the default entry; only face 1 has a model (a body
    // face, like face 3 of the stock car), so face 2 keeps its entry.
    let t = uvtable::decode(&block_with(&V0)).unwrap();
    let model = FaceModel {
        face_idx: 1,
        point_indices: vec![0, 1, 2],
        orig_uv: vec![[10, 11], [12, 13], [14, 15]],
        vert_refs: vec![0, 24, 48],
        recovered: false,
    };
    let uw = Unwrap::from_parts(
        vec![FaceCoords { face_idx: 1, coords: vec![[40, 41], [42, 43], [44, 45]], tint: 0 }],
        vec![],
        true,
    );
    let p = uvtable::patched_table(&t, &[model], &uw);
    assert_eq!(p.face(1).unwrap().verts, verts(&[(40, 41, 0), (42, 43, 24), (44, 45, 48)]));
    assert_eq!(p.face(2).unwrap().verts, verts(&V1));
    assert_eq!(p.face(0).unwrap().verts, verts(&V0));
    assert!(p.is_default(1) && p.is_default(2) && !p.is_default(0));
    assert_eq!(p.faces_present(), t.faces_present());
}

#[test]
fn default_offset_prefers_the_smallest_on_ties() {
    // faces 0,1 share offset 8; faces 2,3 share offset 28: a tie, so 8 wins.
    let mut b = vec![0u8; 56];
    b[0..4].copy_from_slice(&4u32.to_le_bytes());
    put_u16(&mut b, 4, 8);
    put_u16(&mut b, 6, 8);
    put_u16(&mut b, 8, 28);
    put_u16(&mut b, 10, 28);
    put_entry(&mut b, 12, &V0);
    put_entry(&mut b, 32, &V1);
    let t = uvtable::decode(&b).unwrap();
    assert_eq!(t.faces_present(), 4);
    assert_eq!(t.default_offset(), 8);
    // no offset shared: no default
    let mut b = vec![0u8; 48];
    b[0..4].copy_from_slice(&4u32.to_le_bytes());
    put_u16(&mut b, 4, 4);
    put_u16(&mut b, 6, 24);
    put_entry(&mut b, 8, &V0);
    put_entry(&mut b, 28, &V1);
    let t = uvtable::decode(&b).unwrap();
    assert_eq!(t.default_offset(), 0);
    assert_eq!(t.real_face_indices(), vec![0, 1]);
}

#[test]
fn patch_block_uv_fails_on_partly_overlapping_entries() {
    // face 1's entry starts inside face 0's first vertex record, so its
    // count field is face 0's first vert_ref.
    let mut b = vec![0u8; 22];
    b[0..4].copy_from_slice(&4u32.to_le_bytes());
    put_u16(&mut b, 4, 4);
    put_u16(&mut b, 6, 10);
    put_entry(&mut b, 8, &[(1, 2, 4), (5, 6, 7)]);
    let t = uvtable::decode(&b).unwrap();
    assert_eq!(t.face(0).unwrap().verts, verts(&[(1, 2, 4), (5, 6, 7)]));
    assert_eq!(t.face(1).unwrap().verts, verts(&[(5, 6, 7)]));
    // a same-layout table giving face 0 a new first vert_ref
    let model = FaceModel {
        face_idx: 0,
        point_indices: vec![0, 0],
        orig_uv: vec![[1, 2], [5, 6]],
        vert_refs: vec![8, 7],
        recovered: false,
    };
    let uw = Unwrap::from_parts(
        vec![FaceCoords { face_idx: 0, coords: vec![[1, 2], [5, 6]], tint: 0 }],
        vec![],
        true,
    );
    let t2 = uvtable::patched_table(&t, &[model], &uw);
    let mut block = b.clone();
    // writing face 0 rewrites face 1's count, so face 1 no longer fits
    assert!(uvtable::patch_block_uv(&mut block, &t2, &[0, 1]).is_err());
}
