use gp2uv::dat::{Edge, Geometry, Header, Point3D};

fn put_i32(b: &mut [u8], o: usize, v: i32) {
    b[o..o + 4].copy_from_slice(&v.to_le_bytes());
}

fn put_u16(b: &mut [u8], o: usize, v: u16) {
    b[o..o + 2].copy_from_slice(&v.to_le_bytes());
}

/// A tiny car block: 2 scales, one body face (jam id 530) walking edges
/// 1, 2, 3, three points (one a back-reference) and three edges.
fn tiny_dat() -> Vec<u8> {
    let mut b = vec![0u8; 110];
    put_u16(&mut b, 0, 0x8002); // magic
    put_i32(&mut b, 4, 54); // scale_begin
    put_i32(&mut b, 8, 58); // scale_end -> 2 scales
    put_i32(&mut b, 12, 58); // texture_begin
    put_i32(&mut b, 16, 74); // points_begin
    put_i32(&mut b, 20, 98); // vertex_begin -> 3 points
    put_i32(&mut b, 24, 74); // texture_end
    put_i32(&mut b, 28, 110); // vertex_end -> 3 edges
    // scales
    put_u16(&mut b, 54, 100);
    put_u16(&mut b, 56, 200);
    // one texture command: numl, numh, cmd 0x18, 11 args + terminator pair
    let face: [u8; 16] = [
        7, 0, 0x18, // numl numh cmd
        0, 0x12, 0x02, 0, 0, // args[0..5], jam id 0x0212 = 530
        1, 0, 2, 0, 3, 0, // point refs 1, 2, 3
        0, 0, // terminator pair
    ];
    b[58..74].copy_from_slice(&face);
    // points: (x raw, y raw, z raw, pad)
    put_u16(&mut b, 74, 0x04); // scales[0]
    put_u16(&mut b, 76, 0x08); // scales[1]
    put_u16(&mut b, 78, 5);
    put_u16(&mut b, 82, 0x84); // -scales[0]
    put_u16(&mut b, 84, 0);
    put_u16(&mut b, 86, 0xFFFF); // z = -1
    put_u16(&mut b, 90, 0x8000); // back-reference to point 0
    put_u16(&mut b, 92, 0);
    put_u16(&mut b, 94, 7);
    // edges: from, to
    b[98] = 0;
    b[99] = 1;
    b[102] = 1;
    b[103] = 2;
    b[106] = 2;
    b[107] = 0;
    b
}

#[test]
fn parse_rejects_bogus_counts() {
    let mut bytes = vec![0u8; Header::SIZE];
    put_i32(&mut bytes, 4, 0); // scale_begin
    put_i32(&mut bytes, 8, 0); // scale_end -> nscale = 0
    put_i32(&mut bytes, 12, 0); // texture_begin
    put_i32(&mut bytes, 16, 0); // points_begin
    put_i32(&mut bytes, 20, 2_000_000_000); // vertex_begin (huge)
    put_i32(&mut bytes, 24, 0); // texture_end
    put_i32(&mut bytes, 28, 2_000_000_004); // vertex_end -> nedges = 1
    let g = Geometry::parse(&bytes, 0);
    assert!(g.is_none(), "bogus huge point count must be rejected");
}

#[test]
fn header_parse_reads_fields_and_needs_54_bytes() {
    let b = tiny_dat();
    let h = Header::parse(&b).unwrap();
    assert_eq!(h.magic, 0x8002u16 as i16);
    assert_eq!(h.scale_begin, 54);
    assert_eq!(h.vertex_end, 110);
    assert!(Header::parse(&b[..53]).is_none());
    assert_eq!(Header::SIZE, 54);
}

#[test]
fn geometry_resolves_scales_points_and_edges() {
    let b = tiny_dat();
    let g = Geometry::parse(&b, 54).unwrap();
    assert_eq!(g.scales, vec![100, 200]);
    assert_eq!(
        g.points,
        vec![
            Point3D { x: 100, y: 200, z: 5 },
            Point3D { x: -100, y: 0, z: -1 },
            Point3D { x: 100, y: 200, z: 7 },
        ]
    );
    assert_eq!(
        g.edges,
        vec![Edge { from: 0, to: 1 }, Edge { from: 1, to: 2 }, Edge { from: 2, to: 0 }]
    );
    assert_eq!(g.faces().len(), 1);
    assert_eq!(g.faces()[0].cmd, 0x18);
    assert_eq!(g.faces()[0].args.len(), 13);
}

#[test]
fn geometry_face_selectors_and_edge_walk() {
    let g = Geometry::parse(&tiny_dat(), 54).unwrap();
    assert_eq!(g.jam_id(0), Some(530));
    assert_eq!(g.jam_id(1), None);
    assert_eq!(g.body_face_indices(), vec![0]);
    assert_eq!(g.edge_walk(0), Some(vec![0, 1, 2]));
    assert_eq!(g.edge_walk(1), None);
}

#[test]
fn geometry_rejects_short_buffer_and_bad_stream() {
    let b = tiny_dat();
    assert!(Geometry::parse(&b[..100], 54).is_none());
    let mut bad = b.clone();
    bad[60] = 0x55; // unknown opcode
    assert!(Geometry::parse(&bad, 54).is_none());
}

#[test]
fn parse_any_tries_the_usual_starts_in_order() {
    let b = tiny_dat();
    // 106 and 78 run past the end of this buffer; 54 is the first that fits.
    assert_eq!(Geometry::parse_any(&b), Some((54, Geometry::parse(&b, 54).unwrap())));
    // The same car with 52 bytes between the header and the scales parses
    // at 106, the first start tried.
    let mut shifted = b[..54].to_vec();
    shifted.extend_from_slice(&[0u8; 52]);
    shifted.extend_from_slice(&b[54..]);
    assert_eq!(
        Geometry::parse_any(&shifted),
        Some((106, Geometry::parse(&b, 54).unwrap()))
    );
    assert_eq!(Geometry::parse_any(&b[..60]), None);
}
