use gp2uv::bmp::{preview_rgba, write_template, Opts, BMP_LEN, PIXEL_OFF};
use gp2uv::unwrap::{FaceCoords, Unwrap};

fn palette() -> [[u8; 3]; 256] {
    let mut p = [[0u8; 3]; 256];
    for (i, c) in p.iter_mut().enumerate() {
        *c = [i as u8, 255 - i as u8, (i as u8).wrapping_mul(3)];
    }
    p
}

/// Texel `(x, y)` of the encoded file (rows are stored bottom-up).
fn texel(bmp: &[u8], x: usize, y: usize) -> u8 {
    bmp[PIXEL_OFF + (163 - y) * 256 + x]
}

fn square(face_idx: usize) -> FaceCoords {
    FaceCoords { face_idx, coords: vec![[10, 10], [20, 10], [20, 20], [10, 20]], tint: 0 }
}

#[test]
fn template_header_palette_and_size() {
    let uw = Unwrap::from_parts(vec![square(7)], vec![], true);
    let pal = palette();
    let bmp = write_template(&uw, &Opts::default(), &pal);
    assert_eq!(bmp.len(), BMP_LEN);
    assert_eq!(bmp.len(), 14 + 40 + 1024 + 256 * 164);
    assert_eq!(&bmp[0..2], b"BM");
    assert_eq!(u32::from_le_bytes(bmp[2..6].try_into().unwrap()), 43062);
    assert_eq!(u32::from_le_bytes(bmp[10..14].try_into().unwrap()), 14 + 40 + 1024);
    assert_eq!(u32::from_le_bytes(bmp[14..18].try_into().unwrap()), 40);
    assert_eq!(i32::from_le_bytes(bmp[18..22].try_into().unwrap()), 256);
    assert_eq!(i32::from_le_bytes(bmp[22..26].try_into().unwrap()), 164);
    assert_eq!(u16::from_le_bytes(bmp[26..28].try_into().unwrap()), 1);
    assert_eq!(u16::from_le_bytes(bmp[28..30].try_into().unwrap()), 8);
    assert_eq!(u32::from_le_bytes(bmp[46..50].try_into().unwrap()), 256);
    // palette entry 5 is stored B, G, R, 0
    let e = 54 + 4 * 5;
    assert_eq!(&bmp[e..e + 4], &[pal[5][2], pal[5][1], pal[5][0], 0]);
}

#[test]
fn template_draws_closed_outline_in_wire_colour() {
    let uw = Unwrap::from_parts(vec![square(3)], vec![], true);
    let opts = Opts { labels: false, wire_idx: 9, label_idx: 200 };
    let bmp = write_template(&uw, &opts, &palette());
    for x in 10..=20 {
        assert_eq!(texel(&bmp, x, 10), 9, "top edge x={x}");
        assert_eq!(texel(&bmp, x, 20), 9, "bottom edge x={x}");
    }
    for y in 10..=20 {
        assert_eq!(texel(&bmp, 10, y), 9, "left edge y={y}");
        assert_eq!(texel(&bmp, 20, y), 9, "right edge y={y}");
    }
    assert_eq!(texel(&bmp, 15, 15), 0, "inside stays background");
    assert_eq!(texel(&bmp, 0, 0), 0);
    let painted = bmp[PIXEL_OFF..].iter().filter(|&&b| b != 0).count();
    assert_eq!(painted, 40, "a 10x10 square outline has 40 texels");
}

#[test]
fn template_diagonal_line_is_bresenham() {
    let face = FaceCoords { face_idx: 0, coords: vec![[0, 0], [4, 2]], tint: 0 };
    let uw = Unwrap::from_parts(vec![face], vec![], true);
    let opts = Opts { labels: false, wire_idx: 1, label_idx: 1 };
    let bmp = write_template(&uw, &opts, &palette());
    // forward (0,0) (1,1) (2,1) (3,2) (4,2); back (4,2) (3,1) (2,1) (1,0) (0,0)
    for &(x, y) in &[(0, 0), (1, 1), (2, 1), (3, 2), (4, 2), (3, 1), (1, 0)] {
        assert_eq!(texel(&bmp, x, y), 1, "texel ({x}, {y})");
    }
    let painted = bmp[PIXEL_OFF..].iter().filter(|&&b| b != 0).count();
    assert_eq!(painted, 7);
    assert_eq!(texel(&bmp, 0, 2), 0);
    assert_eq!(texel(&bmp, 4, 0), 0);
}

#[test]
fn template_labels_face_index_at_centroid() {
    let uw = Unwrap::from_parts(vec![square(7)], vec![], true);
    let opts = Opts { labels: true, wire_idx: 1, label_idx: 2 };
    let bmp = write_template(&uw, &opts, &palette());
    // centroid (15, 15); one digit 3 wide -> glyph top-left at (14, 13).
    // '7' rows: 111 / 001 / 010 / 010 / 010
    assert_eq!(texel(&bmp, 14, 13), 2);
    assert_eq!(texel(&bmp, 15, 13), 2);
    assert_eq!(texel(&bmp, 16, 13), 2);
    assert_eq!(texel(&bmp, 14, 14), 0);
    assert_eq!(texel(&bmp, 16, 14), 2);
    assert_eq!(texel(&bmp, 15, 15), 2);
    assert_eq!(texel(&bmp, 14, 15), 0);
    assert_eq!(texel(&bmp, 15, 17), 2);
}

#[test]
fn template_labels_multi_digit_numbers() {
    let uw = Unwrap::from_parts(vec![square(10)], vec![], true);
    let opts = Opts { labels: true, wire_idx: 1, label_idx: 2 };
    let bmp = write_template(&uw, &opts, &palette());
    // two digits: label width 7 -> origin x = 15 - 3 = 12, y = 13.
    // '1' row 0 = 010 -> (13, 13); '0' row 0 = 111 -> (16..=18, 13)
    assert_eq!(texel(&bmp, 12, 13), 0);
    assert_eq!(texel(&bmp, 13, 13), 2);
    assert_eq!(texel(&bmp, 16, 13), 2);
    assert_eq!(texel(&bmp, 18, 13), 2);
    assert_eq!(texel(&bmp, 17, 14), 0);
}

#[test]
fn template_background_only_without_faces() {
    let uw = Unwrap::from_parts(vec![], vec![], true);
    let bmp = write_template(&uw, &Opts::default(), &palette());
    assert!(bmp[PIXEL_OFF..].iter().all(|&b| b == 0));
}

#[test]
fn preview_decodes_template_colours() {
    let uw = Unwrap::from_parts(vec![square(7)], vec![], true);
    let pal = palette();
    let opts = Opts { labels: false, wire_idx: 9, label_idx: 9 };
    let bmp = write_template(&uw, &opts, &pal);
    let (w, h, rgba) = preview_rgba(&bmp, &pal).unwrap();
    assert_eq!((w, h), (256, 164));
    assert_eq!(rgba.len(), 256 * 164 * 4);
    let at = |x: usize, y: usize| &rgba[(y * 256 + x) * 4..(y * 256 + x) * 4 + 4];
    assert_eq!(at(10, 10), &[pal[9][0], pal[9][1], pal[9][2], 255]);
    assert_eq!(at(15, 15), &[pal[0][0], pal[0][1], pal[0][2], 255]);
    assert!(preview_rgba(&bmp[..BMP_LEN - 1], &pal).is_none());
}

#[test]
fn opts_default_labels_with_dark_index() {
    let o = Opts::default();
    assert!(o.labels);
    assert_eq!(o.wire_idx, 1);
    assert_eq!(o.label_idx, 1);
}
