use gp2uv::patch::{self, PatchError};

#[test]
fn verify_dat_checks_length_and_magic() {
    // wrong length
    assert!(patch::verify_dat(&[0u8; 100]).is_err());
    // right length, wrong magic
    let mut bad = vec![0u8; patch::CAR_GEOM_LEN];
    bad[0] = 0xFF;
    bad[1] = 0xFF;
    assert!(patch::verify_dat(&bad).is_err());
    // right length + magic
    let mut ok = vec![0u8; patch::CAR_GEOM_LEN];
    ok[0] = 0x02;
    ok[1] = 0x80; // 0x8002 LE
    assert!(patch::verify_dat(&ok).is_ok());
}

#[test]
fn verify_exe_checks_size_and_car_magic() {
    assert!(matches!(patch::verify_exe(&[0u8; 10]), Err(PatchError::BadExe(_))));
    let mut exe = vec![0u8; patch::EXE_LEN];
    assert!(matches!(patch::verify_exe(&exe), Err(PatchError::BadExe(_))));
    exe[patch::CAR_GEOM_OFF] = 0x02;
    exe[patch::CAR_GEOM_OFF + 1] = 0x80;
    assert!(patch::verify_exe(&exe).is_ok());
}

use gp2uv::jam::jam_xor;
use gp2uv::uvtable::{self, SVGA_FILE_OFF, SVGA_LEN};

fn put_u16(b: &mut [u8], o: usize, v: u16) {
    b[o..o + 2].copy_from_slice(&v.to_le_bytes());
}

/// A decrypted SVGA block with three faces (face 0 alone, faces 1 and 2
/// sharing an entry), padded to the block length.
fn svga_block(u0: u16) -> Vec<u8> {
    let mut b = vec![0u8; SVGA_LEN];
    b[0..4].copy_from_slice(&4u32.to_le_bytes());
    put_u16(&mut b, 4, 6);
    put_u16(&mut b, 6, 26);
    put_u16(&mut b, 8, 26);
    for (at, first) in [(10usize, u0), (30, 50)] {
        put_u16(&mut b, at, 12);
        for k in 0..3u16 {
            let p = at + 2 + 6 * k as usize;
            put_u16(&mut b, p, first + k);
            put_u16(&mut b, p + 2, first + 10 + k);
            put_u16(&mut b, p + 4, 24 * k);
        }
    }
    b
}

fn stock_exe() -> Vec<u8> {
    let mut exe = vec![0u8; patch::EXE_LEN];
    exe[patch::CAR_GEOM_OFF] = 0x02;
    exe[patch::CAR_GEOM_OFF + 1] = 0x80;
    let mut enc = svga_block(1);
    jam_xor(&mut enc);
    exe[SVGA_FILE_OFF..SVGA_FILE_OFF + SVGA_LEN].copy_from_slice(&enc);
    exe[100] = 0xAB;
    exe
}

#[test]
fn patch_exe_rewrites_only_the_uv_block() {
    let exe = stock_exe();
    let target = uvtable::decode(&svga_block(200)).unwrap();
    let img = patch::patch_exe(&exe, &target, None, &[0]).unwrap();
    assert_eq!(img.len(), exe.len());
    assert_eq!(&img[..SVGA_FILE_OFF], &exe[..SVGA_FILE_OFF]);
    assert_eq!(&img[SVGA_FILE_OFF + SVGA_LEN..], &exe[SVGA_FILE_OFF + SVGA_LEN..]);
    let mut back = img[SVGA_FILE_OFF..SVGA_FILE_OFF + SVGA_LEN].to_vec();
    jam_xor(&mut back);
    assert_eq!(back, svga_block(200));
    let read = uvtable::read_svga_from_exe(&img).unwrap();
    assert_eq!(read.face(0).unwrap().verts, target.face(0).unwrap().verts);
    // patch_svga is the same edit without a geometry install
    assert_eq!(patch::patch_svga(&exe, &target, &[0]).unwrap(), img);
}

#[test]
fn patch_exe_installs_geometry_block() {
    let exe = stock_exe();
    let target = uvtable::decode(&svga_block(200)).unwrap();
    let mut dat = vec![7u8; patch::CAR_GEOM_LEN];
    dat[0] = 0x02;
    dat[1] = 0x80;
    let img = patch::patch_exe(&exe, &target, Some(&dat), &[0]).unwrap();
    assert_eq!(img.len(), exe.len());
    assert_eq!(&img[patch::CAR_GEOM_OFF..patch::CAR_GEOM_OFF + patch::CAR_GEOM_LEN], &dat[..]);
    assert_eq!(img[100], 0xAB);
}

#[test]
fn patch_exe_reports_each_failure() {
    let exe = stock_exe();
    let target = uvtable::decode(&svga_block(200)).unwrap();
    // not a stock exe
    assert!(matches!(
        patch::patch_exe(&exe[..1000], &target, None, &[0]),
        Err(PatchError::BadExe(_))
    ));
    // a .dat of the wrong size
    assert!(matches!(
        patch::patch_exe(&exe, &target, Some(&[0u8; 10]), &[0]),
        Err(PatchError::BadExe(_))
    ));
    // a face whose offset slot lies outside the block
    assert!(matches!(
        patch::patch_exe(&exe, &target, None, &[SVGA_LEN]),
        Err(PatchError::Patch(_))
    ));
}
