//! Patch GP2.EXE's encrypted SVGA UV block in place (in memory).
//!
//! The block is edited byte-for-byte: only each body face's vertex
//! `(u, v, vert_ref)` is overwritten in the decrypted block; everything else
//! (counts, offset table, pre-base structured data) is preserved. The block
//! size and file size never change. Optionally the car 3D geometry block is
//! replaced by a `.dat` (a plain splice). Reading the file, the backup and
//! the final write are the caller's.

use vstd::prelude::*;
use std::path::PathBuf;
use crate::jam::{jam_apply, jam_xor, lemma_jam_involution};
use crate::le::le_u16;
use crate::uvtable::{
    SVGA_FILE_OFF, SVGA_LEN, UvTable, UvTableSpec, decode, face_of, lemma_patch_all_len,
    patch_all_from, patch_block_uv, spec_decode,
};

verus! {

/// Declares `std::path::PathBuf` to Verus as an opaque type, so a
/// [`PatchReport`] can carry the backup path; nothing inside it is read.
#[verifier::external_type_specification]
#[verifier::external_body]
pub struct ExPathBuf(PathBuf);

/// Expected size of a stock GP2.EXE.
pub const EXE_LEN: usize = 5_702_937;

/// File offset of the embedded car 3D block (== the bytes of a `.dat` file).
/// The car `Magic` word is the first u16 of this block.
pub const CAR_GEOM_OFF: usize = 0x14_C4A8;

/// Length of the embedded car 3D block.
pub const CAR_GEOM_LEN: usize = 54_536;

/// Expected car `Magic` value (u16 LE).
pub const CAR_MAGIC: u16 = 0x8002;

/// What a successful patch reports.
pub struct PatchReport {
    pub faces: usize,
    pub backup_path: PathBuf,
    pub block_len: usize,
    /// True if the 3D geometry block was also written from the `.dat`.
    pub geometry_installed: bool,
}

/// Why a patch was refused.
#[derive(Debug)]
pub enum PatchError {
    Io(String),
    BadExe(String),
    RoundTrip(String),
    Patch(String),
}

/// `exe` has the stock size and carries the car magic.
pub open spec fn exe_ok(exe: Seq<u8>) -> bool {
    exe.len() == EXE_LEN && le_u16(exe, CAR_GEOM_OFF as int) == CAR_MAGIC
}

/// `dat` is a whole car 3D block: the right length and the car magic.
pub open spec fn dat_ok(dat: Seq<u8>) -> bool {
    dat.len() == CAR_GEOM_LEN && le_u16(dat, 0) == CAR_MAGIC
}

/// Builds the exe-size error text with std's `format!`. No contract: nothing is claimed
/// of the text, which only ever travels inside an `Err`.
#[verifier::external_body]
fn msg_exe_size(len: usize, want: usize) -> String {
    format!("size {} != expected {}", len, want)
}

/// Builds the exe car-magic error text with std's `format!`. No contract: nothing is claimed
/// of the text, which only ever travels inside an `Err`.
#[verifier::external_body]
fn msg_exe_magic(magic: u16, want: u16) -> String {
    format!("car magic {magic:#06x} != expected {want:#06x}")
}

/// Builds the `.dat` size error text with std's `format!`. No contract: nothing is claimed
/// of the text, which only ever travels inside an `Err`.
#[verifier::external_body]
fn msg_dat_size(len: usize, want: usize) -> String {
    format!(".dat size {} != expected car block {}", len, want)
}

/// Builds the `.dat` magic error text with std's `format!`. No contract: nothing is claimed
/// of the text, which only ever travels inside an `Err`.
#[verifier::external_body]
fn msg_dat_magic(magic: u16, want: u16) -> String {
    format!(".dat magic {magic:#06x} != expected {want:#06x}")
}

/// Builds the read-back error text for a face absent after decoding with std's `format!`. No contract: nothing is claimed
/// of the text, which only ever travels inside an `Err`.
#[verifier::external_body]
fn msg_face_missing(idx: usize) -> String {
    format!("face {idx} missing")
}

/// Builds the read-back error text for a face absent from the table with std's `format!`. No contract: nothing is claimed
/// of the text, which only ever travels inside an `Err`.
#[verifier::external_body]
fn msg_table_face_missing(idx: usize) -> String {
    format!("table face {idx} missing")
}

/// Builds the read-back error text for a face whose vertices differ with std's `format!`. No contract: nothing is claimed
/// of the text, which only ever travels inside an `Err`.
#[verifier::external_body]
fn msg_face_mismatch(idx: usize) -> String {
    format!("face {idx} mismatch")
}

/// Validate that `exe` looks like a stock GP2.EXE we can patch.
pub fn verify_exe(exe: &[u8]) -> (res: Result<(), PatchError>)
    ensures
        res is Ok <==> exe_ok(exe@),
        res is Err ==> res matches Err(PatchError::BadExe(_)),
{
    if exe.len() != EXE_LEN {
        return Err(PatchError::BadExe(msg_exe_size(exe.len(), EXE_LEN)));
    }
    let magic = exe[CAR_GEOM_OFF] as u16 + (exe[CAR_GEOM_OFF + 1] as u16) * 256;
    if magic != CAR_MAGIC {
        return Err(PatchError::BadExe(msg_exe_magic(magic, CAR_MAGIC)));
    }
    Ok(())
}

/// Validate that `dat` is a car 3D block we can install (right length + Magic).
pub fn verify_dat(dat: &[u8]) -> (res: Result<(), PatchError>)
    ensures
        res is Ok <==> dat_ok(dat@),
        res is Err ==> res matches Err(PatchError::BadExe(_)),
{
    if dat.len() != CAR_GEOM_LEN {
        return Err(PatchError::BadExe(msg_dat_size(dat.len(), CAR_GEOM_LEN)));
    }
    let magic = dat[0] as u16 + (dat[1] as u16) * 256;
    if magic != CAR_MAGIC {
        return Err(PatchError::BadExe(msg_dat_magic(magic, CAR_MAGIC)));
    }
    Ok(())
}

/// `s` with `r` written over it starting at `at`.
pub open spec fn splice(s: Seq<u8>, at: int, r: Seq<u8>) -> Seq<u8> {
    s.subrange(0, at) + r + s.subrange(at + r.len(), s.len() as int)
}

/// The round-trip self-test: the re-decoded block decodes, and every patched
/// face is present in it and in `t` with identical vertices.
pub open spec fn self_test_ok(dec: Option<UvTableSpec>, t: UvTableSpec, idxs: Seq<usize>) -> bool {
    dec matches Some(d) && forall|i: int|
        0 <= i < idxs.len() ==> (face_of(d, #[trigger] idxs[i] as int) matches Some(got) && face_of(
            t,
            idxs[i] as int,
        ) matches Some(want) && got == want)
}

/// The outcome of patching an exe image.
pub enum PatchOutcome {
    /// The exe or the `.dat` failed validation.
    BadInput,
    /// A face could not be written into the block.
    BadPatch,
    /// The patched block did not read back as intended.
    BadRoundTrip,
    /// The patched image.
    Patched(Seq<u8>),
}

/// Patch an exe image: validate, optionally splice the `.dat` geometry,
/// decrypt the SVGA block, overwrite the listed faces in place, re-encrypt,
/// run the round-trip self-test, and splice the block back.
pub open spec fn spec_patch_exe(
    exe: Seq<u8>,
    t: UvTableSpec,
    dat: Option<Seq<u8>>,
    idxs: Seq<usize>,
) -> PatchOutcome {
    if !exe_ok(exe) || (dat matches Some(d) && !dat_ok(d)) {
        PatchOutcome::BadInput
    } else {
        let img = match dat {
            Some(d) => splice(exe, CAR_GEOM_OFF as int, d),
            None => exe,
        };
        let block = jam_apply(img.subrange(SVGA_FILE_OFF as int, SVGA_FILE_OFF + SVGA_LEN));
        let (b2, ok) = patch_all_from(block, t, idxs, 0);
        if !ok {
            PatchOutcome::BadPatch
        } else if !self_test_ok(spec_decode(b2), t, idxs) {
            PatchOutcome::BadRoundTrip
        } else {
            PatchOutcome::Patched(splice(img, SVGA_FILE_OFF as int, jam_apply(b2)))
        }
    }
}

/// Copy `src` over `dst[at..at + src.len()]`.
fn splice_into(dst: &mut Vec<u8>, at: usize, src: &[u8])
    requires
        at + src@.len() <= old(dst)@.len(),
    ensures
        final(dst)@ == splice(old(dst)@, at as int, src@),
{
    let ghost d0 = dst@;
    let dl = dst.len();
    let n = src.len();
    let mut k: usize = 0;
    while k < n
        invariant
            n == src@.len(),
            k <= n,
            at + n <= d0.len(),
            dl == d0.len(),
            dst@.len() == d0.len(),
            forall|p: int| 0 <= p < at || at + k <= p < d0.len() ==> dst@[p] == d0[p],
            forall|p: int| at <= p < at + k ==> dst@[p] == src@[p - at],
        decreases n - k,
    {
        dst.set(at + k, src[k]);
        k = k + 1;
    }
    assert(dst@ =~= splice(d0, at as int, src@));
}

/// Whether two vertex lists are equal.
fn same_verts(a: &crate::uvtable::FaceUv, b: &crate::uvtable::FaceUv) -> (r: bool)
    ensures
        r == (a@ == b@),
{
    if a.verts.len() != b.verts.len() {
        return false;
    }
    let mut k: usize = 0;
    while k < a.verts.len()
        invariant
            k <= a.verts@.len(),
            a.verts@.len() == b.verts@.len(),
            forall|j: int| 0 <= j < k ==> a.verts@[j] == b.verts@[j],
        decreases a.verts@.len() - k,
    {
        if a.verts[k] != b.verts[k] {
            return false;
        }
        k = k + 1;
    }
    assert(a@ =~= b@);
    true
}

/// Patch an exe image in memory: always update the SVGA UV table in place;
/// if `geom_dat` is `Some`, also install that car 3D block at `CAR_GEOM_OFF`
/// (a plain byte splice). Both regions are non-overlapping. The patched
/// block is checked by decrypting and decoding it back before the image is
/// returned.
pub fn patch_exe(
    exe: &[u8],
    table: &UvTable,
    geom_dat: Option<&[u8]>,
    body_faces: &[usize],
) -> (res: Result<Vec<u8>, PatchError>)
    ensures
        match spec_patch_exe(
            exe@,
            table@,
            match geom_dat {
                Some(d) => Some(d@),
                None => None,
            },
            body_faces@,
        ) {
            PatchOutcome::BadInput => res matches Err(PatchError::BadExe(_)),
            PatchOutcome::BadPatch => res matches Err(PatchError::Patch(_)),
            PatchOutcome::BadRoundTrip => res matches Err(PatchError::RoundTrip(_)),
            PatchOutcome::Patched(img) => res matches Ok(v) && v@ == img,
        },
{
    // 1. verify the exe.
    match verify_exe(exe) {
        Ok(()) => {},
        Err(e) => return Err(e),
    }
    let mut img: Vec<u8> = Vec::new();
    let mut k: usize = 0;
    while k < exe.len()
        invariant
            k <= exe@.len(),
            img@ == exe@.subrange(0, k as int),
        decreases exe@.len() - k,
    {
        img.push(exe[k]);
        k = k + 1;
        assert(img@ =~= exe@.subrange(0, k as int));
    }
    assert(img@ =~= exe@);
    // 2. optional geometry block: validate, then splice the .dat in.
    match geom_dat {
        Some(dat) => {
            match verify_dat(dat) {
                Ok(()) => {},
                Err(e) => return Err(e),
            }
            splice_into(&mut img, CAR_GEOM_OFF, dat);
        },
        None => {},
    }
    let ghost img1 = img@;
    // 3. slice + decrypt the UV block.
    let mut block: Vec<u8> = Vec::new();
    let mut k: usize = 0;
    while k < SVGA_LEN
        invariant
            k <= SVGA_LEN,
            img@ == img1,
            img1.len() == EXE_LEN,
            block@ == img1.subrange(SVGA_FILE_OFF as int, SVGA_FILE_OFF + k),
        decreases SVGA_LEN - k,
    {
        block.push(img[SVGA_FILE_OFF + k]);
        k = k + 1;
        assert(block@ =~= img1.subrange(SVGA_FILE_OFF as int, SVGA_FILE_OFF + k));
    }
    jam_xor(block.as_mut_slice());
    let ghost dec_block = block@;
    // 4. edit (u,v) in place.
    match patch_block_uv(block.as_mut_slice(), table, body_faces) {
        Ok(()) => {},
        Err(e) => return Err(PatchError::Patch(e)),
    }
    let ghost b2 = block@;
    proof {
        lemma_patch_all_len(dec_block, table@, body_faces@, 0);
    }
    // 5. re-encrypt.
    jam_xor(block.as_mut_slice());
    // 6. round-trip self-test: decrypt a clone and confirm what decode reads.
    let mut chk: Vec<u8> = Vec::new();
    let mut k: usize = 0;
    while k < block.len()
        invariant
            k <= block@.len(),
            chk@ == block@.subrange(0, k as int),
        decreases block@.len() - k,
    {
        chk.push(block[k]);
        k = k + 1;
        assert(chk@ =~= block@.subrange(0, k as int));
    }
    assert(chk@ =~= block@);
    jam_xor(chk.as_mut_slice());
    proof {
        lemma_jam_involution(b2);
    }
    assert(chk@ == b2);
    let decoded = match decode(chk.as_slice()) {
        Some(d) => d,
        None => return Err(PatchError::RoundTrip("decode failed".to_owned())),
    };
    let ghost datv = match geom_dat {
        Some(d) => Some(d@),
        None => None::<Seq<u8>>,
    };
    let ghost outcome = spec_patch_exe(exe@, table@, datv, body_faces@);
    assert(outcome == (if self_test_ok(Some(decoded@), table@, body_faces@) {
        PatchOutcome::Patched(splice(img1, SVGA_FILE_OFF as int, jam_apply(b2)))
    } else {
        PatchOutcome::BadRoundTrip
    }));
    let mut i: usize = 0;
    while i < body_faces.len()
        invariant
            i <= body_faces@.len(),
            outcome == spec_patch_exe(exe@, table@, datv, body_faces@),
            datv == (match geom_dat {
                Some(d) => Some(d@),
                None => None::<Seq<u8>>,
            }),
            outcome == (if self_test_ok(Some(decoded@), table@, body_faces@) {
                PatchOutcome::Patched(splice(img1, SVGA_FILE_OFF as int, jam_apply(b2)))
            } else {
                PatchOutcome::BadRoundTrip
            }),
            forall|j: int|
                0 <= j < i ==> (face_of(decoded@, #[trigger] body_faces@[j] as int) matches Some(
                    got,
                ) && face_of(table@, body_faces@[j] as int) matches Some(want) && got == want),
        decreases body_faces@.len() - i,
    {
        let idx = body_faces[i];
        let got = match decoded.face(idx) {
            Some(g) => g,
            None => return Err(PatchError::RoundTrip(msg_face_missing(idx))),
        };
        let want = match table.face(idx) {
            Some(w) => w,
            None => return Err(PatchError::RoundTrip(msg_table_face_missing(idx))),
        };
        if !same_verts(got, want) {
            return Err(PatchError::RoundTrip(msg_face_mismatch(idx)));
        }
        i = i + 1;
    }
    // 8. splice the UV block back in.
    splice_into(&mut img, SVGA_FILE_OFF, block.as_slice());
    Ok(img)
}

/// Patch only the SVGA UV block of an exe image (no geometry install).
pub fn patch_svga(exe: &[u8], table: &UvTable, body_faces: &[usize]) -> (res: Result<
    Vec<u8>,
    PatchError,
>)
    ensures
        match spec_patch_exe(exe@, table@, None, body_faces@) {
            PatchOutcome::BadInput => res matches Err(PatchError::BadExe(_)),
            PatchOutcome::BadPatch => res matches Err(PatchError::Patch(_)),
            PatchOutcome::BadRoundTrip => res matches Err(PatchError::RoundTrip(_)),
            PatchOutcome::Patched(img) => res matches Ok(v) && v@ == img,
        },
{
    patch_exe(exe, table, None, body_faces)
}

/// A patched image has the exe's size, and every byte outside the SVGA UV
/// block (and, when a `.dat` is installed, outside the car geometry block)
/// is the exe's own byte.
pub proof fn lemma_patch_keeps_rest(
    exe: Seq<u8>,
    t: UvTableSpec,
    dat: Option<Seq<u8>>,
    idxs: Seq<usize>,
    p: int,
)
    requires
        spec_patch_exe(exe, t, dat, idxs) is Patched,
        0 <= p < exe.len(),
        !(SVGA_FILE_OFF <= p < SVGA_FILE_OFF + SVGA_LEN),
        dat is Some ==> !(CAR_GEOM_OFF <= p < CAR_GEOM_OFF + CAR_GEOM_LEN),
    ensures
        spec_patch_exe(exe, t, dat, idxs)->Patched_0.len() == exe.len(),
        spec_patch_exe(exe, t, dat, idxs)->Patched_0[p] == exe[p],
{
    let img = match dat {
        Some(d) => splice(exe, CAR_GEOM_OFF as int, d),
        None => exe,
    };
    let block = jam_apply(img.subrange(SVGA_FILE_OFF as int, SVGA_FILE_OFF + SVGA_LEN));
    lemma_patch_all_len(block, t, idxs, 0);
    let b2 = patch_all_from(block, t, idxs, 0).0;
    assert(jam_apply(b2).len() == SVGA_LEN);
    let out = splice(img, SVGA_FILE_OFF as int, jam_apply(b2));
    assert(img.len() == exe.len());
    assert(out.len() == exe.len());
    assert(out[p] == img[p]);
    if dat is Some {
        assert(img[p] == exe[p]);
    }
}

/// Reading the SVGA block back out of a patched image (decrypting and
/// decoding it) gives, for every patched face, exactly the table's vertices.
pub proof fn lemma_patch_reads_back(
    exe: Seq<u8>,
    t: UvTableSpec,
    dat: Option<Seq<u8>>,
    idxs: Seq<usize>,
    i: int,
)
    requires
        spec_patch_exe(exe, t, dat, idxs) is Patched,
        0 <= i < idxs.len(),
    ensures
        ({
            let img = spec_patch_exe(exe, t, dat, idxs)->Patched_0;
            let back = spec_decode(
                jam_apply(img.subrange(SVGA_FILE_OFF as int, SVGA_FILE_OFF + SVGA_LEN)),
            );
            &&& back is Some
            &&& face_of(back->0, idxs[i] as int) is Some
            &&& face_of(back->0, idxs[i] as int) == face_of(t, idxs[i] as int)
        }),
{
    let img0 = match dat {
        Some(d) => splice(exe, CAR_GEOM_OFF as int, d),
        None => exe,
    };
    let block = jam_apply(img0.subrange(SVGA_FILE_OFF as int, SVGA_FILE_OFF + SVGA_LEN));
    lemma_patch_all_len(block, t, idxs, 0);
    let b2 = patch_all_from(block, t, idxs, 0).0;
    let img = splice(img0, SVGA_FILE_OFF as int, jam_apply(b2));
    assert(img0.len() == exe.len());
    assert(img.subrange(SVGA_FILE_OFF as int, SVGA_FILE_OFF + SVGA_LEN) =~= jam_apply(b2));
    lemma_jam_involution(b2);
    assert(self_test_ok(spec_decode(b2), t, idxs));
    assert(face_of(spec_decode(b2)->0, idxs[i] as int) is Some);
}

/// The decrypted SVGA block of an image (after the optional `.dat` splice).
pub open spec fn svga_of(exe: Seq<u8>, dat: Option<Seq<u8>>) -> Seq<u8> {
    let img = match dat {
        Some(d) => splice(exe, CAR_GEOM_OFF as int, d),
        None => exe,
    };
    jam_apply(img.subrange(SVGA_FILE_OFF as int, SVGA_FILE_OFF + SVGA_LEN))
}

/// A valid exe whose SVGA block decodes with a compact, non-overlapping
/// layout, patched with a table of that layout (listed faces that share an
/// entry getting equal vertices), always yields a patched image: the
/// in-place edit and its read-back self-test cannot fail.
pub proof fn lemma_patch_exe_succeeds(
    exe: Seq<u8>,
    t: UvTableSpec,
    dat: Option<Seq<u8>>,
    idxs: Seq<usize>,
)
    requires
        exe_ok(exe),
        dat matches Some(d) ==> dat_ok(d),
        crate::inplace::readback_ok(svga_of(exe, dat), t, idxs),
    ensures
        spec_patch_exe(exe, t, dat, idxs) is Patched,
{
    let block = svga_of(exe, dat);
    let (b2, ok) = patch_all_from(block, t, idxs, 0);
    if idxs.len() > 0 {
        crate::inplace::lemma_patch_block_reads_back(block, t, idxs, 0);
    } else {
        assert(patch_all_from(block, t, idxs, 0) == (block, true));
        crate::inplace::lemma_patch_block_keeps_others(block, t, idxs, 0);
    }
    assert(ok);
    assert(spec_decode(b2) is Some);
    assert forall|i: int| 0 <= i < idxs.len() implies (face_of(
        spec_decode(b2)->0,
        #[trigger] idxs[i] as int,
    ) matches Some(got) && face_of(t, idxs[i] as int) matches Some(want) && got == want) by {
        crate::inplace::lemma_patch_block_reads_back(block, t, idxs, i);
    }
    assert(self_test_ok(spec_decode(b2), t, idxs));
}

} // verus!
