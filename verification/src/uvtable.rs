//! GP2's SVGA per-face UV table (`dword_49DFFC`).
//!
//! Format (decrypted): `base = u32_le[0]`; an offset table of `u16` per face
//! lives at `base`; `nfaces = min_nonzero_offset / 2`. For each face,
//! `off = u16[base + face*2]`; if `off == 0` the face is absent; otherwise the
//! entry at `base + off` is `[u16 count][ (u16 u, u16 v, u16 vert_ref) * (count/4) ]`.
//! Most faces share a single "default" entry (the offset value used by the
//! most faces).

use vstd::prelude::*;
use crate::le::{le_u16, le_u32, push_u16, u16_bytes, u32_bytes};
use crate::jam::{jam_xor, jam_apply};
use crate::model::{FaceModel, FaceModelSpec};
use crate::unwrap::{FaceCoords, Unwrap, first_from};

verus! {

/// One UV vertex: atlas texel `(u, v)` and the `.dat` vertex reference.
#[derive(Clone, Copy, Debug, PartialEq, Eq, Structural)]
pub struct UvVert {
    pub u: u16,
    pub v: u16,
    pub vert_ref: u16,
}

/// The UV entry of one face: its vertices in drawing order.
#[derive(Clone, Debug, PartialEq, Eq)]
pub struct FaceUv {
    pub verts: Vec<UvVert>,
}

impl View for FaceUv {
    type V = Seq<UvVert>;

    open spec fn view(&self) -> Seq<UvVert> {
        self.verts@
    }
}

/// A present face slot: its raw offset and its entry.
pub type SlotSpec = Option<(u16, Seq<UvVert>)>;

/// Mathematical value of a [`UvTable`]: slot `i` is face `i` (absent or
/// `(offset, vertices)`).
pub struct UvTableSpec {
    pub base: usize,
    pub slots: Seq<SlotSpec>,
    pub default_offset: u16,
}

/// A decoded SVGA UV table.
#[derive(Clone, Debug)]
pub struct UvTable {
    pub base: usize,
    slots: Vec<Option<(u16, FaceUv)>>,
    default_offset: u16,
}

pub open spec fn slot_view(s: Option<(u16, FaceUv)>) -> SlotSpec {
    match s {
        None => None,
        Some((o, f)) => Some((o, f@)),
    }
}

impl View for UvTable {
    type V = UvTableSpec;

    closed spec fn view(&self) -> UvTableSpec {
        UvTableSpec {
            base: self.base,
            slots: self.slots@.map_values(|s: Option<(u16, FaceUv)>| slot_view(s)),
            default_offset: self.default_offset,
        }
    }
}

fn u16le(b: &[u8], o: usize) -> (r: u16)
    requires
        o + 1 < b@.len(),
    ensures
        r == le_u16(b@, o as int),
{
    b[o] as u16 + (b[o + 1] as u16) * 256
}

fn u32le(b: &[u8], o: usize) -> (r: u32)
    requires
        o + 3 < b@.len(),
    ensures
        r == le_u32(b@, o as int),
{
    b[o] as u32 + (b[o + 1] as u32) * 256 + (b[o + 2] as u32) * 0x1_0000 + (b[o + 3] as u32)
        * 0x100_0000
}

/// Scan the offset table from slot `i` with running minimum nonzero offset
/// `m`: the table ends where the lowest-offset entry begins. `None` if the
/// scan runs off the block.
pub open spec fn scan_min(d: Seq<u8>, base: int, i: int, m: int) -> Option<int>
    decreases d.len() - base - 2 * i,
{
    let o = base + 2 * i;
    if i < 0 || o + 2 > d.len() {
        None
    } else if 2 * i >= m {
        Some(m)
    } else {
        let off = le_u16(d, o);
        scan_min(d, base, i + 1, if off != 0 && off < m { off } else { m })
    }
}

/// The "nothing found yet" sentinel of the scan.
pub open spec fn no_offset() -> int {
    usize::MAX as int
}

/// The vertices of the entry at `base + off`, if it fits the block.
pub open spec fn entry_at(d: Seq<u8>, base: int, off: int) -> Option<Seq<UvVert>> {
    let ent = base + off;
    if ent + 2 > d.len() {
        None
    } else {
        let nv = le_u16(d, ent) / 4;
        if ent + 2 + nv * 6 > d.len() {
            None
        } else {
            Some(
                Seq::new(
                    nv as nat,
                    |k: int|
                        UvVert {
                            u: le_u16(d, ent + 2 + 6 * k) as u16,
                            v: le_u16(d, ent + 2 + 6 * k + 2) as u16,
                            vert_ref: le_u16(d, ent + 2 + 6 * k + 4) as u16,
                        },
                ),
            )
        }
    }
}

/// Slots `0..k` decoded from the offset table at `base`.
pub open spec fn slots_upto(d: Seq<u8>, base: int, k: int) -> Option<Seq<SlotSpec>>
    decreases k,
{
    if k <= 0 {
        Some(Seq::empty())
    } else {
        match slots_upto(d, base, k - 1) {
            None => None,
            Some(s) => {
                let off = le_u16(d, base + 2 * (k - 1));
                if off == 0 {
                    Some(s.push(None))
                } else {
                    match entry_at(d, base, off) {
                        None => None,
                        Some(vs) => Some(s.push(Some((off as u16, vs)))),
                    }
                }
            },
        }
    }
}

/// Number of present slots among `slots[..k]` whose offset is `o`.
pub open spec fn count_off(slots: Seq<SlotSpec>, o: int, k: int) -> nat
    decreases k,
{
    if k <= 0 {
        0
    } else {
        count_off(slots, o, k - 1) + (match slots[k - 1] {
            Some((off, _)) => if off == o { 1nat } else { 0nat },
            None => 0nat,
        })
    }
}

/// Walk offsets `o..65536` ascending, keeping the first offset with the
/// strictly largest use count.
pub open spec fn best_from(slots: Seq<SlotSpec>, o: int, bo: int, bc: int) -> (int, int)
    decreases 0x1_0000 - o,
{
    if o >= 0x1_0000 {
        (bo, bc)
    } else {
        let c = count_off(slots, o, slots.len() as int) as int;
        if c > bc {
            best_from(slots, o + 1, o, c)
        } else {
            best_from(slots, o + 1, bo, bc)
        }
    }
}

/// The offset shared by the most faces (smallest on ties); 0 when no offset
/// is shared by two or more faces.
pub open spec fn default_of(slots: Seq<SlotSpec>) -> u16 {
    let (bo, bc) = best_from(slots, 0, 0, 0);
    if bc <= 1 {
        0
    } else {
        bo as u16
    }
}

/// What `best_from` keeps after scanning offsets below `o`: every count seen
/// is at most `bc`, and when `bc > 0`, `bo` is the smallest offset with that
/// count.
pub open spec fn best_so_far(slots: Seq<SlotSpec>, o: int, bo: int, bc: int) -> bool {
    &&& bc >= 0
    &&& forall|p: int| 0 <= p < o ==> #[trigger] count_off(slots, p, slots.len() as int) <= bc
    &&& bc > 0 ==> 0 <= bo < o && count_off(slots, bo, slots.len() as int) == bc && forall|p: int|
        0 <= p < bo ==> #[trigger] count_off(slots, p, slots.len() as int) < bc
}

proof fn lemma_best_from(slots: Seq<SlotSpec>, o: int, bo: int, bc: int)
    requires
        0 <= o <= 0x1_0000,
        best_so_far(slots, o, bo, bc),
    ensures
        best_so_far(slots, 0x1_0000, best_from(slots, o, bo, bc).0, best_from(slots, o, bo, bc).1),
    decreases 0x1_0000 - o,
{
    if o < 0x1_0000 {
        let c = count_off(slots, o, slots.len() as int) as int;
        if c > bc {
            lemma_best_from(slots, o + 1, o, c);
        } else {
            lemma_best_from(slots, o + 1, bo, bc);
        }
    }
}

/// The default offset is the offset that most present faces use, the
/// smallest one on ties, provided some offset is used by two or more faces;
/// otherwise it is 0.
pub proof fn lemma_default_of(slots: Seq<SlotSpec>)
    ensures
        (forall|o: int| 0 <= o < 0x1_0000 ==> #[trigger] count_off(slots, o, slots.len() as int) <= 1)
            ==> default_of(slots) == 0,
        (exists|o: int| 0 <= o < 0x1_0000 && #[trigger] count_off(slots, o, slots.len() as int) >= 2)
            ==> {
            let d = default_of(slots) as int;
            &&& count_off(slots, d, slots.len() as int) >= 2
            &&& forall|o: int|
                0 <= o < 0x1_0000 ==> #[trigger] count_off(slots, o, slots.len() as int)
                    <= count_off(slots, d, slots.len() as int) && (count_off(slots, o, slots.len() as int)
                    == count_off(slots, d, slots.len() as int) ==> d <= o)
        },
{
    lemma_best_from(slots, 0, 0, 0);
    let (bo, bc) = best_from(slots, 0, 0, 0);
    if exists|o: int| 0 <= o < 0x1_0000 && #[trigger] count_off(slots, o, slots.len() as int) >= 2 {
        let o = choose|o: int| 0 <= o < 0x1_0000 && #[trigger] count_off(slots, o, slots.len() as int) >= 2;
        assert(count_off(slots, o, slots.len() as int) <= bc);
        assert(default_of(slots) as int == bo);
    }
}

/// The table a decrypted block decodes to.
pub open spec fn spec_decode(d: Seq<u8>) -> Option<UvTableSpec> {
    if d.len() < 4 {
        None
    } else {
        let base = le_u32(d, 0);
        match scan_min(d, base, 0, no_offset()) {
            None => None,
            Some(m) => if m == no_offset() || m % 2 != 0 {
                None
            } else {
                match slots_upto(d, base, m / 2) {
                    None => None,
                    Some(slots) => Some(
                        UvTableSpec {
                            base: base as usize,
                            slots,
                            default_offset: default_of(slots),
                        },
                    ),
                }
            },
        }
    }
}

pub(crate) proof fn lemma_scan_min_bounds(d: Seq<u8>, base: int, i: int, m: int)
    requires
        0 <= i,
        2 * i < m,
    ensures
        scan_min(d, base, i, m) matches Some(r) ==> r <= m && base + r + 2 <= d.len(),
    decreases d.len() - base - 2 * i,
{
    let o = base + 2 * i;
    if o + 2 <= d.len() && 2 * i < m {
        let off = le_u16(d, o);
        let m2 = if off != 0 && off < m {
            off
        } else {
            m
        };
        if 2 * (i + 1) < m2 {
            lemma_scan_min_bounds(d, base, i + 1, m2);
        }
    }
}

pub(crate) proof fn lemma_slots_upto_len(d: Seq<u8>, base: int, k: int)
    requires
        0 <= k,
    ensures
        slots_upto(d, base, k) matches Some(s) ==> s.len() == k,
    decreases k,
{
    if k > 0 {
        lemma_slots_upto_len(d, base, k - 1);
    }
}

proof fn lemma_slots_none_stays(d: Seq<u8>, base: int, k: int, n: int)
    requires
        0 <= k <= n,
        slots_upto(d, base, k) is None,
    ensures
        slots_upto(d, base, n) is None,
    decreases n - k,
{
    if k < n {
        lemma_slots_none_stays(d, base, k, n - 1);
    }
}

/// Decode one entry at `ent` (its vertices), if it fits the block.
fn decode_entry(dec: &[u8], base: u64, off: u16) -> (r: Option<FaceUv>)
    requires
        base <= 0xffff_ffff,
    ensures
        match r {
            Some(f) => entry_at(dec@, base as int, off as int) == Some(f@) && f@.len() < 0x1_0000,
            None => entry_at(dec@, base as int, off as int) is None,
        },
{
    let ulen = dec.len();
    let len = ulen as u64;
    let ent = base + off as u64;
    if ent + 2 > len {
        return None;
    }
    let count = u16le(dec, ent as usize) as u64;
    let nv = count / 4;
    if ent + 2 + nv * 6 > len {
        return None;
    }
    let ghost want = entry_at(dec@, base as int, off as int)->0;
    let mut verts: Vec<UvVert> = Vec::new();
    let mut v: u64 = 0;
    while v < nv
        invariant
            v <= nv,
            len == dec@.len(),
            len <= usize::MAX,
            ent + 2 + nv * 6 <= len,
            want.len() == nv,
            nv == le_u16(dec@, ent as int) / 4,
            ent == base + off,
            want == entry_at(dec@, base as int, off as int)->0,
            entry_at(dec@, base as int, off as int) is Some,
            verts@ == want.subrange(0, v as int),
        decreases nv - v,
    {
        assert(v * 6 + 6 <= nv * 6) by (nonlinear_arith)
            requires
                v < nv,
        ;
        let p = (ent + 2 + v * 6) as usize;
        let uv = UvVert { u: u16le(dec, p), v: u16le(dec, p + 2), vert_ref: u16le(dec, p + 4) };
        assert(uv == want[v as int]);
        verts.push(uv);
        v = v + 1;
        assert(verts@ =~= want.subrange(0, v as int));
    }
    assert(verts@ =~= want);
    Some(FaceUv { verts })
}

/// Decode a decrypted SVGA block into a [`UvTable`].
pub fn decode(dec: &[u8]) -> (res: Option<UvTable>)
    ensures
        match res {
            Some(t) => spec_decode(dec@) == Some(t@) && t.wf(),
            None => spec_decode(dec@) is None,
        },
{
    let len = dec.len();
    if len < 4 {
        return None;
    }
    let base = u32le(dec, 0) as u64;
    let len64 = len as u64;
    // Find nfaces: scan the offset table tracking the minimum nonzero offset;
    // the table ends where the first (lowest-offset) entry begins.
    let mut min_nonzero: u64 = usize::MAX as u64;
    let mut i: u64 = 0;
    proof {
        lemma_scan_min_bounds(dec@, base as int, 0, no_offset());
    }
    loop
        invariant
            len == dec@.len(),
            len64 == len,
            len64 <= usize::MAX,
            base <= 0xffff_ffff,
            base == le_u32(dec@, 0),
            2 * i <= len64 + 2,
            min_nonzero <= usize::MAX,
            min_nonzero == usize::MAX || min_nonzero <= 0xffff,
            scan_min(dec@, base as int, 0, no_offset()) == scan_min(
                dec@,
                base as int,
                i as int,
                min_nonzero as int,
            ),
        ensures
            scan_min(dec@, base as int, 0, no_offset()) == Some(min_nonzero as int),
            min_nonzero <= usize::MAX,
            min_nonzero == usize::MAX || min_nonzero <= 0xffff,
        decreases len64 + 2 - 2 * i,
    {
        if (base as u128) + (i as u128) * 2 + 2 > len64 as u128 {
            return None;
        }
        let o = base + i * 2;
        // Stop once we've reached the start of the lowest entry.
        if i * 2 >= min_nonzero {
            break;
        }
        let off = u16le(dec, o as usize) as u64;
        if off != 0 && off < min_nonzero {
            min_nonzero = off;
        }
        i = i + 1;
    }
    if min_nonzero == usize::MAX as u64 || min_nonzero % 2 != 0 {
        return None;
    }
    let nfaces = min_nonzero / 2;
    proof {
        lemma_scan_min_bounds(dec@, base as int, 0, no_offset());
    }
    assert(base + min_nonzero + 2 <= len64);
    let mut slots: Vec<Option<(u16, FaceUv)>> = Vec::new();
    let mut f: u64 = 0;
    while f < nfaces
        invariant
            f <= nfaces,
            nfaces <= 0xffff,
            dec@.len() >= 4,
            base == le_u32(dec@, 0),
            scan_min(dec@, base as int, 0, no_offset()) == Some(min_nonzero as int),
            min_nonzero != usize::MAX,
            min_nonzero % 2 == 0,
            slots@.len() == f,
            nfaces * 2 == min_nonzero,
            base + min_nonzero + 2 <= len64,
            len64 == dec@.len(),
            len64 <= usize::MAX,
            base <= 0xffff_ffff,
            slots_upto(dec@, base as int, f as int) == Some(
                slots@.map_values(|s: Option<(u16, FaceUv)>| slot_view(s)),
            ),
            forall|j: int|
                0 <= j < slots@.len() ==> (#[trigger] slots@[j] matches Some((_, fu))
                    ==> fu.verts@.len() < 0x1_0000),
        decreases nfaces - f,
    {
        let off = u16le(dec, (base + f * 2) as usize);
        let ghost before = slots@;
        if off == 0 {
            slots.push(None);
        } else {
            match decode_entry(dec, base, off) {
                None => {
                    proof {
                        assert(slots_upto(dec@, base as int, f + 1) is None);
                        lemma_slots_none_stays(dec@, base as int, f + 1, nfaces as int);
                    }
                    return None;
                },
                Some(fu) => {
                    slots.push(Some((off, fu)));
                },
            }
        }
        assert(slots@.map_values(|s: Option<(u16, FaceUv)>| slot_view(s)) =~= before.map_values(
            |s: Option<(u16, FaceUv)>| slot_view(s),
        ).push(slot_view(slots@[slots@.len() - 1])));
        f = f + 1;
    }
    let ghost sv = slots@.map_values(|s: Option<(u16, FaceUv)>| slot_view(s));
    let default_offset = most_shared_offset(&slots);
    let t = UvTable { base: base as usize, slots, default_offset };
    assert(t@.slots == sv);
    assert forall|i: int| 0 <= i < t@.slots.len() implies (#[trigger] t@.slots[i] matches Some(
        (_, vs),
    ) ==> vs.len() < 0x1_0000) by {
        assert(t@.slots[i] == slot_view(t.slots@[i]));
    }
    Some(t)
}

/// The offset value shared by the most faces (smallest on ties), or 0 when
/// none is shared by two or more.
fn most_shared_offset(slots: &Vec<Option<(u16, FaceUv)>>) -> (r: u16)
    requires
        slots@.len() < 0x1_0000_0000,
    ensures
        r == default_of(slots@.map_values(|s: Option<(u16, FaceUv)>| slot_view(s))),
{
    let ghost sv = slots@.map_values(|s: Option<(u16, FaceUv)>| slot_view(s));
    let mut hist: Vec<u64> = Vec::new();
    let mut o: usize = 0;
    while o < 0x1_0000
        invariant
            o <= 0x1_0000,
            hist@.len() == o,
            forall|j: int| 0 <= j < o ==> hist@[j] == 0,
        decreases 0x1_0000 - o,
    {
        hist.push(0);
        o = o + 1;
    }
    let n = slots.len();
    let mut k: usize = 0;
    while k < n
        invariant
            n == slots@.len(),
            n < 0x1_0000_0000,
            k <= n,
            sv == slots@.map_values(|s: Option<(u16, FaceUv)>| slot_view(s)),
            hist@.len() == 0x1_0000,
            forall|j: int| 0 <= j < 0x1_0000 ==> hist@[j] == count_off(sv, j, k as int),
            forall|j: int| 0 <= j < 0x1_0000 ==> hist@[j] <= k,
        decreases n - k,
    {
        match &slots[k] {
            Some((off, _)) => {
                let i = *off as usize;
                hist.set(i, hist[i] + 1);
            },
            None => {},
        }
        k = k + 1;
    }
    let mut best_o: u64 = 0;
    let mut best_c: u64 = 0;
    let mut o: u64 = 0;
    while o < 0x1_0000
        invariant
            o <= 0x1_0000,
            best_o < 0x1_0000,
            hist@.len() == 0x1_0000,
            forall|j: int| 0 <= j < 0x1_0000 ==> hist@[j] == count_off(sv, j, sv.len() as int),
            best_from(sv, 0, 0, 0) == best_from(sv, o as int, best_o as int, best_c as int),
        decreases 0x1_0000 - o,
    {
        let c = hist[o as usize];
        if c > best_c {
            best_c = c;
            best_o = o;
        }
        o = o + 1;
    }
    if best_c <= 1 {
        0
    } else {
        best_o as u16
    }
}

/// File offset of the SVGA UV block in GP2.EXE (IDA address + 0x63254).
pub const SVGA_FILE_OFF: usize = 0x4B_1250;

/// Length of the SVGA UV block.
pub const SVGA_LEN: usize = 11476;

/// The decrypted SVGA block of an exe image, if the image is long enough.
pub open spec fn svga_block(exe: Seq<u8>) -> Option<Seq<u8>> {
    if exe.len() < SVGA_FILE_OFF + SVGA_LEN {
        None
    } else {
        Some(jam_apply(exe.subrange(SVGA_FILE_OFF as int, SVGA_FILE_OFF + SVGA_LEN)))
    }
}

/// Copy `exe[from..from+n]` into a fresh vector.
fn copy_range(exe: &[u8], from: usize, n: usize) -> (r: Vec<u8>)
    requires
        from + n <= exe@.len(),
    ensures
        r@ == exe@.subrange(from as int, from + n),
{
    let mut out: Vec<u8> = Vec::new();
    let mut k: usize = 0;
    let elen = exe.len();
    while k < n
        invariant
            k <= n,
            elen == exe@.len(),
            from + n <= exe@.len(),
            out@ == exe@.subrange(from as int, from + k),
        decreases n - k,
    {
        out.push(exe[from + k]);
        k = k + 1;
        assert(out@ =~= exe@.subrange(from as int, from + k));
    }
    out
}

/// Slice the SVGA block out of GP2.EXE, decrypt it with JAM, and decode it.
pub fn read_svga_from_exe(exe: &[u8]) -> (res: Option<UvTable>)
    ensures
        match svga_block(exe@) {
            None => res is None,
            Some(block) => match res {
                Some(t) => spec_decode(block) == Some(t@) && t.wf(),
                None => spec_decode(block) is None,
            },
        },
{
    if exe.len() < SVGA_FILE_OFF + SVGA_LEN {
        return None;
    }
    let mut block = copy_range(exe, SVGA_FILE_OFF, SVGA_LEN);
    jam_xor(block.as_mut_slice());
    decode(block.as_slice())
}

/// The entry of face `idx`, if present.
pub open spec fn face_of(t: UvTableSpec, idx: int) -> Option<Seq<UvVert>> {
    if 0 <= idx < t.slots.len() {
        match t.slots[idx] {
            Some((_, vs)) => Some(vs),
            None => None,
        }
    } else {
        None
    }
}

/// Whether face `idx` uses the shared default entry.
pub open spec fn spec_is_default(t: UvTableSpec, idx: int) -> bool {
    0 <= idx < t.slots.len() && (match t.slots[idx] {
        Some((off, _)) => off == t.default_offset,
        None => false,
    })
}

/// Number of present slots among `slots[..k]`.
pub open spec fn count_present(slots: Seq<SlotSpec>, k: int) -> nat
    decreases k,
{
    if k <= 0 {
        0
    } else {
        count_present(slots, k - 1) + if slots[k - 1] is Some {
            1nat
        } else {
            0nat
        }
    }
}

/// Indices among `slots[..k]` of present faces whose offset differs from
/// `d`, ascending.
pub open spec fn real_upto(slots: Seq<SlotSpec>, d: u16, k: int) -> Seq<usize>
    decreases k,
{
    if k <= 0 {
        Seq::empty()
    } else {
        let prev = real_upto(slots, d, k - 1);
        match slots[k - 1] {
            Some((off, _)) => if off != d {
                prev.push((k - 1) as usize)
            } else {
                prev
            },
            None => prev,
        }
    }
}

/// The real (non-default) faces of a table, ascending.
pub open spec fn spec_real_faces(t: UvTableSpec) -> Seq<usize> {
    real_upto(t.slots, t.default_offset, t.slots.len() as int)
}

/// The real faces among `slots[..k]` are listed in ascending order, and a
/// face is listed exactly when its slot is present with a non-default offset.
proof fn lemma_real_upto(slots: Seq<SlotSpec>, d: u16, k: int)
    requires
        0 <= k <= slots.len(),
        slots.len() <= usize::MAX,
    ensures
        forall|j: int| 0 <= j < real_upto(slots, d, k).len() ==> #[trigger] real_upto(slots, d, k)[j] < k,
        forall|j1: int, j2: int|
            0 <= j1 < j2 < real_upto(slots, d, k).len() ==> real_upto(slots, d, k)[j1] < real_upto(
                slots,
                d,
                k,
            )[j2],
        forall|i: usize|
            real_upto(slots, d, k).contains(i) <==> (i < k && (#[trigger] slots[i as int] matches Some(
                (off, _),
            ) && off != d)),
    decreases k,
{
    if k > 0 {
        lemma_real_upto(slots, d, k - 1);
        let prev = real_upto(slots, d, k - 1);
        let cur = real_upto(slots, d, k);
        assert forall|i: usize| cur.contains(i) <==> (i < k && (#[trigger] slots[i as int] matches Some(
            (off, _),
        ) && off != d)) by {
            if cur.contains(i) {
                let j = choose|j: int| 0 <= j < cur.len() && cur[j] == i;
                if j < prev.len() {
                    assert(cur[j] == prev[j]);
                    assert(prev.contains(i));
                }
            }
            if i < k - 1 && (slots[i as int] matches Some((off, _)) && off != d) {
                assert(prev.contains(i));
                let j = choose|j: int| 0 <= j < prev.len() && prev[j] == i;
                assert(cur[j] == i);
            }
            if i == k - 1 && (slots[i as int] matches Some((off, _)) && off != d) {
                assert(cur[prev.len() as int] == i);
            }
        }
    }
}

/// Every present entry has fewer than 2^16 vertices (its count is a `u16`).
pub open spec fn spec_table_wf(t: UvTableSpec) -> bool {
    forall|i: int|
        0 <= i < t.slots.len() ==> (#[trigger] t.slots[i] matches Some((_, vs)) ==> vs.len()
            < 0x1_0000)
}

impl UvTable {
    /// Every present entry has fewer than 2^16 vertices; every table this
    /// crate produces satisfies it.
    pub open spec fn wf(&self) -> bool {
        spec_table_wf(self@)
    }

    /// Number of faces with an entry present in the table.
    pub fn faces_present(&self) -> (r: usize)
        ensures
            r == count_present(self@.slots, self@.slots.len() as int),
    {
        let mut n: usize = 0;
        let mut i: usize = 0;
        while i < self.slots.len()
            invariant
                i <= self.slots@.len(),
                n <= i,
                n == count_present(self@.slots, i as int),
            decreases self.slots@.len() - i,
        {
            assert(self@.slots[i as int] == slot_view(self.slots@[i as int]));
            if self.slots[i].is_some() {
                n = n + 1;
            }
            i = i + 1;
        }
        n
    }

    /// The UV entry for a face, if present.
    pub fn face(&self, idx: usize) -> (r: Option<&FaceUv>)
        ensures
            match r {
                Some(f) => face_of(self@, idx as int) == Some(f@),
                None => face_of(self@, idx as int) is None,
            },
    {
        if idx >= self.slots.len() {
            return None;
        }
        assert(self@.slots[idx as int] == slot_view(self.slots@[idx as int]));
        match &self.slots[idx] {
            Some((_, f)) => Some(f),
            None => None,
        }
    }

    /// Indices of "real" faces: those whose offset differs from the shared default.
    pub fn real_face_indices(&self) -> (r: Vec<usize>)
        ensures
            r@ == spec_real_faces(self@),
            forall|j1: int, j2: int| 0 <= j1 < j2 < r@.len() ==> r@[j1] < r@[j2],
            forall|i: usize|
                r@.contains(i) <==> (face_of(self@, i as int) is Some && !spec_is_default(
                    self@,
                    i as int,
                )),
    {
        let n = self.slots.len();
        proof {
            assert(self@.slots.len() == n);
            lemma_real_upto(self@.slots, self@.default_offset, n as int);
        }
        let mut out: Vec<usize> = Vec::new();
        let mut i: usize = 0;
        while i < self.slots.len()
            invariant
                i <= self.slots@.len(),
                out@ == real_upto(self@.slots, self@.default_offset, i as int),
            decreases self.slots@.len() - i,
        {
            assert(self@.slots[i as int] == slot_view(self.slots@[i as int]));
            match &self.slots[i] {
                Some((off, _)) => {
                    if *off != self.default_offset {
                        out.push(i);
                    }
                },
                None => {},
            }
            i = i + 1;
        }
        out
    }

    /// Whether a face uses the shared default entry.
    pub fn is_default(&self, idx: usize) -> (r: bool)
        ensures
            r == spec_is_default(self@, idx as int),
    {
        if idx >= self.slots.len() {
            return false;
        }
        assert(self@.slots[idx as int] == slot_view(self.slots@[idx as int]));
        match &self.slots[idx] {
            Some((off, _)) => *off == self.default_offset,
            None => false,
        }
    }

    /// The offset value shared by the most faces (0 if none is shared).
    pub fn default_offset(&self) -> (r: u16)
        ensures
            r == self@.default_offset,
    {
        self.default_offset
    }

    /// The real (non-default) faces with their entries, ascending by index.
    pub fn iter_real(&self) -> (r: Vec<(usize, &FaceUv)>)
        ensures
            r@.len() == spec_real_faces(self@).len(),
            forall|j: int|
                0 <= j < r@.len() ==> (#[trigger] r@[j]).0 == spec_real_faces(self@)[j] && face_of(
                    self@,
                    r@[j].0 as int,
                ) == Some(r@[j].1@),
    {
        let mut out: Vec<(usize, &FaceUv)> = Vec::new();
        let mut i: usize = 0;
        while i < self.slots.len()
            invariant
                i <= self.slots@.len(),
                out@.len() == real_upto(self@.slots, self@.default_offset, i as int).len(),
                forall|j: int|
                    0 <= j < out@.len() ==> (#[trigger] out@[j]).0 == real_upto(
                        self@.slots,
                        self@.default_offset,
                        i as int,
                    )[j] && face_of(self@, out@[j].0 as int) == Some(out@[j].1@),
            decreases self.slots@.len() - i,
        {
            assert(self@.slots[i as int] == slot_view(self.slots@[i as int]));
            match &self.slots[i] {
                Some((off, f)) => {
                    if *off != self.default_offset {
                        out.push((i, f));
                    }
                },
                None => {},
            }
            i = i + 1;
        }
        out
    }
}

/// Entry `vs` with each vertex's `(u, v)` replaced by the atlas coords `c`
/// (truncated to `u16`) and its `vert_ref` by `refs[k]` where present.
pub open spec fn patch_face(vs: Seq<UvVert>, c: Seq<[i32; 2]>, refs: Seq<u16>) -> Seq<UvVert> {
    Seq::new(
        vs.len(),
        |k: int|
            UvVert {
                u: c[k][0] as u16,
                v: c[k][1] as u16,
                vert_ref: if k < refs.len() {
                    refs[k]
                } else {
                    vs[k].vert_ref
                },
            },
    )
}

/// Slots after applying models `ms[..k]` in order: a model whose face has
/// unwrap coords and a present slot with the same vertex count gets
/// [`patch_face`]; all other slots are unchanged.
pub open spec fn patched_slots(
    slots: Seq<SlotSpec>,
    ms: Seq<FaceModelSpec>,
    faces: Seq<FaceCoords>,
    k: int,
) -> Seq<SlotSpec>
    decreases k,
{
    if k <= 0 {
        slots
    } else {
        let prev = patched_slots(slots, ms, faces, k - 1);
        let m = ms[k - 1];
        let idx = m.face_idx as int;
        match first_from(faces, m.face_idx, 0) {
            None => prev,
            Some(j) => {
                let c = faces[j].coords@;
                if 0 <= idx < prev.len() && (prev[idx] matches Some((off, vs)) && c.len()
                    == vs.len()) {
                    let (off, vs) = prev[idx]->0;
                    prev.update(idx, Some((off, patch_face(vs, c, m.vert_refs))))
                } else {
                    prev
                }
            },
        }
    }
}

/// The table [`patched_table`] builds.
pub open spec fn spec_patched(t: UvTableSpec, ms: Seq<FaceModelSpec>, faces: Seq<FaceCoords>) -> UvTableSpec {
    UvTableSpec {
        base: t.base,
        slots: patched_slots(t.slots, ms, faces, ms.len() as int),
        default_offset: t.default_offset,
    }
}

/// Two present slots with the same offset and vertex count.
pub open spec fn same_shape(a: SlotSpec, b: SlotSpec) -> bool {
    match (a, b) {
        (Some((o1, v1)), Some((o2, v2))) => o1 == o2 && v1.len() == v2.len(),
        _ => false,
    }
}

proof fn lemma_patched_slots_shape(
    slots: Seq<SlotSpec>,
    ms: Seq<FaceModelSpec>,
    faces: Seq<FaceCoords>,
    k: int,
)
    requires
        0 <= k <= ms.len(),
    ensures
        patched_slots(slots, ms, faces, k).len() == slots.len(),
        forall|i: int|
            0 <= i < slots.len() ==> (#[trigger] patched_slots(slots, ms, faces, k)[i] is Some
                <==> slots[i] is Some),
        forall|i: int|
            0 <= i < slots.len() && slots[i] is Some ==> same_shape(
                #[trigger] patched_slots(slots, ms, faces, k)[i],
                slots[i],
            ),
    decreases k,
{
    if k > 0 {
        lemma_patched_slots_shape(slots, ms, faces, k - 1);
    }
}

/// A patched table keeps the source table's layout: the same base and default
/// offset, the same faces present, and every present face keeps its offset
/// and its vertex count.
pub proof fn lemma_patched_table_shape(
    t: UvTableSpec,
    ms: Seq<FaceModelSpec>,
    faces: Seq<FaceCoords>,
    i: int,
)
    requires
        0 <= i < t.slots.len(),
    ensures
        spec_patched(t, ms, faces).base == t.base,
        spec_patched(t, ms, faces).default_offset == t.default_offset,
        spec_patched(t, ms, faces).slots.len() == t.slots.len(),
        spec_patched(t, ms, faces).slots[i] is Some <==> t.slots[i] is Some,
        t.slots[i] is Some ==> same_shape(spec_patched(t, ms, faces).slots[i], t.slots[i]),
{
    lemma_patched_slots_shape(t.slots, ms, faces, ms.len() as int);
}

/// The unwrap coords face `i` gets, when they match the entry's length.
pub open spec fn fitting_coords(slot: SlotSpec, faces: Seq<FaceCoords>, i: int) -> Option<Seq<[i32; 2]>> {
    match (slot, first_from(faces, i as usize, 0)) {
        (Some((_, vs)), Some(q)) => if faces[q].coords@.len() == vs.len() {
            Some(faces[q].coords@)
        } else {
            None
        },
        _ => None,
    }
}

proof fn lemma_patched_slot(
    slots: Seq<SlotSpec>,
    ms: Seq<FaceModelSpec>,
    faces: Seq<FaceCoords>,
    k: int,
    i: int,
)
    requires
        0 <= k <= ms.len(),
        0 <= i < slots.len(),
        i <= usize::MAX,
    ensures
        (forall|j: int| 0 <= j < k ==> #[trigger] ms[j].face_idx as int != i) || fitting_coords(
            slots[i],
            faces,
            i,
        ) is None ==> patched_slots(slots, ms, faces, k)[i] == slots[i],
        forall|j: int|
            0 <= j < k && ms[j].face_idx as int == i && fitting_coords(slots[i], faces, i) is Some
                && (forall|j2: int| 0 <= j2 < k && j2 != j ==> #[trigger] ms[j2].face_idx as int != i)
                ==> patched_slots(slots, ms, faces, k)[i] == Some(
                (
                    (slots[i]->0).0,
                    patch_face(
                        (slots[i]->0).1,
                        fitting_coords(slots[i], faces, i)->0,
                        #[trigger] ms[j].vert_refs,
                    ),
                ),
            ),
    decreases k,
{
    if k > 0 {
        lemma_patched_slot(slots, ms, faces, k - 1, i);
        lemma_patched_slots_shape(slots, ms, faces, k - 1);
        let m = ms[k - 1];
        let prev = patched_slots(slots, ms, faces, k - 1);
        if m.face_idx as int == i {
            assert(m.face_idx == i as usize);
        }
        assert forall|j: int|
            0 <= j < k && ms[j].face_idx as int == i && fitting_coords(slots[i], faces, i) is Some
                && (forall|j2: int| 0 <= j2 < k && j2 != j ==> #[trigger] ms[j2].face_idx as int != i)
                implies patched_slots(slots, ms, faces, k)[i] == Some(
            (
                (slots[i]->0).0,
                patch_face(
                    (slots[i]->0).1,
                    fitting_coords(slots[i], faces, i)->0,
                    #[trigger] ms[j].vert_refs,
                ),
            ),
        ) by {
            if j < k - 1 {
                assert(ms[k - 1].face_idx as int != i);
                assert(forall|j2: int| 0 <= j2 < k - 1 && j2 != j ==> #[trigger] ms[j2].face_idx as int != i);
            } else {
                assert(forall|j2: int| 0 <= j2 < k - 1 ==> #[trigger] ms[j2].face_idx as int != i);
                assert(prev[i] == slots[i]);
            }
        }
    }
}

/// What patching does to one face: a face that no model names, or whose
/// unwrap coords are missing or of another length, keeps its entry exactly
/// (in particular every non-body face on the shared default entry); a face
/// named by exactly one model, with coords of its entry's length, keeps its
/// offset and gets those coords as `(u, v)` and the model's `vert_refs`.
pub proof fn lemma_patched_face(t: UvTableSpec, ms: Seq<FaceModelSpec>, faces: Seq<FaceCoords>, i: int)
    requires
        0 <= i < t.slots.len(),
        t.slots.len() <= usize::MAX,
    ensures
        (forall|j: int| 0 <= j < ms.len() ==> #[trigger] ms[j].face_idx as int != i) || fitting_coords(
            t.slots[i],
            faces,
            i,
        ) is None ==> face_of(spec_patched(t, ms, faces), i) == face_of(t, i),
        forall|j: int|
            0 <= j < ms.len() && ms[j].face_idx as int == i && fitting_coords(t.slots[i], faces, i) is Some
                && (forall|j2: int| 0 <= j2 < ms.len() && j2 != j ==> #[trigger] ms[j2].face_idx as int != i)
                ==> face_of(spec_patched(t, ms, faces), i) == Some(
                patch_face(
                    face_of(t, i)->0,
                    fitting_coords(t.slots[i], faces, i)->0,
                    #[trigger] ms[j].vert_refs,
                ),
            ),
        forall|j: int|
            0 <= j < ms.len() && ms[j].face_idx as int == i && fitting_coords(t.slots[i], faces, i) is Some
                && (forall|j2: int| 0 <= j2 < ms.len() && j2 != j ==> #[trigger] ms[j2].face_idx as int != i)
                ==> ({
                let vs = face_of(t, i)->0;
                let c = fitting_coords(t.slots[i], faces, i)->0;
                let got = face_of(spec_patched(t, ms, faces), i)->0;
                &&& c.len() == vs.len()
                &&& got.len() == vs.len()
                &&& forall|k: int|
                    0 <= k < vs.len() ==> #[trigger] got[k].u == c[k][0] as u16 && got[k].v == c[k][1] as u16
                        && got[k].vert_ref == (if k < ms[j].vert_refs.len() {
                        ms[j].vert_refs[k]
                    } else {
                        vs[k].vert_ref
                    })
            }),
{
    lemma_patched_slot(t.slots, ms, faces, ms.len() as int, i);
    lemma_patched_slots_shape(t.slots, ms, faces, ms.len() as int);
    assert forall|j: int|
        0 <= j < ms.len() && ms[j].face_idx as int == i && fitting_coords(t.slots[i], faces, i) is Some
            && (forall|j2: int| 0 <= j2 < ms.len() && j2 != j ==> #[trigger] ms[j2].face_idx as int != i)
            implies ({
            let vs = face_of(t, i)->0;
            let c = fitting_coords(t.slots[i], faces, i)->0;
            let got = face_of(spec_patched(t, ms, faces), i)->0;
            &&& c.len() == vs.len()
            &&& got.len() == vs.len()
            &&& forall|k: int|
                0 <= k < vs.len() ==> #[trigger] got[k].u == c[k][0] as u16 && got[k].v == c[k][1] as u16
                    && got[k].vert_ref == (if k < ms[j].vert_refs.len() {
                    ms[j].vert_refs[k]
                } else {
                    vs[k].vert_ref
                })
        }) by {
        let vs = face_of(t, i)->0;
        let c = fitting_coords(t.slots[i], faces, i)->0;
        assert(face_of(spec_patched(t, ms, faces), i) == Some(patch_face(vs, c, ms[j].vert_refs)));
    }
}

fn copy_face(f: &FaceUv) -> (r: FaceUv)
    ensures
        r@ == f@,
{
    let mut verts: Vec<UvVert> = Vec::new();
    let mut k: usize = 0;
    while k < f.verts.len()
        invariant
            k <= f.verts@.len(),
            verts@ == f.verts@.subrange(0, k as int),
        decreases f.verts@.len() - k,
    {
        verts.push(f.verts[k]);
        k = k + 1;
        assert(verts@ =~= f.verts@.subrange(0, k as int));
    }
    assert(verts@ =~= f.verts@);
    FaceUv { verts }
}

impl UvTable {
    /// A copy of this table with the same mathematical value.
    fn duplicate(&self) -> (r: UvTable)
        ensures
            r@ == self@,
    {
        let mut slots: Vec<Option<(u16, FaceUv)>> = Vec::new();
        let mut i: usize = 0;
        while i < self.slots.len()
            invariant
                i <= self.slots@.len(),
                slots@.len() == i,
                forall|j: int|
                    0 <= j < i ==> slot_view(#[trigger] slots@[j]) == slot_view(self.slots@[j]),
            decreases self.slots@.len() - i,
        {
            match &self.slots[i] {
                None => slots.push(None),
                Some((off, f)) => slots.push(Some((*off, copy_face(f)))),
            }
            i = i + 1;
        }
        let r = UvTable { base: self.base, slots, default_offset: self.default_offset };
        assert(r@.slots =~= self@.slots);
        r
    }
}

/// Build a patched table: for each model's face (a body face) that has
/// unwrap coords and a present slot with the same vertex count, replace each
/// vertex's `(u,v)` with the unwrap's atlas coords and its `vert_ref` with
/// the model's `vert_refs` (the edge-walk value for recovered faces, the
/// original value otherwise). Order/count preserved; the base, the default
/// offset, which faces are present, every offset and count, and the entry of
/// every face no model names (the non-body faces on the default entry among
/// them) are left untouched.
pub fn patched_table(orig: &UvTable, models: &[FaceModel], uw: &Unwrap) -> (r: UvTable)
    ensures
        r@ == spec_patched(orig@, models@.map_values(|m: FaceModel| m@), uw.spec_faces()),
        orig.wf() ==> r.wf(),
        r@.base == orig@.base,
        r@.default_offset == orig@.default_offset,
        r@.slots.len() == orig@.slots.len(),
        forall|i: int|
            0 <= i < orig@.slots.len() ==> (#[trigger] r@.slots[i] is Some <==> orig@.slots[i] is Some)
                && (orig@.slots[i] is Some ==> same_shape(r@.slots[i], orig@.slots[i]))
                && spec_is_default(r@, i) == spec_is_default(orig@, i),
        forall|i: int|
            0 <= i < orig@.slots.len() && (forall|j: int|
                0 <= j < models@.len() ==> #[trigger] models@[j].face_idx as int != i)
                ==> #[trigger] face_of(r@, i) == face_of(orig@, i),
{
    let ghost ms = models@.map_values(|m: FaceModel| m@);
    let mut out = orig.duplicate();
    let mut i: usize = 0;
    while i < models.len()
        invariant
            i <= models@.len(),
            ms == models@.map_values(|m: FaceModel| m@),
            out.base == orig@.base,
            out.default_offset == orig@.default_offset,
            out@.slots == patched_slots(orig@.slots, ms, uw.spec_faces(), i as int),
        decreases models@.len() - i,
    {
        let m = &models[i];
        let idx = m.face_idx;
        let ghost prev = out@.slots;
        assert(ms[i as int] == m@);
        match uw.coords(idx) {
            None => {},
            Some(c) => {
                if idx < out.slots.len() {
                    assert(out@.slots[idx as int] == slot_view(out.slots@[idx as int]));
                    let upd: Option<(u16, FaceUv)> = match &out.slots[idx] {
                        Some((off, fu)) => {
                            if c.len() == fu.verts.len() {
                                let mut verts: Vec<UvVert> = Vec::new();
                                let mut k: usize = 0;
                                while k < fu.verts.len()
                                    invariant
                                        k <= fu.verts@.len(),
                                        c@.len() == fu.verts@.len(),
                                        verts@ == patch_face(fu.verts@, c@, m.vert_refs@).subrange(
                                            0,
                                            k as int,
                                        ),
                                    decreases fu.verts@.len() - k,
                                {
                                    let refv = if k < m.vert_refs.len() {
                                        m.vert_refs[k]
                                    } else {
                                        fu.verts[k].vert_ref
                                    };
                                    verts.push(
                                        UvVert {
                                            u: c[k][0] as u16,
                                            v: c[k][1] as u16,
                                            vert_ref: refv,
                                        },
                                    );
                                    k = k + 1;
                                    assert(verts@ =~= patch_face(
                                        fu.verts@,
                                        c@,
                                        m.vert_refs@,
                                    ).subrange(0, k as int));
                                }
                                assert(verts@ =~= patch_face(fu.verts@, c@, m.vert_refs@));
                                Some((*off, FaceUv { verts }))
                            } else {
                                None
                            }
                        },
                        None => None,
                    };
                    match upd {
                        Some(slot) => {
                            out.slots.set(idx, Some(slot));
                            assert(out@.slots =~= prev.update(
                                idx as int,
                                slot_view(out.slots@[idx as int]),
                            ));
                        },
                        None => {},
                    }
                }
            },
        }
        i = i + 1;
    }
    let n = orig.slots.len();
    proof {
        lemma_patched_slots_shape(orig@.slots, ms, uw.spec_faces(), ms.len() as int);
        assert(orig@.slots.len() == n);
        assert forall|i: int|
            0 <= i < orig@.slots.len() && (forall|j: int|
                0 <= j < models@.len() ==> #[trigger] models@[j].face_idx as int != i)
                implies #[trigger] face_of(out@, i) == face_of(orig@, i) by {
            assert forall|j: int| 0 <= j < ms.len() implies #[trigger] ms[j].face_idx as int != i by {
                assert(ms[j] == models@[j]@);
            }
            lemma_patched_face(orig@, ms, uw.spec_faces(), i);
        }
    }
    out
}

/// Little-endian bytes of `v` written at `pos`.
pub open spec fn write_u16(b: Seq<u8>, pos: int, v: u16) -> Seq<u8> {
    b.update(pos, (v % 256) as u8).update(pos + 1, (v / 256) as u8)
}

/// A vertex `(u, v, vert_ref)` written at `pos`.
pub open spec fn write_vert(b: Seq<u8>, pos: int, vt: UvVert) -> Seq<u8> {
    write_u16(write_u16(write_u16(b, pos, vt.u), pos + 2, vt.v), pos + 4, vt.vert_ref)
}

/// Write `vs[k..]` into the entry at `ent`; stops (with `false`) at the
/// first vertex that does not fit the block.
pub open spec fn write_verts_from(b: Seq<u8>, ent: int, vs: Seq<UvVert>, k: int) -> (Seq<u8>, bool)
    decreases vs.len() - k,
{
    if k < 0 || k >= vs.len() {
        (b, true)
    } else {
        let pos = ent + 2 + 6 * k;
        if pos + 6 > b.len() {
            (b, false)
        } else {
            write_verts_from(write_vert(b, pos, vs[k]), ent, vs, k + 1)
        }
    }
}

/// Overwrite face `idx`'s vertices in place, locating its entry through the
/// block's own offset table; `false` when the slot or entry is out of the
/// block, the face has no entry in `t`, or the vertex counts differ.
pub open spec fn patch_one(b: Seq<u8>, t: UvTableSpec, idx: int) -> (Seq<u8>, bool) {
    let base = t.base as int;
    if base + 2 * idx + 2 > b.len() {
        (b, false)
    } else {
        let ent = base + le_u16(b, base + 2 * idx);
        if ent + 2 > b.len() {
            (b, false)
        } else {
            match face_of(t, idx) {
                None => (b, false),
                Some(vs) => if vs.len() != le_u16(b, ent) / 4 {
                    (b, false)
                } else {
                    write_verts_from(b, ent, vs, 0)
                },
            }
        }
    }
}

/// Patch the faces `idxs[i..]` in order, stopping at the first failure.
pub open spec fn patch_all_from(b: Seq<u8>, t: UvTableSpec, idxs: Seq<usize>, i: int) -> (
    Seq<u8>,
    bool,
)
    decreases idxs.len() - i,
{
    if i < 0 || i >= idxs.len() {
        (b, true)
    } else {
        let (b2, ok) = patch_one(b, t, idxs[i] as int);
        if !ok {
            (b2, false)
        } else {
            patch_all_from(b2, t, idxs, i + 1)
        }
    }
}

proof fn lemma_write_verts_len(b: Seq<u8>, ent: int, vs: Seq<UvVert>, k: int)
    requires
        0 <= ent,
    ensures
        write_verts_from(b, ent, vs, k).0.len() == b.len(),
    decreases vs.len() - k,
{
    if 0 <= k < vs.len() {
        let pos = ent + 2 + 6 * k;
        if pos + 6 <= b.len() {
            assert(write_vert(b, pos, vs[k]).len() == b.len());
            lemma_write_verts_len(write_vert(b, pos, vs[k]), ent, vs, k + 1);
        }
    }
}

/// Patching never changes the block length.
pub proof fn lemma_patch_all_len(b: Seq<u8>, t: UvTableSpec, idxs: Seq<usize>, i: int)
    ensures
        patch_all_from(b, t, idxs, i).0.len() == b.len(),
    decreases idxs.len() - i,
{
    if 0 <= i < idxs.len() {
        let idx = idxs[i] as int;
        let base = t.base as int;
        if base + 2 * idx + 2 <= b.len() {
            let ent = base + le_u16(b, base + 2 * idx);
            lemma_write_verts_len(b, ent, face_of(t, idx)->0, 0);
        }
        let (b2, ok) = patch_one(b, t, idx);
        if ok {
            lemma_patch_all_len(b2, t, idxs, i + 1);
        }
    }
}

proof fn lemma_write_verts_keeps_low(b: Seq<u8>, ent: int, vs: Seq<UvVert>, k: int, p: int)
    requires
        0 <= k,
        0 <= p < ent + 2,
    ensures
        write_verts_from(b, ent, vs, k).0.len() == b.len(),
        p < b.len() ==> write_verts_from(b, ent, vs, k).0[p] == b[p],
    decreases vs.len() - k,
{
    if k < vs.len() {
        let pos = ent + 2 + 6 * k;
        if pos + 6 <= b.len() {
            let b1 = write_vert(b, pos, vs[k]);
            assert(b1.len() == b.len());
            assert(p < b.len() ==> b1[p] == b[p]);
            lemma_write_verts_keeps_low(b1, ent, vs, k + 1, p);
        }
    }
}

/// Patching a block in place never touches the bytes before the first entry
/// slot: the leading base field and everything up to the offset table (the
/// pre-base structured data) stay byte-identical, and the length is kept.
pub proof fn lemma_patch_keeps_prebase(b: Seq<u8>, t: UvTableSpec, idxs: Seq<usize>, i: int, p: int)
    requires
        0 <= p < t.base + 2,
        p < b.len(),
    ensures
        patch_all_from(b, t, idxs, i).0.len() == b.len(),
        patch_all_from(b, t, idxs, i).0[p] == b[p],
    decreases idxs.len() - i,
{
    lemma_patch_all_len(b, t, idxs, i);
    if 0 <= i < idxs.len() {
        let idx = idxs[i] as int;
        let base = t.base as int;
        if base + 2 * idx + 2 <= b.len() {
            let ent = base + le_u16(b, base + 2 * idx);
            lemma_write_verts_keeps_low(b, ent, face_of(t, idx)->0, 0, p);
        }
        let (b2, ok) = patch_one(b, t, idx);
        if ok {
            lemma_patch_keeps_prebase(b2, t, idxs, i + 1, p);
        }
    }
}

/// Builds the error text for an offset-table slot past the block with std's `format!`. No contract: nothing is claimed
/// of the text, which only ever travels inside an `Err`.
#[verifier::external_body]
fn msg_offset_oob(idx: usize) -> String {
    format!("face {idx}: offset table OOB")
}

/// Builds the error text for a face entry past the block with std's `format!`. No contract: nothing is claimed
/// of the text, which only ever travels inside an `Err`.
#[verifier::external_body]
fn msg_entry_oob(idx: usize) -> String {
    format!("face {idx}: entry OOB")
}

/// Builds the error text for a vertex-count mismatch with std's `format!`. No contract: nothing is claimed
/// of the text, which only ever travels inside an `Err`.
#[verifier::external_body]
fn msg_vcount(idx: usize, have: usize, want: usize) -> String {
    format!("face {idx} vcount {have} != {want}")
}

/// Write one little-endian u16 at `pos`.
fn put_u16(block: &mut [u8], pos: usize, v: u16)
    requires
        pos + 2 <= old(block)@.len(),
    ensures
        final(block)@ == write_u16(old(block)@, pos as int, v),
{
    block[pos] = (v % 256) as u8;
    block[pos + 1] = (v / 256) as u8;
}

/// Overwrite face `idx`'s vertices in place (see [`patch_one`]).
fn patch_face_in_block(block: &mut [u8], table: &UvTable, idx: usize) -> (res: Result<(), String>)
    ensures
        final(block)@ == patch_one(old(block)@, table@, idx as int).0,
        res is Ok <==> patch_one(old(block)@, table@, idx as int).1,
{
    let len = block.len();
    let base = table.base;
    if (base as u128) + (idx as u128) * 2 + 2 > len as u128 {
        return Err(msg_offset_oob(idx));
    }
    let off = u16le(block, base + idx * 2) as usize;
    // same read decode uses
    if base as u128 + off as u128 + 2 > len as u128 {
        return Err(msg_entry_oob(idx));
    }
    let ent = base + off;
    let count = u16le(block, ent) as usize;
    let nv = count / 4;
    let f = match table.face(idx) {
        Some(f) => f,
        None => return Err("missing face".to_owned()),
    };
    if f.verts.len() != nv {
        return Err(msg_vcount(idx, f.verts.len(), nv));
    }
    let ghost b0 = block@;
    assert(patch_one(b0, table@, idx as int) == write_verts_from(b0, ent as int, f.verts@, 0));
    let mut k: usize = 0;
    while k < f.verts.len()
        invariant
            k <= f.verts@.len(),
            b0 == old(block)@,
            patch_one(b0, table@, idx as int) == write_verts_from(b0, ent as int, f.verts@, 0),
            block@.len() == len,
            len == b0.len(),
            ent + 2 <= len,
            write_verts_from(b0, ent as int, f.verts@, 0) == write_verts_from(
                block@,
                ent as int,
                f.verts@,
                k as int,
            ),
        decreases f.verts@.len() - k,
    {
        if (ent as u128) + 2 + (k as u128) * 6 + 6 > len as u128 {
            return Err("oob".to_owned());
        }
        let pos = ent + 2 + k * 6;
        let vt = f.verts[k];
        put_u16(block, pos, vt.u);
        put_u16(block, pos + 2, vt.v);
        put_u16(block, pos + 4, vt.vert_ref);
        k = k + 1;
    }
    Ok(())
}

/// Overwrite each listed face's vertex `(u, v, vert_ref)` in a DECRYPTED
/// block, in place, in list order. Preserves all other bytes (counts, offset
/// table, pre-base data). `table` must have been derived from this same
/// block (same layout/offsets). Stops at the first face that cannot be
/// written; the faces before it stay written.
pub fn patch_block_uv(block: &mut [u8], table: &UvTable, indices: &[usize]) -> (res: Result<
    (),
    String,
>)
    ensures
        final(block)@ == patch_all_from(old(block)@, table@, indices@, 0).0,
        res is Ok <==> patch_all_from(old(block)@, table@, indices@, 0).1,
{
    let ghost b0 = block@;
    let mut i: usize = 0;
    while i < indices.len()
        invariant
            i <= indices@.len(),
            b0 == old(block)@,
            patch_all_from(b0, table@, indices@, 0) == patch_all_from(
                block@,
                table@,
                indices@,
                i as int,
            ),
        decreases indices@.len() - i,
    {
        let ghost before = block@;
        match patch_face_in_block(block, table, indices[i]) {
            Ok(()) => {},
            Err(e) => {
                assert(patch_all_from(before, table@, indices@, i as int) == (block@, false));
                return Err(e);
            },
        }
        i = i + 1;
    }
    Ok(())
}

/// The six bytes of a vertex: `u`, `v`, `vert_ref`, each little-endian.
pub open spec fn vert_bytes(v: UvVert) -> Seq<u8> {
    u16_bytes(v.u) + u16_bytes(v.v) + u16_bytes(v.vert_ref)
}

/// The bytes of vertices `vs[..k]`.
pub open spec fn verts_bytes(vs: Seq<UvVert>, k: int) -> Seq<u8>
    decreases k,
{
    if k <= 0 {
        Seq::empty()
    } else {
        verts_bytes(vs, k - 1) + vert_bytes(vs[k - 1])
    }
}

/// An entry: `u16 count = nv * 4`, then the vertices.
pub open spec fn entry_bytes(vs: Seq<UvVert>) -> Seq<u8> {
    u16_bytes((vs.len() * 4) as u16) + verts_bytes(vs, vs.len() as int)
}

/// The bytes of the offsets `offs[..k]`.
pub open spec fn offs_bytes(offs: Seq<u16>, k: int) -> Seq<u8>
    decreases k,
{
    if k <= 0 {
        Seq::empty()
    } else {
        offs_bytes(offs, k - 1) + u16_bytes(offs[k - 1])
    }
}

/// The highest present face index among `slots[..k]` (0 if none).
pub open spec fn max_present_upto(slots: Seq<SlotSpec>, k: int) -> int
    decreases k,
{
    if k <= 0 {
        0
    } else if slots[k - 1] is Some {
        k - 1
    } else {
        max_present_upto(slots, k - 1)
    }
}

/// Number of offset-table slots [`encode`] writes: highest present face + 1.
pub open spec fn enc_nfaces(t: UvTableSpec) -> int {
    max_present_upto(t.slots, t.slots.len() as int) + 1
}

/// The first face below `k` that uses the default entry.
pub open spec fn first_default_upto(t: UvTableSpec, k: int) -> Option<int>
    decreases k,
{
    if k <= 0 {
        None
    } else {
        match first_default_upto(t, k - 1) {
            Some(f) => Some(f),
            None => if spec_is_default(t, k - 1) {
                Some(k - 1)
            } else {
                None
            },
        }
    }
}

/// Whether [`encode`] emits one shared default entry.
pub open spec fn enc_has_default(t: UvTableSpec) -> bool {
    t.default_offset != 0 && first_default_upto(t, enc_nfaces(t)) is Some
}

/// Entry blob and offsets after encoding faces `0..k`: the shared default
/// entry (if any) comes first at offset `2 * nfaces`; every other present
/// face gets its own entry appended after it.
pub open spec fn enc_step(t: UvTableSpec, k: int) -> (Seq<u8>, Seq<u16>)
    decreases k,
{
    let tb = 2 * enc_nfaces(t);
    if k <= 0 {
        if enc_has_default(t) {
            (entry_bytes(face_of(t, first_default_upto(t, enc_nfaces(t))->0)->0), Seq::empty())
        } else {
            (Seq::empty(), Seq::empty())
        }
    } else {
        let (blob, offs) = enc_step(t, k - 1);
        match face_of(t, k - 1) {
            None => (blob, offs.push(0)),
            Some(vs) => if spec_is_default(t, k - 1) && enc_has_default(t) {
                (blob, offs.push(tb as u16))
            } else {
                (blob + entry_bytes(vs), offs.push((tb + blob.len()) as u16))
            },
        }
    }
}

/// The block [`encode`] produces: `[u32 base = 4][offset table][entries]`.
pub open spec fn spec_encode(t: UvTableSpec) -> Seq<u8> {
    let n = enc_nfaces(t);
    let (blob, offs) = enc_step(t, n);
    u32_bytes(4) + offs_bytes(offs, n) + blob
}

pub(crate) proof fn lemma_first_default_is_default(t: UvTableSpec, k: int)
    ensures
        first_default_upto(t, k) matches Some(d) ==> 0 <= d < k && spec_is_default(t, d),
    decreases k,
{
    if k > 0 {
        lemma_first_default_is_default(t, k - 1);
    }
}

pub(crate) proof fn lemma_enc_step_len(t: UvTableSpec, k: int)
    requires
        0 <= k,
    ensures
        enc_step(t, k).1.len() == k,
    decreases k,
{
    if k > 0 {
        lemma_enc_step_len(t, k - 1);
    }
}

#[verifier::spinoff_prover]
fn push_entry(out: &mut Vec<u8>, fu: &FaceUv)
    requires
        fu@.len() < 0x1_0000,
    ensures
        final(out)@ == old(out)@ + entry_bytes(fu@),
{
    let nv = fu.verts.len();
    push_u16(out, (nv * 4) as u16);
    let ghost start = out@;
    let mut k: usize = 0;
    while k < nv
        invariant
            nv == fu@.len(),
            k <= nv,
            out@ == start + verts_bytes(fu@, k as int),
        decreases nv - k,
    {
        let v = fu.verts[k];
        push_u16(out, v.u);
        push_u16(out, v.v);
        push_u16(out, v.vert_ref);
        k = k + 1;
        assert(out@ =~= start + verts_bytes(fu@, k as int));
    }
    assert(final(out)@ =~= old(out)@ + entry_bytes(fu@));
}

/// Encode a [`UvTable`] back into a decrypted block, byte-compatible with
/// [`decode`]. Preserves default-entry sharing (one shared entry for all
/// default faces) and round-trips exactly for real faces.
pub fn encode(table: &UvTable) -> (out: Vec<u8>)
    requires
        table.wf(),
    ensures
        out@ == spec_encode(table@),
{
    let ghost t = table@;
    // nfaces = max present face idx + 1.
    let mut max_idx: usize = 0;
    let mut i: usize = 0;
    while i < table.slots.len()
        invariant
            i <= table.slots@.len(),
            t == table@,
            max_idx == max_present_upto(t.slots, i as int),
            max_idx < table.slots@.len() || max_idx == 0,
        decreases table.slots@.len() - i,
    {
        assert(t.slots[i as int] == slot_view(table.slots@[i as int]));
        if table.slots[i].is_some() {
            max_idx = i;
        }
        i = i + 1;
    }
    let nfaces = max_idx + 1;
    let table_bytes: u128 = 2 * (nfaces as u128);
    // The shared default entry comes first (if any default face exists).
    let mut first_default: Option<usize> = None;
    let mut f: usize = 0;
    while f < nfaces
        invariant
            f <= nfaces,
            t == table@,
            first_default matches Some(d) ==> d < f,
            first_default == (match first_default_upto(t, f as int) {
                Some(d) => Some(d as usize),
                None => None::<usize>,
            }),
        decreases nfaces - f,
    {
        if first_default.is_none() && table.is_default(f) {
            first_default = Some(f);
        }
        f = f + 1;
    }
    proof {
        lemma_first_default_is_default(t, nfaces as int);
    }
    let mut blob: Vec<u8> = Vec::new();
    let has_default = table.default_offset != 0 && first_default.is_some();
    if has_default {
        let d = first_default.unwrap();
        match table.face(d) {
            Some(fu) => {
                assert(t.slots[d as int] == slot_view(table.slots@[d as int]));
                push_entry(&mut blob, fu);
            },
            None => {},
        }
    }
    assert(blob@ == enc_step(t, 0).0);
    let mut offs: Vec<u16> = Vec::new();
    let mut f: usize = 0;
    while f < nfaces
        invariant
            f <= nfaces,
            nfaces == enc_nfaces(t),
            t == table@,
            table.wf(),
            table_bytes == 2 * nfaces,
            has_default == enc_has_default(t),
            (blob@, offs@) == enc_step(t, f as int),
        decreases nfaces - f,
    {
        match table.face(f) {
            None => {
                offs.push(0);
            },
            Some(fu) => {
                if has_default && table.is_default(f) {
                    offs.push(table_bytes as u16);
                } else {
                    let off = (table_bytes + blob.len() as u128) as u16;
                    assert(t.slots[f as int] == slot_view(table.slots@[f as int]));
                    push_entry(&mut blob, fu);
                    offs.push(off);
                }
            },
        }
        f = f + 1;
    }
    proof {
        lemma_enc_step_len(t, nfaces as int);
    }
    // Assemble: [u32 base][offset table][entries...].
    let mut out: Vec<u8> = Vec::new();
    out.push(4);
    out.push(0);
    out.push(0);
    out.push(0);
    assert(out@ =~= u32_bytes(4));
    let mut k: usize = 0;
    while k < nfaces
        invariant
            k <= nfaces,
            offs@.len() == nfaces,
            out@ == u32_bytes(4) + offs_bytes(offs@, k as int),
        decreases nfaces - k,
    {
        push_u16(&mut out, offs[k]);
        k = k + 1;
    }
    let mut j: usize = 0;
    let ghost head = out@;
    while j < blob.len()
        invariant
            j <= blob@.len(),
            out@ == head + blob@.subrange(0, j as int),
        decreases blob@.len() - j,
    {
        out.push(blob[j]);
        j = j + 1;
        assert(out@ =~= head + blob@.subrange(0, j as int));
    }
    assert(blob@.subrange(0, blob@.len() as int) =~= blob@);
    out
}

} // verus!
