//! Reading back an encoded UV table: [`crate::uvtable::decode`] of
//! [`crate::uvtable::encode`] gives every real face's vertices back, and the
//! same set of present faces.

use vstd::prelude::*;
use crate::model::FaceModelSpec;
use crate::unwrap::FaceCoords;
use crate::le::{le_u16, le_u32, lemma_u16_bytes_roundtrip, lemma_u32_bytes_roundtrip, u16_bytes, u32_bytes};
use crate::uvtable::{
    SlotSpec, UvTableSpec, UvVert, enc_has_default, enc_nfaces, enc_step, entry_at, entry_bytes,
    face_of, first_default_upto, max_present_upto, offs_bytes, scan_min, slots_upto, spec_decode,
    spec_encode, spec_is_default, vert_bytes, verts_bytes, no_offset,
};

verus! {

pub(crate) proof fn lemma_verts_bytes(vs: Seq<UvVert>, m: int, k: int)
    requires
        0 <= m <= vs.len(),
    ensures
        verts_bytes(vs, m).len() == 6 * m,
        0 <= k < m ==> verts_bytes(vs, m).subrange(6 * k, 6 * k + 6) == vert_bytes(vs[k]),
    decreases m,
{
    if m > 0 {
        lemma_verts_bytes(vs, m - 1, k);
        let pre = verts_bytes(vs, m - 1);
        let cur = verts_bytes(vs, m);
        assert(cur == pre + vert_bytes(vs[m - 1]));
        if k == m - 1 {
            assert(cur.subrange(6 * k, 6 * k + 6) =~= vert_bytes(vs[k]));
        } else if 0 <= k < m - 1 {
            assert(cur.subrange(6 * k, 6 * k + 6) =~= pre.subrange(6 * k, 6 * k + 6));
        }
    }
}

/// An entry written into a block reads back as its vertices.
proof fn lemma_entry_reads_back(e: Seq<u8>, base: int, off: int, vs: Seq<UvVert>)
    requires
        0 <= base + off,
        base + off + entry_bytes(vs).len() <= e.len(),
        e.subrange(base + off, base + off + entry_bytes(vs).len()) == entry_bytes(vs),
        vs.len() * 4 < 0x1_0000,
    ensures
        entry_bytes(vs).len() == 2 + 6 * vs.len(),
        entry_at(e, base, off) == Some(vs),
{
    let ent = base + off;
    let nv = vs.len() as int;
    lemma_verts_bytes(vs, nv, 0);
    let eb = entry_bytes(vs);
    assert(eb.len() == 2 + 6 * nv);
    assert(e.subrange(ent, ent + 2) =~= eb.subrange(0, 2));
    assert(eb.subrange(0, 2) =~= u16_bytes((nv * 4) as u16));
    lemma_u16_bytes_roundtrip((nv * 4) as u16, e, ent);
    assert(le_u16(e, ent) == nv * 4);
    assert(le_u16(e, ent) / 4 == nv);
    let got = entry_at(e, base, off)->0;
    assert forall|k: int| 0 <= k < nv implies #[trigger] got[k] == vs[k] by {
        lemma_verts_bytes(vs, nv, k);
        let p = ent + 2 + 6 * k;
        let vb = vert_bytes(vs[k]);
        assert(e.subrange(p, p + 6) =~= eb.subrange(2 + 6 * k, 2 + 6 * k + 6));
        assert(eb.subrange(2 + 6 * k, 2 + 6 * k + 6) =~= verts_bytes(vs, nv).subrange(
            6 * k,
            6 * k + 6,
        ));
        assert(e.subrange(p, p + 6) == vb);
        assert(vb.subrange(0, 2) =~= u16_bytes(vs[k].u));
        assert(vb.subrange(2, 4) =~= u16_bytes(vs[k].v));
        assert(vb.subrange(4, 6) =~= u16_bytes(vs[k].vert_ref));
        assert(e.subrange(p, p + 2) =~= vb.subrange(0, 2));
        assert(e.subrange(p + 2, p + 4) =~= vb.subrange(2, 4));
        assert(e.subrange(p + 4, p + 6) =~= vb.subrange(4, 6));
        lemma_u16_bytes_roundtrip(vs[k].u, e, p);
        lemma_u16_bytes_roundtrip(vs[k].v, e, p + 2);
        lemma_u16_bytes_roundtrip(vs[k].vert_ref, e, p + 4);
    }
    assert(got =~= vs);
}

proof fn lemma_offs_bytes(offs: Seq<u16>, k: int, i: int)
    requires
        0 <= k <= offs.len(),
    ensures
        offs_bytes(offs, k).len() == 2 * k,
        0 <= i < k ==> offs_bytes(offs, k).subrange(2 * i, 2 * i + 2) == u16_bytes(offs[i]),
    decreases k,
{
    if k > 0 {
        lemma_offs_bytes(offs, k - 1, i);
        let pre = offs_bytes(offs, k - 1);
        let cur = offs_bytes(offs, k);
        if i == k - 1 {
            assert(cur.subrange(2 * i, 2 * i + 2) =~= u16_bytes(offs[i]));
        } else if 0 <= i < k - 1 {
            assert(cur.subrange(2 * i, 2 * i + 2) =~= pre.subrange(2 * i, 2 * i + 2));
        }
    }
}

/// Encoding proceeds by appending: earlier blobs are prefixes of later ones,
/// and offsets once written stay.
proof fn lemma_enc_prefix(t: UvTableSpec, j: int, k: int)
    requires
        0 <= j <= k,
    ensures
        enc_step(t, j).0.len() <= enc_step(t, k).0.len(),
        enc_step(t, k).0.subrange(0, enc_step(t, j).0.len() as int) == enc_step(t, j).0,
        enc_step(t, k).1.len() == k,
        forall|i: int| 0 <= i < j ==> #[trigger] enc_step(t, k).1[i] == enc_step(t, j).1[i],
    decreases k,
{
    crate::uvtable::lemma_enc_step_len(t, k);
    crate::uvtable::lemma_enc_step_len(t, j);
    if j < k {
        lemma_enc_prefix(t, j, k - 1);
        let (b, o) = enc_step(t, k - 1);
        let (b2, o2) = enc_step(t, k);
        let bj = enc_step(t, j).0;
        assert(b2.subrange(0, b.len() as int) =~= b);
        assert(b2.subrange(0, bj.len() as int) =~= b.subrange(0, bj.len() as int));
        assert forall|i: int| 0 <= i < j implies #[trigger] o2[i] == enc_step(t, j).1[i] by {
            assert(o2[i] == o[i]);
        }
    } else {
        assert(enc_step(t, k).0.subrange(0, enc_step(t, k).0.len() as int) =~= enc_step(t, k).0);
    }
}

/// The encoded block fits the 16-bit offsets: the offset table and every
/// entry lie within 2^16 bytes of the table start.
pub open spec fn enc_fits(t: UvTableSpec) -> bool {
    2 * enc_nfaces(t) + enc_step(t, enc_nfaces(t)).0.len() <= 0x1_0000
}

/// Some face is present.
pub open spec fn has_face(t: UvTableSpec) -> bool {
    exists|i: int| 0 <= i < t.slots.len() && #[trigger] t.slots[i] is Some
}

/// The offset [`crate::uvtable::encode`] gives a face, and where its entry
/// starts in the entry blob.
pub open spec fn enc_entry_pos(t: UvTableSpec, i: int) -> int {
    if spec_is_default(t, i) && enc_has_default(t) {
        0
    } else {
        enc_step(t, i).0.len() as int
    }
}

/// The vertices stored at a face's entry.
pub open spec fn enc_entry_verts(t: UvTableSpec, i: int) -> Seq<UvVert> {
    if spec_is_default(t, i) && enc_has_default(t) {
        face_of(t, first_default_upto(t, enc_nfaces(t))->0)->0
    } else {
        face_of(t, i)->0
    }
}

/// Where each face's offset and entry land in the encoding.
proof fn lemma_enc_face(t: UvTableSpec, i: int)
    requires
        0 <= i < enc_nfaces(t),
        enc_fits(t),
    ensures
        ({
            let n = enc_nfaces(t);
            let blob = enc_step(t, n).0;
            let offs = enc_step(t, n).1;
            &&& face_of(t, i) is None ==> offs[i] == 0
            &&& face_of(t, i) is Some ==> {
                &&& offs[i] == 2 * n + enc_entry_pos(t, i)
                &&& enc_entry_pos(t, i) + entry_bytes(enc_entry_verts(t, i)).len() <= blob.len()
                &&& blob.subrange(
                    enc_entry_pos(t, i),
                    enc_entry_pos(t, i) + entry_bytes(enc_entry_verts(t, i)).len(),
                ) == entry_bytes(enc_entry_verts(t, i))
            }
        }),
{
    let n = enc_nfaces(t);
    let tb = 2 * n;
    lemma_enc_prefix(t, i + 1, n);
    lemma_enc_prefix(t, 0, n);
    let (b, o) = enc_step(t, i);
    let (b2, o2) = enc_step(t, i + 1);
    crate::uvtable::lemma_enc_step_len(t, i);
    assert(enc_step(t, n).1[i] == o2[i]);
    let blob = enc_step(t, n).0;
    match face_of(t, i) {
        None => {},
        Some(vs) => {
            if spec_is_default(t, i) && enc_has_default(t) {
                let b0 = enc_step(t, 0).0;
                assert(b0 == entry_bytes(enc_entry_verts(t, i)));
                assert(blob.subrange(0, b0.len() as int) == b0);
            } else {
                assert(b2 == b + entry_bytes(vs));
                assert(b2.len() <= blob.len());
                assert(blob.subrange(b.len() as int, (b.len() + entry_bytes(vs).len()) as int) =~= b2.subrange(
                    b.len() as int,
                    b2.len() as int,
                ));
                assert(b2.subrange(b.len() as int, b2.len() as int) =~= entry_bytes(vs));
                assert(tb + b.len() < 0x1_0000);
            }
        },
    }
}

proof fn lemma_max_present(slots: Seq<SlotSpec>, k: int)
    requires
        0 <= k <= slots.len(),
    ensures
        0 <= max_present_upto(slots, k),
        k > 0 ==> max_present_upto(slots, k) < k,
        forall|i: int| 0 <= i < k && #[trigger] slots[i] is Some ==> i <= max_present_upto(slots, k),
    decreases k,
{
    if k > 0 {
        lemma_max_present(slots, k - 1);
    }
}

/// The first present slot among `slots[..k]`.
pub open spec fn first_present(slots: Seq<SlotSpec>, k: int) -> Option<int>
    decreases k,
{
    if k <= 0 {
        None
    } else {
        match first_present(slots, k - 1) {
            Some(j) => Some(j),
            None => if slots[k - 1] is Some {
                Some(k - 1)
            } else {
                None
            },
        }
    }
}

proof fn lemma_first_present(slots: Seq<SlotSpec>, k: int)
    requires
        0 <= k <= slots.len(),
    ensures
        first_present(slots, k) matches Some(j) ==> 0 <= j < k && slots[j] is Some && forall|i: int|
            0 <= i < j ==> #[trigger] slots[i] is None,
        first_present(slots, k) is None ==> forall|i: int| 0 <= i < k ==> #[trigger] slots[i] is None,
    decreases k,
{
    if k > 0 {
        lemma_first_present(slots, k - 1);
    }
}

proof fn lemma_blob_empty(t: UvTableSpec, k: int)
    requires
        0 <= k,
        !enc_has_default(t),
        forall|i: int| 0 <= i < k ==> #[trigger] face_of(t, i) is None,
    ensures
        enc_step(t, k).0.len() == 0,
    decreases k,
{
    if k > 0 {
        lemma_blob_empty(t, k - 1);
    }
}

/// Smallest nonzero value among `offs[..i]` (the "nothing yet" sentinel if
/// there is none).
pub open spec fn min_nz(offs: Seq<u16>, i: int) -> int
    decreases i,
{
    if i <= 0 {
        no_offset()
    } else {
        let m = min_nz(offs, i - 1);
        let o = offs[i - 1] as int;
        if o != 0 && o < m {
            o
        } else {
            m
        }
    }
}

proof fn lemma_min_nz(offs: Seq<u16>, i: int, lo: int)
    requires
        0 <= i <= offs.len(),
        0 < lo < 0x1_0000,
        forall|j: int| 0 <= j < offs.len() && #[trigger] offs[j] != 0 ==> offs[j] >= lo,
    ensures
        min_nz(offs, i) >= lo,
        forall|j: int| 0 <= j < i && #[trigger] offs[j] != 0 ==> min_nz(offs, i) <= offs[j],
        min_nz(offs, i) == no_offset() || min_nz(offs, i) < 0x1_0000,
    decreases i,
{
    if i > 0 {
        lemma_min_nz(offs, i - 1, lo);
    }
}

proof fn lemma_scan(e: Seq<u8>, offs: Seq<u16>, n: int, i: int)
    requires
        0 <= i <= n,
        offs.len() == n,
        e.len() >= 4 + 2 * n + 2,
        forall|j: int| 0 <= j < n ==> le_u16(e, 4 + 2 * j) == #[trigger] offs[j],
        forall|j: int| 0 <= j < n && #[trigger] offs[j] != 0 ==> offs[j] >= 2 * n,
        min_nz(offs, n) == 2 * n,
        0 < n < 0x8000,
    ensures
        scan_min(e, 4, i, min_nz(offs, i)) == Some(2 * n),
    decreases n - i,
{
    lemma_min_nz(offs, i, 2 * n);
    if i < n {
        assert(le_u16(e, 4 + 2 * i) == offs[i]);
        lemma_scan(e, offs, n, i + 1);
    }
}

/// The slot decoding gives face `i` of an encoded table.
pub open spec fn dec_slot(t: UvTableSpec, i: int) -> SlotSpec {
    match face_of(t, i) {
        None => None,
        Some(_) => Some(((2 * enc_nfaces(t) + enc_entry_pos(t, i)) as u16, enc_entry_verts(t, i))),
    }
}

/// Offsets of the encoding read back from its offset table.
proof fn lemma_enc_offsets(t: UvTableSpec, j: int)
    requires
        0 <= j < enc_nfaces(t),
    ensures
        le_u16(spec_encode(t), 4 + 2 * j) == enc_step(t, enc_nfaces(t)).1[j],
        spec_encode(t).len() == 4 + 2 * enc_nfaces(t) + enc_step(t, enc_nfaces(t)).0.len(),
{
    let n = enc_nfaces(t);
    let (blob, offs) = enc_step(t, n);
    crate::uvtable::lemma_enc_step_len(t, n);
    lemma_offs_bytes(offs, n, j);
    let e = spec_encode(t);
    let ob = offs_bytes(offs, n);
    assert(e == u32_bytes(4) + ob + blob);
    assert(e.subrange(4 + 2 * j, 4 + 2 * j + 2) =~= ob.subrange(2 * j, 2 * j + 2));
    lemma_u16_bytes_roundtrip(offs[j], e, 4 + 2 * j);
}

proof fn lemma_enc_slots(t: UvTableSpec, k: int)
    requires
        enc_fits(t),
        0 <= k <= enc_nfaces(t),
    ensures
        slots_upto(spec_encode(t), 4, k) == Some(Seq::new(k as nat, |i: int| dec_slot(t, i))),
    decreases k,
{
    let e = spec_encode(t);
    let n = enc_nfaces(t);
    if k > 0 {
        lemma_enc_slots(t, k - 1);
        let i = k - 1;
        lemma_enc_offsets(t, i);
        lemma_enc_face(t, i);
        let (blob, offs) = enc_step(t, n);
        let prev = Seq::new((k - 1) as nat, |j: int| dec_slot(t, j));
        match face_of(t, i) {
            None => {
                assert(prev.push(None) =~= Seq::new(k as nat, |j: int| dec_slot(t, j)));
            },
            Some(_) => {
                let vs = enc_entry_verts(t, i);
                let pos = enc_entry_pos(t, i);
                let off = 2 * n + pos;
                let l = entry_bytes(vs).len() as int;
                lemma_verts_bytes(vs, vs.len() as int, 0);
                assert(e.subrange(4 + off, 4 + off + l) =~= blob.subrange(pos, pos + l));
                lemma_entry_reads_back(e, 4, off, vs);
                assert(prev.push(Some((off as u16, vs))) =~= Seq::new(
                    k as nat,
                    |j: int| dec_slot(t, j),
                ));
            },
        }
    }
}

proof fn lemma_count_same(a: Seq<SlotSpec>, b: Seq<SlotSpec>, k: int)
    requires
        0 <= k <= a.len(),
        k <= b.len(),
        forall|i: int| 0 <= i < k ==> (#[trigger] a[i] is Some) == (b[i] is Some),
    ensures
        crate::uvtable::count_present(a, k) == crate::uvtable::count_present(b, k),
    decreases k,
{
    if k > 0 {
        lemma_count_same(a, b, k - 1);
    }
}

proof fn lemma_count_tail(a: Seq<SlotSpec>, k: int, m: int)
    requires
        0 <= k <= m <= a.len(),
        forall|i: int| k <= i < m ==> #[trigger] a[i] is None,
    ensures
        crate::uvtable::count_present(a, m) == crate::uvtable::count_present(a, k),
    decreases m - k,
{
    if k < m {
        lemma_count_tail(a, k, m - 1);
    }
}

/// Decoding an encoded table gives back the same present faces, with every
/// real (non-default) face's vertices exactly, and every default face the
/// shared default entry. Holds when some face is present and the offsets fit
/// in 16 bits.
pub proof fn lemma_decode_encode(t: UvTableSpec, i: int)
    requires
        has_face(t),
        enc_fits(t),
        0 <= i,
    ensures
        spec_decode(spec_encode(t)) is Some,
        spec_decode(spec_encode(t))->0.slots.len() == enc_nfaces(t),
        crate::uvtable::count_present(spec_decode(spec_encode(t))->0.slots, enc_nfaces(t))
            == crate::uvtable::count_present(t.slots, t.slots.len() as int),
        (face_of(spec_decode(spec_encode(t))->0, i) is Some) == (face_of(t, i) is Some),
        !(spec_is_default(t, i) && enc_has_default(t)) ==> face_of(spec_decode(spec_encode(t))->0, i)
            == face_of(t, i),
        spec_is_default(t, i) && enc_has_default(t) ==> face_of(spec_decode(spec_encode(t))->0, i)
            == face_of(t, first_default_upto(t, enc_nfaces(t))->0),
{
    let len = t.slots.len() as int;
    let n = enc_nfaces(t);
    let e = spec_encode(t);
    let (blob, offs) = enc_step(t, n);
    lemma_max_present(t.slots, len);
    crate::uvtable::lemma_enc_step_len(t, n);
    let jw = choose|j: int| 0 <= j < len && #[trigger] t.slots[j] is Some;
    assert(jw < n);
    assert(1 <= n <= len);
    lemma_enc_face(t, jw);
    assert(face_of(t, jw) is Some);
    assert(blob.len() >= 2);
    lemma_enc_offsets(t, 0);
    assert(n < 0x8000);
    // The base reads back as 4.
    assert(e.subrange(0, 4) =~= u32_bytes(4));
    lemma_u32_bytes_roundtrip(4, e, 0);
    // Nonzero offsets start at the end of the offset table, and one is there.
    assert forall|j: int| 0 <= j < n && #[trigger] offs[j] != 0 implies offs[j] >= 2 * n by {
        lemma_enc_face(t, j);
    }
    assert forall|j: int| 0 <= j < n implies le_u16(e, 4 + 2 * j) == #[trigger] offs[j] by {
        lemma_enc_offsets(t, j);
    }
    let j0: int = if enc_has_default(t) {
        let fd = first_default_upto(t, n)->0;
        crate::uvtable::lemma_first_default_is_default(t, n);
        fd
    } else {
        lemma_first_present(t.slots, n);
        let f = first_present(t.slots, n)->0;
        assert forall|ii: int| 0 <= ii < f implies #[trigger] face_of(t, ii) is None by {
            assert(t.slots[ii] is None);
        }
        lemma_blob_empty(t, f);
        f
    };
    lemma_enc_face(t, j0);
    assert(offs[j0] == 2 * n);
    lemma_min_nz(offs, n, 2 * n);
    assert(min_nz(offs, n) == 2 * n);
    lemma_scan(e, offs, n, 0);
    assert(scan_min(e, 4, 0, no_offset()) == Some(2 * n));
    lemma_enc_slots(t, n);
    let slots = Seq::new(n as nat, |j: int| dec_slot(t, j));
    assert(spec_decode(e) == Some(
        UvTableSpec { base: 4, slots, default_offset: crate::uvtable::default_of(slots) },
    ));
    let back = spec_decode(e)->0;
    // Presence agrees on every index, and beyond the last present face both
    // are empty.
    assert forall|j: int| 0 <= j < n implies (#[trigger] back.slots[j] is Some) == (
    t.slots[j] is Some) by {
        assert(back.slots[j] == dec_slot(t, j));
    }
    lemma_count_same(back.slots, t.slots, n);
    assert forall|j: int| n <= j < len implies #[trigger] t.slots[j] is None by {
        if t.slots[j] is Some {
            assert(j <= max_present_upto(t.slots, len));
        }
    }
    lemma_count_tail(t.slots, n, len);
    if 0 <= i < n {
        assert(back.slots[i] == dec_slot(t, i));
        if spec_is_default(t, i) && enc_has_default(t) {
            crate::uvtable::lemma_first_default_is_default(t, n);
        }
    } else if i < len {
        assert(t.slots[i] is None);
    }
}

/// Patching keeps some face present, so a patched table whose offsets fit
/// in 16 bits round-trips through encode and decode as
/// [`lemma_decode_encode`] states.
pub proof fn lemma_patched_has_face(t: UvTableSpec, ms: Seq<FaceModelSpec>, faces: Seq<FaceCoords>)
    requires
        has_face(t),
    ensures
        has_face(crate::uvtable::spec_patched(t, ms, faces)),
{
    let i = choose|i: int| 0 <= i < t.slots.len() && #[trigger] t.slots[i] is Some;
    crate::uvtable::lemma_patched_table_shape(t, ms, faces, i);
    assert(crate::uvtable::spec_patched(t, ms, faces).slots[i] is Some);
}

} // verus!
