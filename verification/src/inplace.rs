//! What an in-place patch does to a decoded block: when the block's entries
//! coincide or are apart and listed faces that share an entry get equal
//! vertices, [`crate::uvtable::patch_block_uv`] succeeds, rewrites exactly
//! the listed faces' vertex fields, keeps every other byte (counts, offset
//! table, the data before it), and decoding the patched block gives each
//! listed face exactly the table's vertices.

use vstd::prelude::*;
use crate::le::{le_u16, le_u32, lemma_u16_bytes_roundtrip, u16_bytes};
use crate::patch::splice;
use crate::uvtable::{
    SlotSpec, UvTableSpec, UvVert, entry_at, face_of, no_offset, patch_all_from, patch_one,
    scan_min, slots_upto, spec_decode, vert_bytes, verts_bytes, write_vert, write_verts_from,
};

verus! {

proof fn lemma_verts_bytes_split(vs: Seq<UvVert>, k: int)
    requires
        0 <= k < vs.len(),
    ensures
        verts_bytes(vs, vs.len() as int).len() == 6 * vs.len(),
        verts_bytes(vs, vs.len() as int).subrange(6 * k, 6 * (vs.len() as int)) == vert_bytes(vs[k])
            + verts_bytes(vs, vs.len() as int).subrange(6 * k + 6, 6 * (vs.len() as int)),
{
    let n = vs.len() as int;
    crate::roundtrip::lemma_verts_bytes(vs, n, k);
    let all = verts_bytes(vs, n);
    assert(all.subrange(6 * k, 6 * n) =~= all.subrange(6 * k, 6 * k + 6) + all.subrange(
        6 * k + 6,
        6 * n,
    ));
}

/// Writing all vertices of an entry that fits the block overwrites exactly
/// its vertex field with their bytes.
proof fn lemma_write_verts(b: Seq<u8>, ent: int, vs: Seq<UvVert>, k: int)
    requires
        0 <= ent,
        ent + 2 + 6 * vs.len() <= b.len(),
        0 <= k <= vs.len(),
    ensures
        write_verts_from(b, ent, vs, k) == (
            splice(
                b,
                ent + 2 + 6 * k,
                verts_bytes(vs, vs.len() as int).subrange(6 * k, 6 * (vs.len() as int)),
            ),
            true,
        ),
    decreases vs.len() - k,
{
    let n = vs.len() as int;
    crate::roundtrip::lemma_verts_bytes(vs, n, 0);
    let all = verts_bytes(vs, n);
    if k == n {
        assert(splice(b, ent + 2 + 6 * k, all.subrange(6 * k, 6 * n)) =~= b);
    } else {
        let pos = ent + 2 + 6 * k;
        let b1 = write_vert(b, pos, vs[k]);
        lemma_write_verts(b1, ent, vs, k + 1);
        lemma_verts_bytes_split(vs, k);
        let vb = vert_bytes(vs[k]);
        assert(b1 =~= splice(b, pos, vb));
        assert(splice(b1, pos + 6, all.subrange(6 * k + 6, 6 * n)) =~= splice(
            b,
            pos,
            all.subrange(6 * k, 6 * n),
        ));
    }
}

/// Offset of present slot `i`.
pub open spec fn slot_off(t: UvTableSpec, i: int) -> int {
    (t.slots[i]->0).0 as int
}

/// Vertex count of present slot `i`.
pub open spec fn slot_nv(t: UvTableSpec, i: int) -> int {
    (t.slots[i]->0).1.len() as int
}

/// Block position where slot `i`'s entry (its count field) starts.
pub open spec fn ent_start(t: UvTableSpec, i: int) -> int {
    t.base + slot_off(t, i)
}

/// Block position just past slot `i`'s entry.
pub open spec fn ent_end(t: UvTableSpec, i: int) -> int {
    ent_start(t, i) + 2 + 6 * slot_nv(t, i)
}

/// Entries of present slots either coincide (the same offset) or do not
/// overlap.
pub open spec fn entries_apart(t: UvTableSpec) -> bool {
    forall|i: int, j: int|
        0 <= i < t.slots.len() && 0 <= j < t.slots.len() && t.slots[i] is Some && t.slots[j] is Some
            ==> slot_off(t, i) == slot_off(t, j) || #[trigger] ent_end(t, i) <= ent_start(t, j)
            || #[trigger] ent_end(t, j) <= ent_start(t, i)
}

/// The offset table ends where the first entry begins: some slot's offset
/// is exactly the table's size.
pub open spec fn table_compact(t: UvTableSpec) -> bool {
    exists|j: int|
        0 <= j < t.slots.len() && #[trigger] t.slots[j] is Some && slot_off(t, j) == 2 * t.slots.len()
}

/// Every listed face is present in `t0`, and listed faces that share an
/// entry get the same vertices from `t`.
pub open spec fn listed_ok(t0: UvTableSpec, t: UvTableSpec, idxs: Seq<usize>) -> bool {
    &&& forall|a: int|
        0 <= a < idxs.len() ==> #[trigger] idxs[a] < t0.slots.len() && t0.slots[idxs[a] as int] is Some
    &&& forall|a: int, c: int|
        0 <= a < idxs.len() && 0 <= c < idxs.len() && slot_off(t0, #[trigger] idxs[a] as int)
            == slot_off(t0, #[trigger] idxs[c] as int) ==> face_of(t, idxs[a] as int) == face_of(
            t,
            idxs[c] as int,
        )
}

/// `t` has the layout of `t0`: the same base and slots, and every present
/// slot keeps its offset and vertex count.
pub open spec fn same_layout(t: UvTableSpec, t0: UvTableSpec) -> bool {
    &&& t.base == t0.base
    &&& t.slots.len() == t0.slots.len()
    &&& forall|i: int|
        0 <= i < t0.slots.len() && #[trigger] t0.slots[i] is Some ==> crate::uvtable::same_shape(
            t.slots[i],
            t0.slots[i],
        )
}

/// The block after writing the first `k` listed faces' vertices from `t`
/// into their entries (located through `t0`).
pub open spec fn written(b: Seq<u8>, t0: UvTableSpec, t: UvTableSpec, idxs: Seq<usize>, k: int) -> Seq<u8>
    decreases k,
{
    if k <= 0 {
        b
    } else {
        let i = idxs[k - 1] as int;
        let vs = face_of(t, i)->0;
        splice(written(b, t0, t, idxs, k - 1), ent_start(t0, i) + 2, verts_bytes(vs, vs.len() as int))
    }
}

/// Position `p` lies in listed face `a`'s vertex field.
pub open spec fn in_field(t0: UvTableSpec, idxs: Seq<usize>, a: int, p: int) -> bool {
    ent_start(t0, idxs[a] as int) + 2 <= p < ent_end(t0, idxs[a] as int)
}

/// The offset-table word of slot `j`.
pub open spec fn slot_word(d: Seq<u8>, base: int, j: int) -> int {
    le_u16(d, base + 2 * j)
}

proof fn lemma_scan_lower(d: Seq<u8>, base: int, i: int, m: int)
    requires
        0 <= i,
        1 <= m,
    ensures
        scan_min(d, base, i, m) matches Some(r) ==> 1 <= r <= m && forall|j: int|
            i <= j && 2 * j < r ==> #[trigger] slot_word(d, base, j) == 0 || slot_word(d, base, j)
                >= r,
    decreases d.len() - base - 2 * i,
{
    let o = base + 2 * i;
    if o + 2 <= d.len() && 2 * i < m {
        let off = le_u16(d, o);
        let m2 = if off != 0 && off < m {
            off
        } else {
            m
        };
        lemma_scan_lower(d, base, i + 1, m2);
    }
}

proof fn lemma_decoded_slot(d: Seq<u8>, base: int, k: int, i: int)
    requires
        slots_upto(d, base, k) is Some,
        0 <= i < k,
    ensures
        slots_upto(d, base, k)->0.len() == k,
        slots_upto(d, base, k)->0[i] == (if le_u16(d, base + 2 * i) == 0 {
            None::<(u16, Seq<UvVert>)>
        } else {
            Some(
                (
                    le_u16(d, base + 2 * i) as u16,
                    entry_at(d, base, le_u16(d, base + 2 * i))->0,
                ),
            )
        }),
        le_u16(d, base + 2 * i) != 0 ==> entry_at(d, base, le_u16(d, base + 2 * i)) is Some,
    decreases k,
{
    if k - 1 > i {
        lemma_decoded_slot(d, base, k - 1, i);
    } else if k - 1 > 0 {
        assert(slots_upto(d, base, k - 1) is Some);
        crate::uvtable::lemma_slots_upto_len(d, base, k - 1);
    }
    crate::uvtable::lemma_slots_upto_len(d, base, k);
}

/// What decoding a block gives, field by field: the base is the block's
/// first `u32`; the slot count `n` is half the least nonzero offset the
/// scan of the offset table met (every one of the `n` offset words is zero
/// or at least `2n`); face `i` is present exactly when its offset word is
/// nonzero, and then it keeps that offset, its entry fits the block, and its
/// vertices are the entry's `count / 4` records (`u`, `v`, `vert_ref`).
pub proof fn lemma_decoded(b: Seq<u8>, i: int)
    requires
        spec_decode(b) is Some,
    ensures
        ({
            let t0 = spec_decode(b)->0;
            let n = t0.slots.len() as int;
            let base = t0.base as int;
            &&& base == le_u32(b, 0)
            &&& n >= 1
            &&& b.len() >= 4
            &&& base + 2 * n + 2 <= b.len()
            &&& scan_min(b, base, 0, no_offset()) == Some(2 * n)
            &&& 0 <= i < n ==> (le_u16(b, base + 2 * i) == 0 || le_u16(b, base + 2 * i) >= 2 * n)
            &&& 0 <= i < n ==> {
                &&& (t0.slots[i] is Some <==> le_u16(b, base + 2 * i) != 0)
                &&& t0.slots[i] is Some ==> {
                    &&& slot_off(t0, i) == le_u16(b, base + 2 * i)
                    &&& slot_off(t0, i) >= 2 * n
                    &&& entry_at(b, base, slot_off(t0, i)) == Some((t0.slots[i]->0).1)
                    &&& ent_end(t0, i) <= b.len()
                    &&& slot_nv(t0, i) == le_u16(b, ent_start(t0, i)) / 4
                }
            }
        }),
{
    let t0 = spec_decode(b)->0;
    let base = le_u32(b, 0);
    assert(0 <= base);
    let r = scan_min(b, base, 0, no_offset())->0;
    crate::uvtable::lemma_scan_min_bounds(b, base, 0, no_offset());
    lemma_scan_lower(b, base, 0, no_offset());
    let n = r / 2;
    crate::uvtable::lemma_slots_upto_len(b, base, n);
    assert(t0.slots.len() == n);
    if 0 <= i < n {
        lemma_decoded_slot(b, base, n, i);
        let off = le_u16(b, base + 2 * i);
        assert(0 <= off < 0x1_0000);
        assert(slot_word(b, base, i) == off);
    }
}

/// The bytes written into listed face `a`'s vertex field.
pub open spec fn field_bytes(t: UvTableSpec, idxs: Seq<usize>, a: int) -> Seq<u8> {
    let vs = face_of(t, idxs[a] as int)->0;
    verts_bytes(vs, vs.len() as int)
}

/// Listed entries fit the block.
pub open spec fn listed_fit(t0: UvTableSpec, idxs: Seq<usize>, len: int) -> bool {
    forall|a: int|
        0 <= a < idxs.len() ==> 0 <= ent_start(t0, #[trigger] idxs[a] as int) && ent_end(
            t0,
            idxs[a] as int,
        ) <= len
}

proof fn lemma_listed_shape(t0: UvTableSpec, t: UvTableSpec, idxs: Seq<usize>, a: int)
    requires
        listed_ok(t0, t, idxs),
        same_layout(t, t0),
        0 <= a < idxs.len(),
    ensures
        face_of(t, idxs[a] as int) is Some,
        face_of(t, idxs[a] as int)->0.len() == slot_nv(t0, idxs[a] as int),
        field_bytes(t, idxs, a).len() == 6 * slot_nv(t0, idxs[a] as int),
{
    let i = idxs[a] as int;
    assert(t0.slots[i] is Some);
    assert(crate::uvtable::same_shape(t.slots[i], t0.slots[i]));
    let vs = face_of(t, i)->0;
    crate::roundtrip::lemma_verts_bytes(vs, vs.len() as int, 0);
}

proof fn lemma_fields_apart(t0: UvTableSpec, t: UvTableSpec, idxs: Seq<usize>, a: int, c: int)
    requires
        listed_ok(t0, t, idxs),
        entries_apart(t0),
        0 <= a < idxs.len(),
        0 <= c < idxs.len(),
        slot_off(t0, idxs[a] as int) != slot_off(t0, idxs[c] as int),
    ensures
        ent_end(t0, idxs[a] as int) <= ent_start(t0, idxs[c] as int) || ent_end(t0, idxs[c] as int)
            <= ent_start(t0, idxs[a] as int),
{
    let i = idxs[a] as int;
    let j = idxs[c] as int;
    assert(t0.slots[i] is Some && t0.slots[j] is Some);
    assert(ent_end(t0, i) <= ent_start(t0, j) || ent_end(t0, j) <= ent_start(t0, i));
}

/// Listed faces that share an entry write the same bytes into the same field.
proof fn lemma_fields_same(t0: UvTableSpec, t: UvTableSpec, idxs: Seq<usize>, a: int, c: int)
    requires
        listed_ok(t0, t, idxs),
        same_layout(t, t0),
        0 <= a < idxs.len(),
        0 <= c < idxs.len(),
        slot_off(t0, idxs[a] as int) == slot_off(t0, idxs[c] as int),
    ensures
        ent_start(t0, idxs[a] as int) == ent_start(t0, idxs[c] as int),
        ent_end(t0, idxs[a] as int) == ent_end(t0, idxs[c] as int),
        field_bytes(t, idxs, a) == field_bytes(t, idxs, c),
{
    lemma_listed_shape(t0, t, idxs, a);
    lemma_listed_shape(t0, t, idxs, c);
    assert(face_of(t, idxs[a] as int) == face_of(t, idxs[c] as int));
}

proof fn lemma_written(b: Seq<u8>, t0: UvTableSpec, t: UvTableSpec, idxs: Seq<usize>, k: int, p: int)
    requires
        listed_ok(t0, t, idxs),
        entries_apart(t0),
        same_layout(t, t0),
        listed_fit(t0, idxs, b.len() as int),
        0 <= k <= idxs.len(),
        0 <= p < b.len(),
    ensures
        written(b, t0, t, idxs, k).len() == b.len(),
        (forall|a: int| 0 <= a < k ==> !#[trigger] in_field(t0, idxs, a, p)) ==> written(
            b,
            t0,
            t,
            idxs,
            k,
        )[p] == b[p],
        forall|a: int|
            0 <= a < k && #[trigger] in_field(t0, idxs, a, p) ==> written(b, t0, t, idxs, k)[p]
                == field_bytes(t, idxs, a)[p - ent_start(t0, idxs[a] as int) - 2],
    decreases k,
{
    if k > 0 {
        lemma_written(b, t0, t, idxs, k - 1, p);
        let a = k - 1;
        let i = idxs[a] as int;
        lemma_listed_shape(t0, t, idxs, a);
        let w = written(b, t0, t, idxs, k - 1);
        let fb = field_bytes(t, idxs, a);
        let at = ent_start(t0, i) + 2;
        assert(0 <= ent_start(t0, i) && ent_end(t0, i) <= b.len());
        assert(written(b, t0, t, idxs, k) == splice(w, at, fb));
        assert(splice(w, at, fb).len() == b.len());
        if in_field(t0, idxs, a, p) {
            assert(splice(w, at, fb)[p] == fb[p - at]);
        } else {
            assert(splice(w, at, fb)[p] == w[p]);
        }
        assert forall|c: int| 0 <= c < k && #[trigger] in_field(t0, idxs, c, p) implies written(
            b,
            t0,
            t,
            idxs,
            k,
        )[p] == field_bytes(t, idxs, c)[p - ent_start(t0, idxs[c] as int) - 2] by {
            if slot_off(t0, idxs[a] as int) != slot_off(t0, idxs[c] as int) {
                lemma_fields_apart(t0, t, idxs, a, c);
            } else {
                lemma_fields_same(t0, t, idxs, a, c);
            }
        }
    }
}

proof fn lemma_listed_fit(b: Seq<u8>, t: UvTableSpec, idxs: Seq<usize>)
    requires
        spec_decode(b) is Some,
        listed_ok(spec_decode(b)->0, t, idxs),
    ensures
        listed_fit(spec_decode(b)->0, idxs, b.len() as int),
{
    let t0 = spec_decode(b)->0;
    assert forall|a: int| 0 <= a < idxs.len() implies 0 <= ent_start(t0, #[trigger] idxs[a] as int)
        && ent_end(t0, idxs[a] as int) <= b.len() by {
        lemma_decoded(b, idxs[a] as int);
    }
}

proof fn lemma_patch_loop(b: Seq<u8>, t: UvTableSpec, idxs: Seq<usize>, k: int)
    requires
        spec_decode(b) is Some,
        entries_apart(spec_decode(b)->0),
        listed_ok(spec_decode(b)->0, t, idxs),
        same_layout(t, spec_decode(b)->0),
        0 <= k <= idxs.len(),
    ensures
        patch_all_from(written(b, spec_decode(b)->0, t, idxs, k), t, idxs, k) == (
            written(b, spec_decode(b)->0, t, idxs, idxs.len() as int),
            true,
        ),
    decreases idxs.len() - k,
{
    let t0 = spec_decode(b)->0;
    let kk = idxs.len() as int;
    if k < kk {
        let idx = idxs[k] as int;
        let n = t0.slots.len() as int;
        let base = t0.base as int;
        lemma_decoded(b, idx);
        lemma_listed_fit(b, t, idxs);
        lemma_listed_shape(t0, t, idxs, k);
        let w = written(b, t0, t, idxs, k);
        let q = base + 2 * idx;
        let off = slot_off(t0, idx);
        let ent = base + off;
        // The offset word and the count field are untouched by earlier writes.
        assert forall|a: int| 0 <= a < k implies !#[trigger] in_field(t0, idxs, a, q) by {
            lemma_decoded(b, idxs[a] as int);
        }
        assert forall|a: int| 0 <= a < k implies !#[trigger] in_field(t0, idxs, a, q + 1) by {
            lemma_decoded(b, idxs[a] as int);
        }
        assert forall|a: int| 0 <= a < k implies !#[trigger] in_field(t0, idxs, a, ent) by {
            if slot_off(t0, idxs[a] as int) != off {
                lemma_fields_apart(t0, t, idxs, a, k);
            }
        }
        assert forall|a: int| 0 <= a < k implies !#[trigger] in_field(t0, idxs, a, ent + 1) by {
            if slot_off(t0, idxs[a] as int) != off {
                lemma_fields_apart(t0, t, idxs, a, k);
            }
        }
        lemma_written(b, t0, t, idxs, k, q);
        lemma_written(b, t0, t, idxs, k, q + 1);
        lemma_written(b, t0, t, idxs, k, ent);
        lemma_written(b, t0, t, idxs, k, ent + 1);
        assert(le_u16(w, q) == le_u16(b, q));
        assert(le_u16(w, ent) == le_u16(b, ent));
        let vs = face_of(t, idx)->0;
        lemma_write_verts(w, ent, vs, 0);
        let all = verts_bytes(vs, vs.len() as int);
        crate::roundtrip::lemma_verts_bytes(vs, vs.len() as int, 0);
        assert(all.subrange(0, 6 * (vs.len() as int)) =~= all);
        assert(patch_one(w, t, idx) == (written(b, t0, t, idxs, k + 1), true));
        lemma_patch_loop(b, t, idxs, k + 1);
    }
}

proof fn lemma_scan_same(b: Seq<u8>, b2: Seq<u8>, base: int, n: int, i: int, m: int)
    requires
        b.len() == b2.len(),
        0 <= base,
        forall|p: int| base <= p < base + 2 * n ==> #[trigger] b2[p] == b[p],
        0 <= i <= n,
        m >= 2 * n,
        scan_min(b, base, i, m) == Some(2 * n),
        forall|j: int| i <= j < n ==> #[trigger] slot_word(b, base, j) == 0 || slot_word(b, base, j) >= 2 * n,
        m == 2 * n || exists|j: int| i <= j < n && #[trigger] slot_word(b, base, j) == 2 * n,
    ensures
        scan_min(b2, base, i, m) == Some(2 * n),
    decreases n - i,
{
    let o = base + 2 * i;
    if i < n {
        assert(b2[o] == b[o] && b2[o + 1] == b[o + 1]);
        assert(le_u16(b2, o) == le_u16(b, o));
        let off = le_u16(b, o);
        assert(slot_word(b, base, i) == off);
        let m2 = if off != 0 && off < m {
            off
        } else {
            m
        };
        if m != 2 * n {
            let j = choose|j: int| i <= j < n && #[trigger] slot_word(b, base, j) == 2 * n;
            if j == i {
                assert(m2 == 2 * n);
            } else {
                assert(i + 1 <= j < n && slot_word(b, base, j) == 2 * n);
            }
        }
        lemma_scan_same(b, b2, base, n, i + 1, m2);
    }
}

/// An entry whose count field gives `vs.len()` vertices and whose vertex
/// field holds the bytes of `vs` reads back as `vs`.
proof fn lemma_entry_with_verts(e: Seq<u8>, base: int, off: int, vs: Seq<UvVert>)
    requires
        0 <= base + off,
        base + off + 2 + 6 * vs.len() <= e.len(),
        le_u16(e, base + off) / 4 == vs.len(),
        e.subrange(base + off + 2, base + off + 2 + 6 * vs.len()) == verts_bytes(vs, vs.len() as int),
    ensures
        entry_at(e, base, off) == Some(vs),
{
    let ent = base + off;
    let nv = vs.len() as int;
    let got = entry_at(e, base, off)->0;
    let all = verts_bytes(vs, nv);
    assert forall|k: int| 0 <= k < nv implies #[trigger] got[k] == vs[k] by {
        crate::roundtrip::lemma_verts_bytes(vs, nv, k);
        let p = ent + 2 + 6 * k;
        let vb = vert_bytes(vs[k]);
        assert(e.subrange(p, p + 6) =~= all.subrange(6 * k, 6 * k + 6));
        assert(vb.subrange(0, 2) =~= u16_bytes(vs[k].u));
        assert(vb.subrange(2, 4) =~= u16_bytes(vs[k].v));
        assert(vb.subrange(4, 6) =~= u16_bytes(vs[k].vert_ref));
        assert(e.subrange(p, p + 2) =~= vb.subrange(0, 2));
        assert(e.subrange(p + 2, p + 4) =~= vb.subrange(2, 4));
        assert(e.subrange(p + 4, p + 6) =~= vb.subrange(4, 6));
        lemma_u16_bytes_roundtrip(vs[k].u, e, p);
        lemma_u16_bytes_roundtrip(vs[k].v, e, p + 2);
        lemma_u16_bytes_roundtrip(vs[k].vert_ref, e, p + 4);
    }
    assert(got =~= vs);
}

/// The premises of an in-place patch: the block decodes, its entries
/// coincide or are apart, the listed faces are present (sharing ones get
/// equal vertices), and the table has the block's layout.
pub open spec fn patch_premises(b: Seq<u8>, t: UvTableSpec, idxs: Seq<usize>) -> bool {
    &&& spec_decode(b) is Some
    &&& entries_apart(spec_decode(b)->0)
    &&& listed_ok(spec_decode(b)->0, t, idxs)
    &&& same_layout(t, spec_decode(b)->0)
}

/// The premises of the read-back: those of the patch, and an offset table
/// that ends where the first entry begins.
pub open spec fn readback_ok(b: Seq<u8>, t: UvTableSpec, idxs: Seq<usize>) -> bool {
    &&& patch_premises(b, t, idxs)
    &&& table_compact(spec_decode(b)->0)
}

proof fn lemma_entry_after(b: Seq<u8>, t: UvTableSpec, idxs: Seq<usize>, i: int)
    requires
        readback_ok(b, t, idxs),
        0 <= i < (spec_decode(b)->0).slots.len(),
        (spec_decode(b)->0).slots[i] is Some,
    ensures
        ({
            let t0 = spec_decode(b)->0;
            let b2 = written(b, t0, t, idxs, idxs.len() as int);
            let off = slot_off(t0, i);
            &&& entry_at(b2, t0.base as int, off) is Some
            &&& forall|a: int|
                0 <= a < idxs.len() && slot_off(t0, #[trigger] idxs[a] as int) == off ==> entry_at(
                    b2,
                    t0.base as int,
                    off,
                ) == face_of(t, idxs[a] as int)
            &&& (forall|a: int| 0 <= a < idxs.len() ==> slot_off(t0, #[trigger] idxs[a] as int) != off)
                ==> entry_at(b2, t0.base as int, off) == entry_at(b, t0.base as int, off)
        }),
{
    let t0 = spec_decode(b)->0;
    let kk = idxs.len() as int;
    let b2 = written(b, t0, t, idxs, kk);
    let base = t0.base as int;
    let off = slot_off(t0, i);
    let ent = base + off;
    let nv = slot_nv(t0, i);
    lemma_decoded(b, i);
    lemma_listed_fit(b, t, idxs);
    // Where the listed fields sit relative to this entry.
    assert forall|a: int| 0 <= a < kk implies (slot_off(t0, #[trigger] idxs[a] as int) == off
        && ent_start(t0, idxs[a] as int) == ent && slot_nv(t0, idxs[a] as int) == nv) || (ent_end(
        t0,
        idxs[a] as int,
    ) <= ent || ent_end(t0, i) <= ent_start(t0, idxs[a] as int)) by {
        let j = idxs[a] as int;
        lemma_decoded(b, j);
        if slot_off(t0, j) == off {
            assert((t0.slots[j]->0).1 == (t0.slots[i]->0).1);
        } else {
            assert(t0.slots[j] is Some);
            assert(ent_end(t0, i) <= ent_start(t0, j) || ent_end(t0, j) <= ent_start(t0, i));
        }
    }
    // The count field is untouched.
    assert forall|a: int| 0 <= a < kk implies !#[trigger] in_field(t0, idxs, a, ent) by {}
    assert forall|a: int| 0 <= a < kk implies !#[trigger] in_field(t0, idxs, a, ent + 1) by {}
    lemma_written(b, t0, t, idxs, kk, ent);
    lemma_written(b, t0, t, idxs, kk, ent + 1);
    assert(le_u16(b2, ent) == le_u16(b, ent));
    assert(b2.len() == b.len());
    if exists|a: int| 0 <= a < kk && slot_off(t0, #[trigger] idxs[a] as int) == off {
        let a = choose|a: int| 0 <= a < kk && slot_off(t0, #[trigger] idxs[a] as int) == off;
        lemma_listed_shape(t0, t, idxs, a);
        let vs = face_of(t, idxs[a] as int)->0;
        let fb = field_bytes(t, idxs, a);
        assert forall|p: int| ent + 2 <= p < ent + 2 + 6 * nv implies #[trigger] b2[p] == fb[p - ent
            - 2] by {
            assert(in_field(t0, idxs, a, p));
            lemma_written(b, t0, t, idxs, kk, p);
        }
        assert(b2.subrange(ent + 2, ent + 2 + 6 * nv) =~= fb);
        lemma_entry_with_verts(b2, base, off, vs);
        assert forall|c: int| 0 <= c < kk && slot_off(t0, #[trigger] idxs[c] as int) == off implies entry_at(
            b2,
            base,
            off,
        ) == face_of(t, idxs[c] as int) by {
            assert(face_of(t, idxs[c] as int) == face_of(t, idxs[a] as int));
        }
    } else {
        assert forall|p: int| ent <= p < ent_end(t0, i) implies #[trigger] b2[p] == b[p] by {
            assert forall|a: int| 0 <= a < kk implies !#[trigger] in_field(t0, idxs, a, p) by {}
            lemma_written(b, t0, t, idxs, kk, p);
        }
        let g1 = entry_at(b, base, off)->0;
        let g2 = entry_at(b2, base, off)->0;
        assert forall|k: int| 0 <= k < nv implies #[trigger] g2[k] == g1[k] by {
            let p = ent + 2 + 6 * k;
            assert(b2[p] == b[p] && b2[p + 1] == b[p + 1]);
            assert(b2[p + 2] == b[p + 2] && b2[p + 3] == b[p + 3]);
            assert(b2[p + 4] == b[p + 4] && b2[p + 5] == b[p + 5]);
        }
        assert(g2 =~= g1);
    }
}

proof fn lemma_low_unchanged(b: Seq<u8>, t: UvTableSpec, idxs: Seq<usize>, p: int)
    requires
        patch_premises(b, t, idxs),
        0 <= p < (spec_decode(b)->0).base + 2 * (spec_decode(b)->0).slots.len() + 2,
    ensures
        written(b, spec_decode(b)->0, t, idxs, idxs.len() as int).len() == b.len(),
        written(b, spec_decode(b)->0, t, idxs, idxs.len() as int)[p] == b[p],
{
    let t0 = spec_decode(b)->0;
    lemma_decoded(b, 0);
    lemma_listed_fit(b, t, idxs);
    assert forall|a: int| 0 <= a < idxs.len() implies !#[trigger] in_field(t0, idxs, a, p) by {
        lemma_decoded(b, idxs[a] as int);
    }
    lemma_written(b, t0, t, idxs, idxs.len() as int, p);
}

proof fn lemma_slots_after(b: Seq<u8>, t: UvTableSpec, idxs: Seq<usize>, k: int)
    requires
        readback_ok(b, t, idxs),
        0 <= k <= (spec_decode(b)->0).slots.len(),
    ensures
        ({
            let t0 = spec_decode(b)->0;
            let b2 = written(b, t0, t, idxs, idxs.len() as int);
            let base = t0.base as int;
            &&& slots_upto(b2, base, k) is Some
            &&& slots_upto(b2, base, k)->0.len() == k
            &&& forall|i: int|
                0 <= i < k ==> (#[trigger] slots_upto(b2, base, k)->0[i] is Some <==> t0.slots[i] is Some)
            &&& forall|i: int|
                0 <= i < k && t0.slots[i] is Some ==> #[trigger] slots_upto(b2, base, k)->0[i] == Some(
                    (slot_off(t0, i) as u16, entry_at(b2, base, slot_off(t0, i))->0),
                )
        }),
    decreases k,
{
    let t0 = spec_decode(b)->0;
    let b2 = written(b, t0, t, idxs, idxs.len() as int);
    let base = t0.base as int;
    if k > 0 {
        lemma_slots_after(b, t, idxs, k - 1);
        let i = k - 1;
        lemma_decoded(b, i);
        let q = base + 2 * i;
        lemma_low_unchanged(b, t, idxs, q);
        lemma_low_unchanged(b, t, idxs, q + 1);
        assert(le_u16(b2, q) == le_u16(b, q));
        if t0.slots[i] is Some {
            lemma_entry_after(b, t, idxs, i);
        }
        let prev = slots_upto(b2, base, k - 1)->0;
        let cur = slots_upto(b2, base, k)->0;
        assert forall|j: int| 0 <= j < k implies (#[trigger] cur[j] is Some <==> t0.slots[j] is Some) by {
            if j < k - 1 {
                assert(cur[j] == prev[j]);
            }
        }
        assert forall|j: int| 0 <= j < k && t0.slots[j] is Some implies #[trigger] cur[j] == Some(
            (slot_off(t0, j) as u16, entry_at(b2, base, slot_off(t0, j))->0),
        ) by {
            if j < k - 1 {
                assert(cur[j] == prev[j]);
            }
        }
    }
}

/// The decoded patched block.
proof fn lemma_decode_after(b: Seq<u8>, t: UvTableSpec, idxs: Seq<usize>)
    requires
        readback_ok(b, t, idxs),
    ensures
        ({
            let t0 = spec_decode(b)->0;
            let b2 = written(b, t0, t, idxs, idxs.len() as int);
            let n = t0.slots.len() as int;
            &&& spec_decode(b2) is Some
            &&& (spec_decode(b2)->0).base == t0.base
            &&& (spec_decode(b2)->0).slots == slots_upto(b2, t0.base as int, n)->0
        }),
{
    let t0 = spec_decode(b)->0;
    let kk = idxs.len() as int;
    let b2 = written(b, t0, t, idxs, kk);
    let n = t0.slots.len() as int;
    let base = t0.base as int;
    lemma_decoded(b, 0);
    // The base field reads the same.
    lemma_low_unchanged(b, t, idxs, 0);
    lemma_low_unchanged(b, t, idxs, 1);
    lemma_low_unchanged(b, t, idxs, 2);
    lemma_low_unchanged(b, t, idxs, 3);
    assert(le_u32(b2, 0) == le_u32(b, 0));
    // The offset table scans the same.
    assert forall|p: int| base <= p < base + 2 * n implies #[trigger] b2[p] == b[p] by {
        lemma_low_unchanged(b, t, idxs, p);
    }
    lemma_scan_lower(b, base, 0, no_offset());
    let j0 = choose|j: int|
        0 <= j < t0.slots.len() && #[trigger] t0.slots[j] is Some && slot_off(t0, j) == 2 * t0.slots.len();
    lemma_decoded(b, j0);
    assert(slot_word(b, base, j0) == 2 * n);
    assert forall|j: int| 0 <= j < n implies #[trigger] slot_word(b, base, j) == 0 || slot_word(
        b,
        base,
        j,
    ) >= 2 * n by {}
    lemma_scan_same(b, b2, base, n, 0, no_offset());
    lemma_slots_after(b, t, idxs, n);
}

/// Patching a decoded block in place with a table of the same layout always
/// succeeds, and decoding the patched block gives each listed face exactly
/// the table's vertices. Listed faces may share an entry when the table gives
/// them equal vertices. Holds for blocks whose offset table ends where the
/// first entry begins and whose entries do not partly overlap.
pub proof fn lemma_patch_block_reads_back(b: Seq<u8>, t: UvTableSpec, idxs: Seq<usize>, a: int)
    requires
        readback_ok(b, t, idxs),
        0 <= a < idxs.len(),
    ensures
        patch_all_from(b, t, idxs, 0).1,
        spec_decode(patch_all_from(b, t, idxs, 0).0) is Some,
        face_of(spec_decode(patch_all_from(b, t, idxs, 0).0)->0, idxs[a] as int) == face_of(
            t,
            idxs[a] as int,
        ),
        face_of(t, idxs[a] as int) is Some,
{
    let t0 = spec_decode(b)->0;
    let kk = idxs.len() as int;
    lemma_patch_loop(b, t, idxs, 0);
    let b2 = written(b, t0, t, idxs, kk);
    lemma_decode_after(b, t, idxs);
    let i = idxs[a] as int;
    let n = t0.slots.len() as int;
    lemma_slots_after(b, t, idxs, n);
    lemma_entry_after(b, t, idxs, i);
    lemma_listed_shape(t0, t, idxs, a);
}

/// Faces whose entry is not one of the listed faces' keep their vertices
/// through an in-place patch (under the same premises).
pub proof fn lemma_patch_block_keeps_others(b: Seq<u8>, t: UvTableSpec, idxs: Seq<usize>, i: int)
    requires
        readback_ok(b, t, idxs),
        0 <= i < (spec_decode(b)->0).slots.len(),
        forall|a: int|
            0 <= a < idxs.len() ==> slot_off(spec_decode(b)->0, #[trigger] idxs[a] as int) != slot_off(
                spec_decode(b)->0,
                i,
            ),
    ensures
        spec_decode(patch_all_from(b, t, idxs, 0).0) is Some,
        face_of(spec_decode(patch_all_from(b, t, idxs, 0).0)->0, i) == face_of(
            spec_decode(b)->0,
            i,
        ),
{
    let t0 = spec_decode(b)->0;
    let kk = idxs.len() as int;
    lemma_patch_loop(b, t, idxs, 0);
    lemma_decode_after(b, t, idxs);
    let n = t0.slots.len() as int;
    lemma_slots_after(b, t, idxs, n);
    lemma_decoded(b, i);
    if t0.slots[i] is Some {
        lemma_entry_after(b, t, idxs, i);
    }
}

/// What an in-place patch does to each byte: a byte inside a listed face's
/// vertex field becomes that face's vertex bytes from the table, and every
/// other byte of the block is kept. The patch succeeds and keeps the length.
pub proof fn lemma_patch_block_bytes(b: Seq<u8>, t: UvTableSpec, idxs: Seq<usize>, p: int)
    requires
        patch_premises(b, t, idxs),
        0 <= p < b.len(),
    ensures
        patch_all_from(b, t, idxs, 0).1,
        patch_all_from(b, t, idxs, 0).0.len() == b.len(),
        (forall|a: int| 0 <= a < idxs.len() ==> !#[trigger] in_field(spec_decode(b)->0, idxs, a, p))
            ==> patch_all_from(b, t, idxs, 0).0[p] == b[p],
        forall|a: int|
            0 <= a < idxs.len() && #[trigger] in_field(spec_decode(b)->0, idxs, a, p) ==> patch_all_from(
                b,
                t,
                idxs,
                0,
            ).0[p] == field_bytes(t, idxs, a)[p - ent_start(spec_decode(b)->0, idxs[a] as int) - 2],
{
    let t0 = spec_decode(b)->0;
    assert(written(b, t0, t, idxs, 0) == b);
    lemma_patch_loop(b, t, idxs, 0);
    lemma_listed_fit(b, t, idxs);
    lemma_written(b, t0, t, idxs, idxs.len() as int, p);
}

/// An in-place patch keeps the block's layout bytes: the base field, the
/// data before the offset table and the offset table itself, and the count
/// field of every present face.
pub proof fn lemma_patch_block_keeps_layout(b: Seq<u8>, t: UvTableSpec, idxs: Seq<usize>, i: int, p: int)
    requires
        patch_premises(b, t, idxs),
    ensures
        ({
            let t0 = spec_decode(b)->0;
            let out = patch_all_from(b, t, idxs, 0).0;
            &&& t0.base + 2 * t0.slots.len() <= b.len()
            &&& 0 <= p < t0.base + 2 * t0.slots.len() ==> out[p] == b[p]
            &&& 0 <= i < t0.slots.len() && t0.slots[i] is Some ==> {
                &&& 0 <= ent_start(t0, i)
                &&& ent_start(t0, i) + 2 <= b.len()
                &&& out[ent_start(t0, i)] == b[ent_start(t0, i)]
                &&& out[ent_start(t0, i) + 1] == b[ent_start(t0, i) + 1]
            }
        }),
{
    let t0 = spec_decode(b)->0;
    let kk = idxs.len() as int;
    assert(written(b, t0, t, idxs, 0) == b);
    lemma_patch_loop(b, t, idxs, 0);
    lemma_decoded(b, 0);
    if 0 <= p < t0.base + 2 * t0.slots.len() {
        lemma_low_unchanged(b, t, idxs, p);
    }
    if 0 <= i < t0.slots.len() && t0.slots[i] is Some {
        lemma_decoded(b, i);
        lemma_listed_fit(b, t, idxs);
        let ent = ent_start(t0, i);
        assert forall|a: int| 0 <= a < kk implies !#[trigger] in_field(t0, idxs, a, ent) && !in_field(
            t0,
            idxs,
            a,
            ent + 1,
        ) by {
            let j = idxs[a] as int;
            lemma_decoded(b, j);
            if slot_off(t0, j) != slot_off(t0, i) {
                assert(ent_end(t0, i) <= ent_start(t0, j) || ent_end(t0, j) <= ent_start(t0, i));
            }
        }
        lemma_written(b, t0, t, idxs, kk, ent);
        lemma_written(b, t0, t, idxs, kk, ent + 1);
    }
}

} // verus!
