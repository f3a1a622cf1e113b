//! GP2 car `.dat` parsing.
//!
//! A GP2 car `.dat` is a binary 3D model: a header with section offsets, then
//! sections for scales, "texture commands" (faces), points, and "vertices"
//! (edges). Offsets that the header yields are computed with exact integer
//! arithmetic, so a malformed header is rejected instead of wrapping.

use vstd::prelude::*;
use crate::le::{le_i16, le_i32, le_u16};

verus! {

/// Little-endian unsigned 16-bit read.
fn u16(b: &[u8], o: usize) -> (r: u16)
    requires
        o + 1 < b@.len(),
    ensures
        r == le_u16(b@, o as int),
{
    b[o] as u16 + (b[o + 1] as u16) * 256
}

/// Little-endian signed 16-bit read.
fn i16le(b: &[u8], o: usize) -> (r: i16)
    requires
        o + 1 < b@.len(),
    ensures
        r == le_i16(b@, o as int),
{
    let v = u16(b, o);
    if v >= 0x8000 {
        (v as i32 - 0x1_0000) as i16
    } else {
        v as i16
    }
}

/// Little-endian signed 32-bit read.
fn i32le(b: &[u8], o: usize) -> (r: i32)
    requires
        o + 3 < b@.len(),
    ensures
        r == le_i32(b@, o as int),
{
    let v: u64 = b[o] as u64 + (b[o + 1] as u64) * 256 + (b[o + 2] as u64) * 0x1_0000 + (b[o
        + 3] as u64) * 0x100_0000;
    if v >= 0x8000_0000 {
        (v as i64 - 0x1_0000_0000) as i32
    } else {
        v as i32
    }
}

/// Header layout: `<hh` + 11×`i32` + `hhh` (all little-endian).
#[derive(Clone, Copy, Debug, PartialEq, Eq, Structural)]
pub struct Header {
    pub magic: i16,
    pub id: i16,
    pub scale_begin: i32,
    pub scale_end: i32,
    pub texture_begin: i32,
    pub points_begin: i32,
    pub vertex_begin: i32,
    pub texture_end: i32,
    pub vertex_end: i32,
    pub file_end: i32,
    pub file_end2: i32,
    pub always0: i32,
    pub always1: i32,
    pub unk: i16,
    pub size: i16,
    pub size8: i16,
}

/// The header read from the first 54 bytes of `b`.
pub open spec fn spec_header(b: Seq<u8>) -> Header {
    Header {
        magic: le_i16(b, 0) as i16,
        id: le_i16(b, 2) as i16,
        scale_begin: le_i32(b, 4) as i32,
        scale_end: le_i32(b, 8) as i32,
        texture_begin: le_i32(b, 12) as i32,
        points_begin: le_i32(b, 16) as i32,
        vertex_begin: le_i32(b, 20) as i32,
        texture_end: le_i32(b, 24) as i32,
        vertex_end: le_i32(b, 28) as i32,
        file_end: le_i32(b, 32) as i32,
        file_end2: le_i32(b, 36) as i32,
        always0: le_i32(b, 40) as i32,
        always1: le_i32(b, 44) as i32,
        unk: le_i16(b, 48) as i16,
        size: le_i16(b, 50) as i16,
        size8: le_i16(b, 52) as i16,
    }
}

impl Header {
    /// Total byte length of the header on disk: `2+2 + 11*4 + 2+2+2 = 54`.
    pub const SIZE: usize = 54;

    /// Parse the fixed-layout header. Returns `None` if `bytes` is too short.
    pub fn parse(bytes: &[u8]) -> (res: Option<Header>)
        ensures
            bytes@.len() < 54 ==> res is None,
            bytes@.len() >= 54 ==> res == Some(spec_header(bytes@)),
    {
        if bytes.len() < 54 {
            return None;
        }
        Some(
            Header {
                magic: i16le(bytes, 0),
                id: i16le(bytes, 2),
                scale_begin: i32le(bytes, 4),
                scale_end: i32le(bytes, 8),
                texture_begin: i32le(bytes, 12),
                points_begin: i32le(bytes, 16),
                vertex_begin: i32le(bytes, 20),
                texture_end: i32le(bytes, 24),
                vertex_end: i32le(bytes, 28),
                file_end: i32le(bytes, 32),
                file_end2: i32le(bytes, 36),
                always0: i32le(bytes, 40),
                always1: i32le(bytes, 44),
                unk: i16le(bytes, 48),
                size: i16le(bytes, 50),
                size8: i16le(bytes, 52),
            },
        )
    }
}

/// A resolved 3D point (model coordinates).
#[derive(Clone, Copy, Debug, PartialEq, Eq, Structural)]
pub struct Point3D {
    pub x: i32,
    pub y: i32,
    pub z: i32,
}

/// An edge: two point-index endpoints.
#[derive(Clone, Copy, Debug, PartialEq, Eq, Structural)]
pub struct Edge {
    pub from: u8,
    pub to: u8,
}

/// One parsed texture command (a "face" in the texture-command stream):
/// `numl`/`numh` are the command's position bytes, `cmd` is the opcode, and
/// `args` are its raw argument bytes.
#[derive(Clone, Debug, PartialEq, Eq)]
pub struct Face {
    pub numl: u8,
    pub numh: u8,
    pub cmd: u8,
    pub args: Vec<u8>,
}

/// Mathematical value of a [`Face`].
pub struct FaceSpec {
    pub numl: u8,
    pub numh: u8,
    pub cmd: u8,
    pub args: Seq<u8>,
}

impl View for Face {
    type V = FaceSpec;

    open spec fn view(&self) -> FaceSpec {
        FaceSpec { numl: self.numl, numh: self.numh, cmd: self.cmd, args: self.args@ }
    }
}

/// Fixed argument-byte count per texture-command opcode.
pub open spec fn spec_fixed_args(cmd: u8) -> Option<int> {
    if cmd == 0x80 || cmd == 0x90 {
        Some(7)
    } else if cmd == 0x13 {
        Some(15)
    } else if cmd == 0x18 || cmd == 0x11 || cmd == 0x1a || cmd == 0x16 || cmd == 0x17 || cmd
        == 0x12 || cmd == 0x15 || cmd == 0x10 || cmd == 0x00 {
        Some(11)
    } else if cmd == 0x0a {
        Some(5)
    } else {
        None
    }
}

/// Opcodes whose argument list is terminated by a `00 00` pair.
pub open spec fn spec_is_pairterm(cmd: u8) -> bool {
    cmd == 0x18 || cmd == 0x11 || cmd == 0x1a || cmd == 0x16 || cmd == 0x17 || cmd == 0x12 || cmd
        == 0x15 || cmd == 0x10 || cmd == 0x00 || cmd == 0x0a
}

/// Fixed argument-byte count per opcode; `None` for unknown opcodes (the
/// signal of a wrong `start`).
fn fixed_args(cmd: u8) -> (r: Option<usize>)
    ensures
        match r {
            Some(n) => spec_fixed_args(cmd) == Some(n as int),
            None => spec_fixed_args(cmd) is None,
        },
{
    match cmd {
        0x80 | 0x90 => Some(7),
        0x13 => Some(15),
        0x18 | 0x11 | 0x1a | 0x16 | 0x17 | 0x12 | 0x15 | 0x10 | 0x00 => Some(11),
        0x0a => Some(5),
        _ => None,
    }
}

/// Opcodes whose argument list is terminated by a `00 00` pair.
fn is_pairterm(cmd: u8) -> (r: bool)
    ensures
        r == spec_is_pairterm(cmd),
{
    match cmd {
        0x18 | 0x11 | 0x1a | 0x16 | 0x17 | 0x12 | 0x15 | 0x10 | 0x00 | 0x0a => true,
        _ => false,
    }
}

/// Append byte pairs read from `c` onward until `args` ends in `00 00`.
pub open spec fn read_pairs(b: Seq<u8>, args: Seq<u8>, c: int) -> Option<(Seq<u8>, int)>
    decreases b.len() - c,
{
    if args.len() >= 2 && args[args.len() - 2] == 0 && args[args.len() - 1] == 0 {
        Some((args, c))
    } else if c + 2 > b.len() {
        None
    } else {
        read_pairs(b, args + b.subrange(c, c + 2), c + 2)
    }
}

/// The texture command starting at byte `c`, and the offset just past it.
pub open spec fn face_at(b: Seq<u8>, c: int) -> Option<(FaceSpec, int)> {
    if c < 0 || c + 3 > b.len() {
        None
    } else {
        let cmd = b[c + 2];
        match spec_fixed_args(cmd) {
            None => None,
            Some(nfix) => {
                let c1 = c + 3;
                if c1 + nfix > b.len() {
                    None
                } else {
                    let args = b.subrange(c1, c1 + nfix);
                    let c2 = c1 + nfix;
                    let ext = cmd == 0x13 && args.len() > 3 && args[3] == 0x80;
                    if ext && c2 + 2 > b.len() {
                        None
                    } else {
                        let args2 = if ext {
                            args + b.subrange(c2, c2 + 2)
                        } else {
                            args
                        };
                        let c3 = if ext {
                            c2 + 2
                        } else {
                            c2
                        };
                        if spec_is_pairterm(cmd) {
                            match read_pairs(b, args2, c3) {
                                None => None,
                                Some((a, c4)) => Some(
                                    (FaceSpec { numl: b[c], numh: b[c + 1], cmd, args: a }, c4),
                                ),
                            }
                        } else {
                            Some((FaceSpec { numl: b[c], numh: b[c + 1], cmd, args: args2 }, c3))
                        }
                    }
                }
            },
        }
    }
}

proof fn lemma_read_pairs_advances(b: Seq<u8>, args: Seq<u8>, c: int)
    ensures
        c <= b.len() ==> (read_pairs(b, args, c) matches Some((a, c2)) ==> c <= c2 <= b.len()),
    decreases b.len() - c,
{
    if !(args.len() >= 2 && args[args.len() - 2] == 0 && args[args.len() - 1] == 0) && c + 2
        <= b.len() {
        lemma_read_pairs_advances(b, args + b.subrange(c, c + 2), c + 2);
    }
}

proof fn lemma_face_at_advances(b: Seq<u8>, c: int)
    ensures
        face_at(b, c) matches Some((f, c2)) ==> c + 3 <= c2 <= b.len(),
{
    if c >= 0 && c + 3 <= b.len() {
        let cmd = b[c + 2];
        if let Some(nfix) = spec_fixed_args(cmd) {
            let c1 = c + 3;
            if c1 + nfix <= b.len() {
                let args = b.subrange(c1, c1 + nfix);
                let c2 = c1 + nfix;
                let ext = cmd == 0x13 && args.len() > 3 && args[3] == 0x80;
                let args2 = if ext {
                    args + b.subrange(c2, c2 + 2)
                } else {
                    args
                };
                let c3 = if ext {
                    c2 + 2
                } else {
                    c2
                };
                lemma_read_pairs_advances(b, args2, c3);
            }
        }
    }
}

/// All texture commands from `c` up to exactly `end`; `None` if the stream
/// does not land precisely on `end`.
pub open spec fn faces_from(b: Seq<u8>, c: int, end: int) -> Option<Seq<FaceSpec>>
    decreases b.len() - c
    via faces_from_decreases
{
    if c >= end {
        if c == end {
            Some(Seq::empty())
        } else {
            None
        }
    } else {
        match face_at(b, c) {
            None => None,
            Some((f, c2)) => match faces_from(b, c2, end) {
                None => None,
                Some(fs) => Some(seq![f] + fs),
            },
        }
    }
}

#[via_fn]
proof fn faces_from_decreases(b: Seq<u8>, c: int, end: int) {
    lemma_face_at_advances(b, c);
}

/// The texture-command stream of a `.dat` whose scale section starts at `start`.
pub open spec fn spec_faces(b: Seq<u8>, h: Header, start: int) -> Option<Seq<FaceSpec>> {
    let base = start - h.scale_begin;
    let count0 = base + h.texture_begin;
    let end = base + h.texture_end;
    if count0 < 0 || end < count0 || end > b.len() {
        None
    } else {
        faces_from(b, count0, end)
    }
}

/// Parse one texture command at `count`.
fn parse_face_at(bytes: &[u8], count: usize) -> (res: Option<(Face, usize)>)
    ensures
        match res {
            Some((f, c)) => face_at(bytes@, count as int) == Some((f@, c as int)),
            None => face_at(bytes@, count as int) is None,
        },
{
    let b = Ghost(bytes@);
    let len = bytes.len();
    if count > len || len - count < 3 {
        return None;
    }
    let numl = bytes[count];
    let numh = bytes[count + 1];
    let cmd = bytes[count + 2];
    let c1 = count + 3;
    let nfix = match fixed_args(cmd) {
        Some(n) => n,
        None => return None,
    };
    if nfix > len - c1 {
        return None;
    }
    let mut args: Vec<u8> = Vec::new();
    let mut k: usize = 0;
    while k < nfix
        invariant
            c1 + nfix <= len,
            len == bytes@.len(),
            k <= nfix,
            args@ == bytes@.subrange(c1 as int, c1 + k),
        decreases nfix - k,
    {
        args.push(bytes[c1 + k]);
        k = k + 1;
        assert(args@ =~= bytes@.subrange(c1 as int, c1 + k));
    }
    let c2 = c1 + nfix;
    let ext = cmd == 0x13 && args.len() > 3 && args[3] == 0x80;
    let mut pos = c2;
    if ext {
        if len - c2 < 2 {
            return None;
        }
        args.push(bytes[c2]);
        args.push(bytes[c2 + 1]);
        pos = c2 + 2;
        assert(args@ =~= bytes@.subrange(c1 as int, c1 + nfix) + bytes@.subrange(
            c2 as int,
            c2 + 2,
        ));
    }
    let ghost args2 = args@;
    let ghost c3 = pos;
    if is_pairterm(cmd) {
        assert(face_at(bytes@, count as int) == (match read_pairs(bytes@, args2, c3 as int) {
            None => None,
            Some((a, c4)) => Some((FaceSpec { numl, numh, cmd, args: a }, c4)),
        }));
        while !(args.len() >= 2 && args[args.len() - 2] == 0 && args[args.len() - 1] == 0)
            invariant
                len == bytes@.len(),
                pos <= len,
                face_at(bytes@, count as int) == (match read_pairs(bytes@, args2, c3 as int) {
                    None => None,
                    Some((a, c4)) => Some((FaceSpec { numl, numh, cmd, args: a }, c4)),
                }),
                read_pairs(bytes@, args2, c3 as int) == read_pairs(bytes@, args@, pos as int),
            decreases len - pos,
        {
            if len - pos < 2 {
                assert(read_pairs(bytes@, args@, pos as int) is None);
                return None;
            }
            let ghost before = args@;
            args.push(bytes[pos]);
            args.push(bytes[pos + 1]);
            assert(args@ =~= before + bytes@.subrange(pos as int, pos + 2));
            pos = pos + 2;
        }
    }
    Some((Face { numl, numh, cmd, args }, pos))
}

/// Parse the texture-command stream into a list of [`Face`]s. Requires the
/// stream to land precisely on `texture_end` (returns `None` otherwise — the
/// signal of a wrong `start`).
fn parse_faces(bytes: &[u8], header: &Header, start: i32) -> (res: Option<Vec<Face>>)
    ensures
        match res {
            Some(fs) => spec_faces(bytes@, *header, start as int) == Some(
                fs@.map_values(|f: Face| f@),
            ),
            None => spec_faces(bytes@, *header, start as int) is None,
        },
{
    let base: i128 = start as i128 - header.scale_begin as i128;
    let count0 = base + header.texture_begin as i128;
    let end = base + header.texture_end as i128;
    if count0 < 0 || end < count0 || end > bytes.len() as i128 {
        return None;
    }
    let end = end as usize;
    let mut count = count0 as usize;
    let mut faces: Vec<Face> = Vec::new();
    let ghost total = faces_from(bytes@, count0 as int, end as int);
    assert(spec_faces(bytes@, *header, start as int) == total);
    while count < end
        invariant
            end <= bytes@.len(),
            count <= bytes@.len(),
            total == faces_from(bytes@, count0 as int, end as int),
            spec_faces(bytes@, *header, start as int) == total,
            total == (match faces_from(bytes@, count as int, end as int) {
                None => None,
                Some(rest) => Some(faces@.map_values(|f: Face| f@) + rest),
            }),
        decreases bytes@.len() - count,
    {
        match parse_face_at(bytes, count) {
            None => {
                assert(faces_from(bytes@, count as int, end as int) is None);
                return None;
            },
            Some((f, c2)) => {
                proof {
                    lemma_face_at_advances(bytes@, count as int);
                }
                let ghost old_faces = faces@;
                faces.push(f);
                assert(faces@.map_values(|f: Face| f@) =~= old_faces.map_values(|f: Face| f@)
                    + seq![f@]);
                count = c2;
                proof {
                    match faces_from(bytes@, count as int, end as int) {
                        None => {},
                        Some(rest) => {
                            assert(old_faces.map_values(|f: Face| f@) + (seq![f@] + rest)
                                =~= faces@.map_values(|f: Face| f@) + rest);
                        },
                    }
                }
            },
        }
    }
    if count != end {
        return None;
    }
    assert(faces@.map_values(|f: Face| f@) + Seq::<FaceSpec>::empty() =~= faces@.map_values(
        |f: Face| f@,
    ));
    Some(faces)
}

/// Extract the signed point references from a face's args: read `(lo, hi)`
/// `u16` pairs from `i` onward as signed `i16`, skipping zeros.
pub open spec fn pts_from(args: Seq<u8>, i: int) -> Seq<i16>
    decreases args.len() - i,
{
    if i < 0 || i + 1 >= args.len() {
        Seq::empty()
    } else {
        let val = le_u16(args, i);
        let head = if val != 0 {
            seq![(if val >= 0x8000 { val - 0x1_0000 } else { val }) as i16]
        } else {
            Seq::empty()
        };
        head + pts_from(args, i + 2)
    }
}

/// First argument index holding point references for opcode `cmd`.
pub open spec fn pts_start(cmd: u8, args: Seq<u8>) -> int {
    if cmd == 0x0a || cmd == 0x00 {
        1
    } else if args.len() > 3 && args[3] == 0x80 {
        9
    } else {
        5
    }
}

/// The signed point references of a face (`0x80`/`0x90` commands have none).
pub open spec fn spec_ptslist(cmd: u8, args: Seq<u8>) -> Seq<i16> {
    if cmd >= 0x7F {
        Seq::empty()
    } else {
        pts_from(args, pts_start(cmd, args))
    }
}

/// Extract the signed point references from a face's args.
fn ptslist(cmd: u8, args: &Vec<u8>) -> (pts: Vec<i16>)
    ensures
        pts@ == spec_ptslist(cmd, args@),
{
    if cmd >= 0x7F {
        return Vec::new();
    }
    let mut start_arg = 5usize;
    if args.len() > 3 && args[3] == 0x80 {
        start_arg = start_arg + 4;
    }
    if cmd == 0x0a || cmd == 0x00 {
        start_arg = 1;
    }
    let mut pts: Vec<i16> = Vec::new();
    let mut i = start_arg;
    while i < args.len() && args.len() - i >= 2
        invariant
            start_arg <= i,
            pts_from(args@, start_arg as int) == pts@ + pts_from(args@, i as int),
        decreases args.len() - i,
    {
        let val: u16 = args[i] as u16 + (args[i + 1] as u16) * 256;
        let ghost before = pts@;
        if val != 0 {
            let sv: i16 = if val >= 0x8000 {
                (val as i32 - 0x1_0000) as i16
            } else {
                val as i16
            };
            pts.push(sv);
        }
        assert(pts_from(args@, i as int) =~= (pts@.subrange(before.len() as int, pts@.len() as int))
            + pts_from(args@, i + 2));
        assert(pts@ =~= before + pts@.subrange(before.len() as int, pts@.len() as int));
        i = i + 2;
    }
    assert(pts@ + pts_from(args@, i as int) =~= pts@);
    pts
}

/// Exact truncating (towards zero) integer division, as Rust's `/` on signed ints.
pub open spec fn tdiv(a: int, d: int) -> int {
    if a >= 0 {
        a / d
    } else {
        -((-a) / d)
    }
}

fn tdiv_exec(a: i128, d: i128) -> (r: i128)
    requires
        d > 0,
        -0x1_0000_0000_0000 < a < 0x1_0000_0000_0000,
    ensures
        r == tdiv(a as int, d as int),
{
    if a >= 0 {
        a / d
    } else {
        -((-a) / d)
    }
}

/// A coordinate decoded from a raw point word through the scale table:
/// `0x81..0xFE` select negated scales, other positive words select scales.
pub open spec fn spec_scval(raw: int, scales: Seq<i32>) -> int {
    if 0x80 < raw && raw < 0xFF {
        let idx = tdiv(raw - 0x84, 4);
        if idx < scales.len() {
            -scales[idx]
        } else {
            0
        }
    } else if raw > 0 {
        let idx = tdiv(raw - 0x04, 4);
        if idx < scales.len() {
            scales[idx] as int
        } else {
            0
        }
    } else {
        raw
    }
}

/// Every scale is a sign-extended 16-bit value.
pub open spec fn scales_in_i16(scales: Seq<i32>) -> bool {
    forall|i: int| 0 <= i < scales.len() ==> -0x8000 <= #[trigger] scales[i] <= 0x7fff
}

fn scval(raw: u16, scales: &Vec<i32>) -> (r: i32)
    requires
        scales_in_i16(scales@),
    ensures
        r == spec_scval(raw as int, scales@),
{
    let raw = raw as i32;
    if 0x80 < raw && raw < 0xFF {
        let idx: usize = if raw < 0x84 {
            0
        } else {
            ((raw - 0x84) / 4) as usize
        };
        if idx < scales.len() {
            -scales[idx]
        } else {
            0
        }
    } else if raw > 0 {
        let idx: usize = if raw < 0x04 {
            0
        } else {
            ((raw - 0x04) / 4) as usize
        };
        if idx < scales.len() {
            scales[idx]
        } else {
            0
        }
    } else {
        raw
    }
}

/// Point `i` of the points section at `pbase`, resolved against the current
/// (partially resolved) point list `cur` for `0x8000` back-references.
pub open spec fn point_at(
    b: Seq<u8>,
    pbase: int,
    scales: Seq<i32>,
    cur: Seq<Point3D>,
    i: int,
) -> Point3D {
    let o = pbase + 8 * i;
    let xraw = le_u16(b, o);
    let yraw = le_u16(b, o + 2);
    let zraw = le_u16(b, o + 4);
    let z = if zraw > 0x8000 {
        zraw - 0x1_0000
    } else {
        zraw
    };
    if xraw < 0x8000 {
        Point3D {
            x: spec_scval(xraw, scales) as i32,
            y: spec_scval(yraw, scales) as i32,
            z: z as i32,
        }
    } else {
        let pidx = xraw - 0x8000;
        if pidx < cur.len() {
            Point3D { x: cur[pidx].x, y: cur[pidx].y, z: z as i32 }
        } else {
            Point3D { x: 0, y: 0, z: z as i32 }
        }
    }
}

/// One resolution pass over the first `k` points, updating them in order.
pub open spec fn run_pass(
    b: Seq<u8>,
    pbase: int,
    scales: Seq<i32>,
    cur: Seq<Point3D>,
    k: nat,
) -> Seq<Point3D>
    decreases k,
{
    if k == 0 {
        cur
    } else {
        let prev = run_pass(b, pbase, scales, cur, (k - 1) as nat);
        prev.update(k - 1, point_at(b, pbase, scales, prev, k - 1))
    }
}

/// `n` points at the origin.
pub open spec fn zero_points(n: nat) -> Seq<Point3D> {
    Seq::new(n, |i: int| Point3D { x: 0, y: 0, z: 0 })
}

/// Mathematical value of a [`Geometry`].
pub struct GeometrySpec {
    pub scales: Seq<i32>,
    pub points: Seq<Point3D>,
    pub edges: Seq<Edge>,
    pub faces: Seq<FaceSpec>,
}

/// The geometry of a `.dat` whose scale section starts at absolute offset
/// `start`: `None` when the header is short, a section count is negative, a
/// section does not fit the buffer, or the texture-command stream does not
/// land exactly on `texture_end`. Points are resolved in two passes.
pub open spec fn spec_geometry(b: Seq<u8>, start: int) -> Option<GeometrySpec> {
    if b.len() < 54 {
        None
    } else {
        let h = spec_header(b);
        let base = start - h.scale_begin;
        let nscale = tdiv(h.scale_end - h.scale_begin, 2);
        let npoints = tdiv(h.vertex_begin - h.points_begin, 8);
        let nedges = tdiv(h.vertex_end - h.vertex_begin, 4);
        let vbase = base + h.vertex_begin;
        let pbase = base + h.points_begin;
        if nscale < 0 || npoints < 0 || nedges < 0 {
            None
        } else if start + nscale * 2 > b.len() || vbase + nedges * 4 > b.len() || pbase
            + npoints * 8 > b.len() {
            None
        } else if (nscale > 0 && start < 0) || (nedges > 0 && vbase < 0) || (npoints > 0 && pbase
            < 0) {
            None
        } else {
            let scales = Seq::new(nscale as nat, |i: int| le_i16(b, start + 2 * i) as i32);
            let edges = Seq::new(
                nedges as nat,
                |i: int| Edge { from: b[vbase + 4 * i], to: b[vbase + 4 * i + 1] },
            );
            let pass1 = run_pass(b, pbase, scales, zero_points(npoints as nat), npoints as nat);
            let points = run_pass(b, pbase, scales, pass1, npoints as nat);
            match spec_faces(b, h, start) {
                None => None,
                Some(faces) => Some(GeometrySpec { scales, points, edges, faces }),
            }
        }
    }
}

/// Resolved geometry section: scales, points, edges, plus the parsed
/// texture-command [`Face`]s.
#[derive(Clone, Debug, PartialEq, Eq)]
pub struct Geometry {
    pub scales: Vec<i32>,
    pub points: Vec<Point3D>,
    pub edges: Vec<Edge>,
    pub faces: Vec<Face>,
}

/// One resolution pass over `points` (all of them), in place.
fn resolve_pass(bytes: &[u8], pbase: i128, scales: &Vec<i32>, points: &mut Vec<Point3D>)
    requires
        scales_in_i16(scales@),
        0 <= pbase,
        pbase + old(points)@.len() * 8 <= bytes@.len(),
    ensures
        final(points)@ == run_pass(
            bytes@,
            pbase as int,
            scales@,
            old(points)@,
            old(points)@.len() as nat,
        ),
{
    let n = points.len();
    let blen = bytes.len();
    let ghost cur0 = points@;
    let mut i: usize = 0;
    while i < n
        invariant
            scales_in_i16(scales@),
            0 <= pbase,
            pbase + n * 8 <= bytes@.len(),
            blen == bytes@.len(),
            n == cur0.len(),
            i <= n,
            points@ == run_pass(bytes@, pbase as int, scales@, cur0, i as nat),
        decreases n - i,
    {
        proof {
            lemma_run_pass_len(bytes@, pbase as int, scales@, cur0, i as nat);
        }
        let ii = i as i128;
        assert(0 <= ii * 8 <= n * 8) by (nonlinear_arith)
            requires
                0 <= ii <= n,
        ;
        let oo: i128 = pbase + ii * 8;
        assert(0 <= oo && oo + 8 <= bytes@.len());
        let o = oo as usize;
        let xraw = u16(bytes, o);
        let yraw = u16(bytes, o + 2);
        let zraw = u16(bytes, o + 4);
        let z: i32 = if zraw as u32 > 0x8000 {
            -(0x1_0000 - zraw as i32)
        } else {
            zraw as i32
        };
        let x: i32;
        let y: i32;
        if (xraw as u32) < 0x8000 {
            x = scval(xraw, scales);
            y = scval(yraw, scales);
        } else {
            let pidx = (xraw as usize) - 0x8000;
            if pidx < points.len() {
                x = points[pidx].x;
                y = points[pidx].y;
            } else {
                x = 0;
                y = 0;
            }
        }
        points.set(i, Point3D { x, y, z });
        i = i + 1;
    }
}

proof fn lemma_run_pass_len(b: Seq<u8>, pbase: int, scales: Seq<i32>, cur: Seq<Point3D>, k: nat)
    requires
        k <= cur.len(),
    ensures
        run_pass(b, pbase, scales, cur, k).len() == cur.len(),
    decreases k,
{
    if k > 0 {
        lemma_run_pass_len(b, pbase, scales, cur, (k - 1) as nat);
    }
}

/// The scale-section start offsets that car `.dat` files use, in the order
/// they are tried.
pub open spec fn scale_starts() -> Seq<i32> {
    seq![106i32, 78i32, 54i32, 82i32, 110i32]
}

/// The first start among `scale_starts()[k..]` at which the bytes parse,
/// with the geometry parsed there.
pub open spec fn first_parse(b: Seq<u8>, k: int) -> Option<(i32, GeometrySpec)>
    decreases scale_starts().len() - k,
{
    if k < 0 || k >= scale_starts().len() {
        None
    } else {
        match spec_geometry(b, scale_starts()[k] as int) {
            Some(g) => Some((scale_starts()[k], g)),
            None => first_parse(b, k + 1),
        }
    }
}

impl Geometry {
    /// Mathematical value of this geometry.
    pub open spec fn spec(&self) -> GeometrySpec {
        GeometrySpec {
            scales: self.scales@,
            points: self.points@,
            edges: self.edges@,
            faces: self.faces@.map_values(|f: Face| f@),
        }
    }

    /// Resolve scales/points/edges from `bytes`, using `start` as the absolute
    /// offset of the scale section, and parse the texture-command stream with
    /// the same `start`.
    pub fn parse(bytes: &[u8], start: i32) -> (res: Option<Geometry>)
        ensures
            match res {
                Some(g) => spec_geometry(bytes@, start as int) == Some(g.spec()),
                None => spec_geometry(bytes@, start as int) is None,
            },
    {
        let header = match Header::parse(bytes) {
            Some(h) => h,
            None => return None,
        };
        let ghost h = spec_header(bytes@);
        let len = bytes.len() as i128;
        let start_i = start as i128;
        let base = start_i - header.scale_begin as i128;
        let nscale = tdiv_exec(header.scale_end as i128 - header.scale_begin as i128, 2);
        let npoints = tdiv_exec(header.vertex_begin as i128 - header.points_begin as i128, 8);
        let nedges = tdiv_exec(header.vertex_end as i128 - header.vertex_begin as i128, 4);
        if nscale < 0 || npoints < 0 || nedges < 0 {
            return None;
        }
        let vbase = base + header.vertex_begin as i128;
        let pbase = base + header.points_begin as i128;
        // Each region must fit the buffer before anything is allocated.
        if start_i + nscale * 2 > len {
            return None;
        }
        if vbase + nedges * 4 > len {
            return None;
        }
        if pbase + npoints * 8 > len {
            return None;
        }
        if (nscale > 0 && start_i < 0) || (nedges > 0 && vbase < 0) || (npoints > 0 && pbase < 0) {
            return None;
        }
        let ghost sc_spec = Seq::new(nscale as nat, |i: int| le_i16(bytes@, start + 2 * i) as i32);
        // scales: nscale signed-16 LE values read from absolute offset start + i*2.
        let mut scales: Vec<i32> = Vec::new();
        let mut i: i128 = 0;
        while i < nscale
            invariant
                0 <= i <= nscale,
                len <= usize::MAX,
                start_i == start,
                nscale == 0 || start_i >= 0,
                start_i + nscale * 2 <= len,
                len == bytes@.len(),
                scales@ == sc_spec.subrange(0, i as int),
                sc_spec == Seq::new(nscale as nat, |i: int| le_i16(bytes@, start + 2 * i) as i32),
            decreases nscale - i,
        {
            let oo: i128 = start_i + i * 2;
            assert(0 <= oo && oo + 2 <= len);
            let o = oo as usize;
            assert(o as int == start + 2 * i);
            assert(sc_spec[i as int] == le_i16(bytes@, o as int) as i32);
            let v = i16le(bytes, o);
            assert(-0x8000 <= v <= 0x7fff);
            scales.push(v as i32);
            i = i + 1;
            assert(scales@ =~= sc_spec.subrange(0, i as int));
        }
        assert(scales@ =~= sc_spec);
        assert(scales_in_i16(scales@));
        // edges: read at base + vertex_begin + i*4, bytes [0],[1] = from,to.
        let ghost ed_spec = Seq::new(
            nedges as nat,
            |i: int| Edge { from: bytes@[vbase + 4 * i], to: bytes@[vbase + 4 * i + 1] },
        );
        let mut edges: Vec<Edge> = Vec::new();
        let mut i: i128 = 0;
        while i < nedges
            invariant
                0 <= i <= nedges,
                len <= usize::MAX,
                nedges == 0 || vbase >= 0,
                vbase + nedges * 4 <= len,
                len == bytes@.len(),
                edges@ == ed_spec.subrange(0, i as int),
                ed_spec == Seq::new(
                    nedges as nat,
                    |i: int| Edge { from: bytes@[vbase + 4 * i], to: bytes@[vbase + 4 * i + 1] },
                ),
            decreases nedges - i,
        {
            let o = (vbase + i * 4) as usize;
            edges.push(Edge { from: bytes[o], to: bytes[o + 1] });
            i = i + 1;
            assert(edges@ =~= ed_spec.subrange(0, i as int));
        }
        assert(edges@ =~= ed_spec);
        // points: two passes resolving the 0x8000 back-references.
        let mut points: Vec<Point3D> = Vec::new();
        let mut i: i128 = 0;
        while i < npoints
            invariant
                0 <= i <= npoints,
                points@ == zero_points(i as nat),
            decreases npoints - i,
        {
            points.push(Point3D { x: 0, y: 0, z: 0 });
            i = i + 1;
            assert(points@ =~= zero_points(i as nat));
        }
        let pb = if npoints == 0 { 0 } else { pbase };
        proof {
            if npoints == 0 {
                assert(run_pass(bytes@, pbase as int, scales@, zero_points(0), 0) == run_pass(
                    bytes@,
                    pb as int,
                    scales@,
                    zero_points(0),
                    0,
                ));
            }
        }
        resolve_pass(bytes, pb, &scales, &mut points);
        let ghost pass1 = points@;
        proof {
            lemma_run_pass_len(bytes@, pb as int, scales@, zero_points(npoints as nat), npoints as nat);
        }
        resolve_pass(bytes, pb, &scales, &mut points);
        let faces = match parse_faces(bytes, &header, start) {
            Some(f) => f,
            None => return None,
        };
        let g = Geometry { scales, points, edges, faces };
        proof {
            if npoints == 0 {
                assert(points@ =~= zero_points(0));
            }
        }
        Some(g)
    }

    /// Try the usual scale-section starts in order and keep the first that
    /// parses, with the start it used.
    pub fn parse_any(bytes: &[u8]) -> (res: Option<(i32, Geometry)>)
        ensures
            match res {
                Some((s, g)) => first_parse(bytes@, 0) == Some((s, g.spec())),
                None => first_parse(bytes@, 0) is None,
            },
    {
        let starts: Vec<i32> = vec![106, 78, 54, 82, 110];
        assert(starts@ == scale_starts());
        let mut k: usize = 0;
        while k < starts.len()
            invariant
                starts@ == scale_starts(),
                k <= starts@.len(),
                first_parse(bytes@, 0) == first_parse(bytes@, k as int),
            decreases starts@.len() - k,
        {
            let s = starts[k];
            match Geometry::parse(bytes, s) {
                Some(g) => {
                    return Some((s, g));
                },
                None => {},
            }
            k = k + 1;
        }
        None
    }

    /// The parsed texture-command faces (indexed by command position).
    pub fn faces(&self) -> (r: &[Face])
        ensures
            r@ == self.faces@,
    {
        self.faces.as_slice()
    }
}

/// `.dat` texture selector of a face: `args[1] | args[2] << 8`; `None` for the
/// no-selector commands (`cmd` 0x00 and 0x0a) or fewer than 3 argument bytes.
pub open spec fn spec_face_jam_id(f: FaceSpec) -> Option<u16> {
    if f.cmd == 0x00 || f.cmd == 0x0a || f.args.len() < 3 {
        None
    } else {
        Some((f.args[1] + 256 * f.args[2]) as u16)
    }
}

/// The jam id of the face at command position `i` (`None` if there is none).
pub open spec fn spec_jam_id(faces: Seq<FaceSpec>, i: int) -> Option<u16> {
    if 0 <= i < faces.len() {
        spec_face_jam_id(faces[i])
    } else {
        None
    }
}

/// The body jam id: the team texture selector.
pub open spec fn body_jam_id() -> u16 {
    530
}

/// Positions `0..k` of `faces` whose jam id is the body selector, ascending.
pub open spec fn body_faces_upto(faces: Seq<FaceSpec>, k: int) -> Seq<usize>
    decreases k,
{
    if k <= 0 {
        Seq::empty()
    } else if spec_jam_id(faces, k - 1) == Some(body_jam_id()) {
        body_faces_upto(faces, k - 1).push((k - 1) as usize)
    } else {
        body_faces_upto(faces, k - 1)
    }
}

/// Point indices reached by walking the signed edge references `pts[..k]`:
/// `ei = |val| - 1`; the point is `edges[ei].from` when `val > 0`, else
/// `edges[ei].to`; out-of-range edges and points are skipped; a zero
/// reference yields `None`.
pub open spec fn walk_upto(pts: Seq<i16>, edges: Seq<Edge>, npoints: int, k: int) -> Option<
    Seq<usize>,
>
    decreases k,
{
    if k <= 0 {
        Some(Seq::empty())
    } else {
        match walk_upto(pts, edges, npoints, k - 1) {
            None => None,
            Some(s) => {
                let val = pts[k - 1] as int;
                if val == 0 {
                    None
                } else {
                    let ei = (if val < 0 { -val } else { val }) - 1;
                    if ei < edges.len() {
                        let pi = if val > 0 {
                            edges[ei].from as int
                        } else {
                            edges[ei].to as int
                        };
                        if pi < npoints {
                            Some(s.push(pi as usize))
                        } else {
                            Some(s)
                        }
                    } else {
                        Some(s)
                    }
                }
            },
        }
    }
}

proof fn lemma_walk_none_stays(pts: Seq<i16>, edges: Seq<Edge>, npoints: int, k: int, m: int)
    requires
        k <= m,
        walk_upto(pts, edges, npoints, k) is None,
    ensures
        walk_upto(pts, edges, npoints, m) is None,
    decreases m - k,
{
    if k < m {
        lemma_walk_none_stays(pts, edges, npoints, k, m - 1);
    }
}

proof fn lemma_walk_in_range(pts: Seq<i16>, edges: Seq<Edge>, npoints: int, k: int)
    ensures
        walk_upto(pts, edges, npoints, k) matches Some(w) ==> forall|j: int|
            0 <= j < w.len() ==> #[trigger] w[j] < npoints,
    decreases k,
{
    if k > 0 {
        lemma_walk_in_range(pts, edges, npoints, k - 1);
    }
}

/// An edge walk only yields indices of existing points: out-of-range edges
/// and points are skipped.
pub proof fn lemma_edge_walk_in_range(g: GeometrySpec, i: int)
    ensures
        spec_edge_walk(g, i) matches Some(w) ==> forall|j: int|
            0 <= j < w.len() ==> #[trigger] w[j] < g.points.len(),
{
    if 0 <= i < g.faces.len() {
        let pts = spec_ptslist(g.faces[i].cmd, g.faces[i].args);
        lemma_walk_in_range(pts, g.edges, g.points.len() as int, pts.len() as int);
    }
}

/// The point a signed edge reference names: the start of edge `v - 1` for
/// `v > 0`, the end of edge `-v - 1` for `v < 0`; `None` for `0` or a
/// reference past the edge list.
pub open spec fn edge_point(edges: Seq<Edge>, v: int) -> Option<int> {
    if 0 < v <= edges.len() {
        Some(edges[v - 1].from as int)
    } else if 0 < -v <= edges.len() {
        Some(edges[-v - 1].to as int)
    } else {
        None
    }
}

/// The point a reference contributes to a walk over `npoints` points.
pub open spec fn walk_point(edges: Seq<Edge>, npoints: int, v: i16) -> Option<usize> {
    match edge_point(edges, v as int) {
        Some(p) => if p < npoints {
            Some(p as usize)
        } else {
            None
        },
        None => None,
    }
}

proof fn lemma_walk_upto_points(pts: Seq<i16>, edges: Seq<Edge>, npoints: int, k: int)
    requires
        0 <= k <= pts.len(),
    ensures
        walk_upto(pts, edges, npoints, k) is None <==> exists|j: int| 0 <= j < k && pts[j] == 0,
        walk_upto(pts, edges, npoints, k) matches Some(w) ==> w == pts.subrange(0, k).filter_map(
            |v: i16| walk_point(edges, npoints, v),
        ),
    decreases k,
{
    let f = |v: i16| walk_point(edges, npoints, v);
    if k == 0 {
        assert(pts.subrange(0, 0) =~= Seq::<i16>::empty());
    } else {
        lemma_walk_upto_points(pts, edges, npoints, k - 1);
        let pre = pts.subrange(0, k);
        assert(pre.drop_last() =~= pts.subrange(0, k - 1));
        assert(pre.last() == pts[k - 1]);
        if exists|j: int| 0 <= j < k && pts[j] == 0 {
            let j = choose|j: int| 0 <= j < k && pts[j] == 0;
            if j < k - 1 {
                assert(exists|j2: int| 0 <= j2 < k - 1 && pts[j2] == 0);
            }
        }
        match walk_upto(pts, edges, npoints, k - 1) {
            None => {
                let j = choose|j: int| 0 <= j < k - 1 && pts[j] == 0;
                assert(0 <= j < k && pts[j] == 0);
            },
            Some(s) => {
                let val = pts[k - 1] as int;
                if val != 0 {
                    assert(pre.filter_map(f) == pts.subrange(0, k - 1).filter_map(f) + (match f(
                        pts[k - 1],
                    ) {
                        Some(p) => seq![p],
                        None => Seq::empty(),
                    }));
                    match f(pts[k - 1]) {
                        Some(p) => {
                            assert(walk_upto(pts, edges, npoints, k)->0 =~= s.push(p));
                        },
                        None => {
                            assert(pts.subrange(0, k - 1).filter_map(f) + Seq::<usize>::empty()
                                =~= pts.subrange(0, k - 1).filter_map(f));
                        },
                    }
                }
            },
        }
    }
}

/// An edge walk follows the face's signed edge references in order: each
/// reference `v` names the start of edge `v - 1` when positive and the end
/// of edge `-v - 1` when negative, and the walk lists those points, skipping
/// references past the edge list or naming no point of the geometry. It is
/// `None` exactly when some reference is `0`.
pub proof fn lemma_edge_walk_points(g: GeometrySpec, i: int)
    requires
        0 <= i < g.faces.len(),
    ensures
        ({
            let pts = spec_ptslist(g.faces[i].cmd, g.faces[i].args);
            &&& spec_edge_walk(g, i) is None <==> pts.contains(0i16)
            &&& spec_edge_walk(g, i) matches Some(w) ==> w == pts.filter_map(
                |v: i16| walk_point(g.edges, g.points.len() as int, v),
            )
        }),
{
    let pts = spec_ptslist(g.faces[i].cmd, g.faces[i].args);
    lemma_walk_upto_points(pts, g.edges, g.points.len() as int, pts.len() as int);
    assert(pts.subrange(0, pts.len() as int) =~= pts);
    if pts.contains(0i16) {
        let j = choose|j: int| 0 <= j < pts.len() && pts[j] == 0i16;
        assert(pts[j] == 0);
    }
    if exists|j: int| 0 <= j < pts.len() && pts[j] == 0 {
        let j = choose|j: int| 0 <= j < pts.len() && pts[j] == 0;
        assert(pts.contains(pts[j]));
    }
}

/// The edge-walk polygon of the face at command position `i`.
pub open spec fn spec_edge_walk(g: GeometrySpec, i: int) -> Option<Seq<usize>> {
    if 0 <= i < g.faces.len() {
        let pts = spec_ptslist(g.faces[i].cmd, g.faces[i].args);
        walk_upto(pts, g.edges, g.points.len() as int, pts.len() as int)
    } else {
        None
    }
}

impl Geometry {
    /// `.dat` texture selector for a face (`args[1] | args[2] << 8`).
    ///
    /// `None` for the no-selector commands (`cmd == 0x00`, `cmd == 0x0a`) or
    /// when the face has too few argument bytes. Body faces use jam id 530.
    pub fn jam_id(&self, face_idx: usize) -> (r: Option<u16>)
        ensures
            r == spec_jam_id(self.spec().faces, face_idx as int),
    {
        if face_idx >= self.faces.len() {
            return None;
        }
        let f = &self.faces[face_idx];
        if f.cmd == 0x00 || f.cmd == 0x0a {
            return None;
        }
        if f.args.len() < 3 {
            return None;
        }
        Some(f.args[1] as u16 + (f.args[2] as u16) * 256)
    }

    /// Indices of real body faces (jam_id == 530), sorted ascending.
    pub fn body_face_indices(&self) -> (r: Vec<usize>)
        ensures
            r@ == body_faces_upto(self.spec().faces, self.faces@.len() as int),
    {
        let mut out: Vec<usize> = Vec::new();
        let mut i: usize = 0;
        while i < self.faces.len()
            invariant
                i <= self.faces@.len(),
                out@ == body_faces_upto(self.spec().faces, i as int),
            decreases self.faces@.len() - i,
        {
            if self.jam_id(i) == Some(530u16) {
                out.push(i);
            }
            i = i + 1;
        }
        out
    }

    /// Edge-walk the polygon for the face at command-position `face_idx`.
    ///
    /// For each signed `val` in the face's point list, `ei = |val| - 1`; the
    /// point index is `edges[ei].from` when `val > 0`, else `edges[ei].to`.
    /// Out-of-range edge/point indices are skipped. Returns `None` if there's
    /// no face at that position.
    pub fn edge_walk(&self, face_idx: usize) -> (r: Option<Vec<usize>>)
        ensures
            match r {
                Some(v) => spec_edge_walk(self.spec(), face_idx as int) == Some(v@),
                None => spec_edge_walk(self.spec(), face_idx as int) is None,
            },
    {
        if face_idx >= self.faces.len() {
            return None;
        }
        let face = &self.faces[face_idx];
        let pts = ptslist(face.cmd, &face.args);
        assert(self.spec().faces[face_idx as int] == face@);
        let mut out: Vec<usize> = Vec::new();
        let mut k: usize = 0;
        while k < pts.len()
            invariant
                k <= pts@.len(),
                walk_upto(pts@, self.edges@, self.points@.len() as int, k as int) == Some(out@),
                spec_edge_walk(self.spec(), face_idx as int) == walk_upto(
                    pts@,
                    self.edges@,
                    self.points@.len() as int,
                    pts@.len() as int,
                ),
            decreases pts@.len() - k,
        {
            let val = pts[k];
            let a: i32 = if val < 0 {
                -(val as i32)
            } else {
                val as i32
            };
            if a == 0 {
                proof {
                    assert(walk_upto(pts@, self.edges@, self.points@.len() as int, k + 1) is None);
                    lemma_walk_none_stays(
                        pts@,
                        self.edges@,
                        self.points@.len() as int,
                        k + 1,
                        pts@.len() as int,
                    );
                }
                return None;
            }
            let ei = (a - 1) as usize;
            if ei < self.edges.len() {
                let pi = if val > 0 {
                    self.edges[ei].from as usize
                } else {
                    self.edges[ei].to as usize
                };
                if pi < self.points.len() {
                    out.push(pi);
                }
            }
            k = k + 1;
        }
        Some(out)
    }
}

} // verus!
