//! 8-bit paletted Windows BMP writer for the unwrap wireframe template.
//!
//! Renders the unwrap's per-face polygons as Bresenham outlines on a 256x164
//! top-origin canvas (index 0 = background), optionally labels each face
//! with its decimal index using a tiny inline 3x5 digit font, and encodes the
//! result as a standard 8bpp BMP (bottom-up rows, 256-colour palette).

use vstd::prelude::*;
use crate::le::{push_u16, push_u32, u16_bytes, u32_bytes};
use crate::unwrap::{FaceCoords, Unwrap};

verus! {

/// Canvas width.
pub const W: usize = 256;

/// Canvas height.
pub const H: usize = 164;

/// Rendering options.
pub struct Opts {
    pub labels: bool,
    pub wire_idx: u8,
    pub label_idx: u8,
}

impl Default for Opts {
    fn default() -> (r: Self)
        ensures
            r.labels,
            r.wire_idx == 1,
            r.label_idx == 1,
    {
        Opts { labels: true, wire_idx: 1, label_idx: 1 }
    }
}

/// One painted texel: `(x, y, palette index)`.
pub type Stroke = (int, int, u8);

/// `buf` with texel `(x, y)` set to `idx` when it lies on the canvas.
pub open spec fn put_spec(buf: Seq<u8>, x: int, y: int, idx: u8) -> Seq<u8> {
    if 0 <= x < 256 && 0 <= y < 164 {
        buf.update(y * 256 + x, idx)
    } else {
        buf
    }
}

/// `buf` after painting `strokes[..k]` in order.
pub open spec fn paint(buf: Seq<u8>, strokes: Seq<Stroke>, k: int) -> Seq<u8>
    decreases k,
{
    if k <= 0 {
        buf
    } else {
        let s = strokes[k - 1];
        put_spec(paint(buf, strokes, k - 1), s.0, s.1, s.2)
    }
}

/// `buf` after painting all of `strokes`.
pub open spec fn paint_all(buf: Seq<u8>, strokes: Seq<Stroke>) -> Seq<u8> {
    paint(buf, strokes, strokes.len() as int)
}

proof fn lemma_paint_append(buf: Seq<u8>, a: Seq<Stroke>, b: Seq<Stroke>)
    ensures
        paint_all(buf, a + b) == paint_all(paint_all(buf, a), b),
    decreases b.len(),
{
    if b.len() == 0 {
        assert(a + b =~= a);
    } else {
        let b1 = b.drop_last();
        lemma_paint_append(buf, a, b1);
        assert((a + b).drop_last() =~= a + b1);
        lemma_paint_prefix(buf, a + b, (a + b).len() - 1);
        lemma_paint_prefix(buf, a + b1, (a + b1).len() as int);
        lemma_paint_prefix(paint_all(buf, a), b, b.len() - 1);
        lemma_paint_prefix(paint_all(buf, a), b1, b1.len() as int);
    }
}

proof fn lemma_paint_prefix(buf: Seq<u8>, s: Seq<Stroke>, k: int)
    requires
        0 <= k <= s.len(),
    ensures
        paint(buf, s, k) == paint_all(buf, s.subrange(0, k)),
    decreases k,
{
    if k > 0 {
        lemma_paint_prefix(buf, s, k - 1);
        assert(s.subrange(0, k - 1) =~= s.subrange(0, k).subrange(0, k - 1));
        lemma_paint_prefix2(buf, s.subrange(0, k), k - 1);
    } else {
        assert(s.subrange(0, 0).len() == 0);
    }
}

proof fn lemma_paint_prefix2(buf: Seq<u8>, s: Seq<Stroke>, k: int)
    requires
        0 <= k <= s.len(),
    ensures
        paint(buf, s, k) == paint(buf, s.subrange(0, k), k),
    decreases k,
{
    if k > 0 {
        lemma_paint_prefix2(buf, s, k - 1);
        lemma_paint_prefix2(buf, s.subrange(0, k), k - 1);
        assert(s.subrange(0, k).subrange(0, k - 1) =~= s.subrange(0, k - 1));
    }
}

/// Set texel `(x, y)` to `idx` if it lies on the canvas.
fn put(buf: &mut Vec<u8>, x: i32, y: i32, idx: u8)
    requires
        old(buf)@.len() == 41984,
    ensures
        final(buf)@ == put_spec(old(buf)@, x as int, y as int, idx),
        final(buf)@.len() == 41984,
{
    if x >= 0 && y >= 0 && (x as usize) < W && (y as usize) < H {
        buf.set(y as usize * W + x as usize, idx);
    }
}

/// Texels a Bresenham walk visits from `(x, y)` toward `(x1, y1)` with error
/// term `err`, for at most `fuel` texels.
pub open spec fn bres_from(
    x: int,
    y: int,
    x1: int,
    y1: int,
    dx: int,
    dy: int,
    sx: int,
    sy: int,
    err: int,
    fuel: nat,
) -> Seq<(int, int)>
    decreases fuel,
{
    if fuel == 0 {
        Seq::empty()
    } else if x == x1 && y == y1 {
        seq![(x, y)]
    } else {
        let e2 = 2 * err;
        let x2 = if e2 >= dy {
            x + sx
        } else {
            x
        };
        let err2 = if e2 >= dy {
            err + dy
        } else {
            err
        };
        let y2 = if e2 <= dx {
            y + sy
        } else {
            y
        };
        let err3 = if e2 <= dx {
            err2 + dx
        } else {
            err2
        };
        seq![(x, y)] + bres_from(x2, y2, x1, y1, dx, dy, sx, sy, err3, (fuel - 1) as nat)
    }
}

pub open spec fn iabs(v: int) -> int {
    if v < 0 {
        -v
    } else {
        v
    }
}

/// The texels of the integer Bresenham line from `(x0, y0)` to `(x1, y1)`,
/// both endpoints included.
pub open spec fn line_pixels(x0: int, y0: int, x1: int, y1: int) -> Seq<(int, int)> {
    let dx = iabs(x1 - x0);
    let dy = -iabs(y1 - y0);
    let sx = if x0 < x1 {
        1int
    } else {
        -1int
    };
    let sy = if y0 < y1 {
        1int
    } else {
        -1int
    };
    bres_from(x0, y0, x1, y1, dx, dy, sx, sy, dx + dy, (dx - dy + 1) as nat)
}

/// Position `k` steps from `a0` toward `a1`.
pub open spec fn walk_pos(a0: int, a1: int, k: int) -> int {
    if a0 < a1 {
        a0 + k
    } else {
        a0 - k
    }
}

proof fn lemma_bres_ends(
    x0: int,
    y0: int,
    x1: int,
    y1: int,
    err: int,
    fuel: nat,
    kx: int,
    ky: int,
)
    requires
        ({
            let ex = iabs(x1 - x0);
            let ey = iabs(y1 - y0);
            &&& 0 <= kx <= ex
            &&& 0 <= ky <= ey
            &&& err == ex * (1 + ky) - ey * (1 + kx)
            &&& fuel >= (ex - kx) + (ey - ky) + 1
        }),
    ensures
        ({
            let ex = iabs(x1 - x0);
            let ey = iabs(y1 - y0);
            let sx = if x0 < x1 {
                1int
            } else {
                -1int
            };
            let sy = if y0 < y1 {
                1int
            } else {
                -1int
            };
            let w = bres_from(
                walk_pos(x0, x1, kx),
                walk_pos(y0, y1, ky),
                x1,
                y1,
                ex,
                -ey,
                sx,
                sy,
                err,
                fuel,
            );
            &&& w.len() >= 1
            &&& w[0] == (walk_pos(x0, x1, kx), walk_pos(y0, y1, ky))
            &&& w.last() == (x1, y1)
        }),
    decreases iabs(x1 - x0) - kx + iabs(y1 - y0) - ky,
{
    let ex = iabs(x1 - x0);
    let ey = iabs(y1 - y0);
    let sx = if x0 < x1 {
        1int
    } else {
        -1int
    };
    let sy = if y0 < y1 {
        1int
    } else {
        -1int
    };
    let x = walk_pos(x0, x1, kx);
    let y = walk_pos(y0, y1, ky);
    assert(x == x1 <==> kx == ex);
    assert(y == y1 <==> ky == ey);
    if !(x == x1 && y == y1) {
        if kx == ex && ky < ey {
            assert(2 * err < -ey) by (nonlinear_arith)
                requires
                    err == ex * (1 + ky) - ey * (1 + kx),
                    kx == ex,
                    0 <= ky < ey,
                    ex >= 0,
            ;
        }
        if ky == ey && kx < ex {
            assert(2 * err > ex) by (nonlinear_arith)
                requires
                    err == ex * (1 + ky) - ey * (1 + kx),
                    ky == ey,
                    0 <= kx < ex,
                    ey >= 0,
            ;
        }
        let e2 = 2 * err;
        let mx = e2 >= -ey;
        let my = e2 <= ex;
        let kx2 = if mx {
            kx + 1
        } else {
            kx
        };
        let ky2 = if my {
            ky + 1
        } else {
            ky
        };
        let err2 = err + (if mx {
            -ey
        } else {
            0
        }) + (if my {
            ex
        } else {
            0
        });
        assert(err2 == ex * (1 + ky2) - ey * (1 + kx2)) by (nonlinear_arith)
            requires
                err == ex * (1 + ky) - ey * (1 + kx),
                kx2 == kx + (if mx { 1int } else { 0int }),
                ky2 == ky + (if my { 1int } else { 0int }),
                err2 == err + (if mx { -ey } else { 0 }) + (if my { ex } else { 0 }),
        ;
        lemma_bres_ends(x0, y0, x1, y1, err2, (fuel - 1) as nat, kx2, ky2);
        assert(walk_pos(x0, x1, kx2) == (if mx {
            x + sx
        } else {
            x
        }));
        assert(walk_pos(y0, y1, ky2) == (if my {
            y + sy
        } else {
            y
        }));
    }
}

/// A Bresenham line starts at its first endpoint and ends at its second.
pub proof fn lemma_line_ends(x0: int, y0: int, x1: int, y1: int)
    ensures
        line_pixels(x0, y0, x1, y1).len() >= 1,
        line_pixels(x0, y0, x1, y1)[0] == (x0, y0),
        line_pixels(x0, y0, x1, y1).last() == (x1, y1),
{
    let ex = iabs(x1 - x0);
    let ey = iabs(y1 - y0);
    assert(ex - ey == ex * (1 + 0) - ey * (1 + 0)) by (nonlinear_arith);
    lemma_bres_ends(x0, y0, x1, y1, ex - ey, (ex + ey + 1) as nat, 0, 0);
}

/// Texels tagged with a palette index.
pub open spec fn tag(p: Seq<(int, int)>, idx: u8) -> Seq<Stroke> {
    p.map_values(|q: (int, int)| (q.0, q.1, idx))
}

/// Coordinates small enough for the line arithmetic.
pub open spec fn small(v: int) -> bool {
    -0x1000 <= v <= 0x1000
}

/// Integer Bresenham line.
fn line(buf: &mut Vec<u8>, x0: i32, y0: i32, x1: i32, y1: i32, idx: u8)
    requires
        old(buf)@.len() == 41984,
        small(x0 as int),
        small(y0 as int),
        small(x1 as int),
        small(y1 as int),
    ensures
        final(buf)@ == paint_all(old(buf)@, tag(line_pixels(x0 as int, y0 as int, x1 as int, y1 as int), idx)),
        final(buf)@.len() == 41984,
{
    let ghost all = line_pixels(x0 as int, y0 as int, x1 as int, y1 as int);
    let ghost b0 = buf@;
    let dx: i32 = if x1 - x0 < 0 {
        -(x1 - x0)
    } else {
        x1 - x0
    };
    let dy: i32 = -(if y1 - y0 < 0 {
        -(y1 - y0)
    } else {
        y1 - y0
    });
    let sx: i32 = if x0 < x1 {
        1
    } else {
        -1
    };
    let sy: i32 = if y0 < y1 {
        1
    } else {
        -1
    };
    let mut err: i32 = dx + dy;
    let mut x = x0;
    let mut y = y0;
    let ghost ex: int = dx as int;
    let ghost ey: int = -dy;
    let ghost mut kx: int = 0;
    let ghost mut ky: int = 0;
    let ghost mut fuel: nat = (dx - dy + 1) as nat;
    let ghost mut done: Seq<(int, int)> = Seq::empty();
    assert(err == ex * (1 + ky) - ey * (1 + kx)) by (nonlinear_arith)
        requires
            err == ex - ey,
            kx == 0,
            ky == 0,
    ;
    loop
        invariant_except_break
            all == done + bres_from(
                x as int,
                y as int,
                x1 as int,
                y1 as int,
                dx as int,
                dy as int,
                sx as int,
                sy as int,
                err as int,
                fuel,
            ),
        invariant
            buf@.len() == 41984,
            small(x0 as int) && small(y0 as int) && small(x1 as int) && small(y1 as int),
            dx == iabs(x1 - x0),
            dy == -iabs(y1 - y0),
            ex == dx,
            ey == -dy,
            sx == (if x0 < x1 { 1int } else { -1int }),
            sy == (if y0 < y1 { 1int } else { -1int }),
            0 <= kx <= ex,
            0 <= ky <= ey,
            x == (if x0 < x1 { x0 + kx } else { x0 - kx }),
            y == (if y0 < y1 { y0 + ky } else { y0 - ky }),
            err == ex * (1 + ky) - ey * (1 + kx),
            fuel >= (ex - kx) + (ey - ky) + 1,
            buf@ == paint_all(b0, tag(done, idx)),
        ensures
            buf@ == paint_all(b0, tag(all, idx)),
        decreases (ex - kx) + (ey - ky),
    {
        put(buf, x, y, idx);
        proof {
            let t = tag(done.push((x as int, y as int)), idx);
            assert(tag(done, idx) + seq![(x as int, y as int, idx)] =~= t);
            lemma_paint_append(b0, tag(done, idx), seq![(x as int, y as int, idx)]);
            let one = seq![(x as int, y as int, idx)];
            assert(paint(paint_all(b0, tag(done, idx)), one, 0) == paint_all(b0, tag(done, idx)));
            done = done.push((x as int, y as int));
        }
        if x == x1 && y == y1 {
            proof {
                assert(done =~= all);
            }
            break;
        }
        let ghost cur_err = err as int;
        proof {
            if kx == ex && ky < ey {
                assert(2 * cur_err < -ey) by (nonlinear_arith)
                    requires
                        cur_err == ex * (1 + ky) - ey * (1 + kx),
                        kx == ex,
                        0 <= ky < ey,
                        ex >= 0,
                ;
            }
            if ky == ey && kx < ex {
                assert(2 * cur_err > ex) by (nonlinear_arith)
                    requires
                        cur_err == ex * (1 + ky) - ey * (1 + kx),
                        ky == ey,
                        0 <= kx < ex,
                        ey >= 0,
                ;
            }
            assert(-0x2001 * 0x2001 <= cur_err <= 0x2001 * 0x2001) by (nonlinear_arith)
                requires
                    cur_err == ex * (1 + ky) - ey * (1 + kx),
                    0 <= kx <= ex,
                    0 <= ky <= ey,
                    ex <= 0x2000,
                    ey <= 0x2000,
            ;
        }
        let e2 = 2 * err;
        if e2 >= dy {
            err = err + dy;
            x = x + sx;
            proof {
                kx = kx + 1;
            }
        }
        if e2 <= dx {
            err = err + dx;
            y = y + sy;
            proof {
                ky = ky + 1;
            }
        }
        proof {
            fuel = (fuel - 1) as nat;
            let okx = if e2 >= dy { kx - 1 } else { kx };
            let oky = if e2 <= dx { ky - 1 } else { ky };
            assert(err == ex * (1 + ky) - ey * (1 + kx)) by (nonlinear_arith)
                requires
                    cur_err == ex * (1 + oky) - ey * (1 + okx),
                    kx == okx + (if e2 >= dy { 1int } else { 0int }),
                    ky == oky + (if e2 <= dx { 1int } else { 0int }),
                    err == cur_err + (if e2 >= dy { -ey } else { 0 }) + (if e2 <= dx { ex } else { 0 }),
            ;
        }
    }
}


/// Row `r` (5 rows, MSB = left column) of the 3x5 glyph for digit `d`.
pub open spec fn spec_font_row(d: int, r: int) -> u8 {
    let rows: Seq<u8> = if d == 0 {
        seq![0b111u8, 0b101, 0b101, 0b101, 0b111]
    } else if d == 1 {
        seq![0b010u8, 0b110, 0b010, 0b010, 0b111]
    } else if d == 2 {
        seq![0b111u8, 0b001, 0b111, 0b100, 0b111]
    } else if d == 3 {
        seq![0b111u8, 0b001, 0b111, 0b001, 0b111]
    } else if d == 4 {
        seq![0b101u8, 0b101, 0b111, 0b001, 0b001]
    } else if d == 5 {
        seq![0b111u8, 0b100, 0b111, 0b001, 0b111]
    } else if d == 6 {
        seq![0b111u8, 0b100, 0b111, 0b101, 0b111]
    } else if d == 7 {
        seq![0b111u8, 0b001, 0b010, 0b010, 0b010]
    } else if d == 8 {
        seq![0b111u8, 0b101, 0b111, 0b101, 0b111]
    } else {
        seq![0b111u8, 0b101, 0b111, 0b001, 0b111]
    };
    rows[r]
}

/// Whether segment `g` of a seven-segment display is lit for digit `d`
/// (0 = top, 1 = upper right, 2 = lower right, 3 = bottom, 4 = lower left,
/// 5 = upper left, 6 = middle).
pub open spec fn segment_lit(d: int, g: int) -> bool {
    if d == 0 {
        g != 6
    } else if d == 2 {
        g == 0 || g == 1 || g == 3 || g == 4 || g == 6
    } else if d == 3 {
        g == 0 || g == 1 || g == 2 || g == 3 || g == 6
    } else if d == 4 {
        g == 1 || g == 2 || g == 5 || g == 6
    } else if d == 5 {
        g == 0 || g == 2 || g == 3 || g == 5 || g == 6
    } else if d == 6 {
        g != 1
    } else if d == 8 {
        true
    } else {
        g != 4
    }
}

/// Row `r` of a 3x5 cell showing the lit segments of digit `d`: the top,
/// middle and bottom segments fill rows 0, 2 and 4; a side segment lights
/// its column from its end row to the middle row (left column = 0b100,
/// right column = 0b001).
pub open spec fn segment_row(d: int, r: int) -> u8 {
    let full = (r == 0 && segment_lit(d, 0)) || (r == 2 && segment_lit(d, 6)) || (r == 4
        && segment_lit(d, 3));
    let left = (r <= 2 && segment_lit(d, 5)) || (r >= 2 && segment_lit(d, 4));
    let right = (r <= 2 && segment_lit(d, 1)) || (r >= 2 && segment_lit(d, 2));
    if full {
        0b111u8
    } else {
        ((if left { 4int } else { 0int }) + (if right { 1int } else { 0int })) as u8
    }
}

/// The digits other than 1 and 7 are drawn as on a seven-segment display:
/// each glyph row is the row of that digit's standard lit segments.
pub proof fn lemma_font_seven_segment(d: int, r: int)
    requires
        0 <= d < 10,
        d != 1,
        d != 7,
        0 <= r < 5,
    ensures
        spec_font_row(d, r) == segment_row(d, r),
{
}

/// The two digits with no seven-segment shape here: a 1 is a stroke down
/// the middle column with a flag at its top left and a full-width foot;
/// a 7 is a full top bar whose stroke bends from the right column into
/// the middle column.
pub proof fn lemma_font_one_seven()
    ensures
        forall|r: int| 0 <= r < 5 ==> #[trigger] spec_font_row(1, r) & 0b010 == 0b010,
        spec_font_row(1, 1) == 0b110,
        spec_font_row(1, 4) == 0b111,
        spec_font_row(1, 0) == 0b010 && spec_font_row(1, 2) == 0b010 && spec_font_row(1, 3) == 0b010,
        spec_font_row(7, 0) == 0b111,
        spec_font_row(7, 1) == 0b001,
        forall|r: int| 2 <= r < 5 ==> #[trigger] spec_font_row(7, r) == 0b010,
{
    assert(0b010u8 & 0b010u8 == 0b010u8) by (bit_vector);
    assert(0b110u8 & 0b010u8 == 0b010u8) by (bit_vector);
    assert(0b111u8 & 0b010u8 == 0b010u8) by (bit_vector);
}

/// No two digits share a glyph, so every label reads unambiguously.
pub proof fn lemma_font_distinct(d1: int, d2: int)
    requires
        0 <= d1 < 10,
        0 <= d2 < 10,
        d1 != d2,
    ensures
        exists|r: int| 0 <= r < 5 && spec_font_row(d1, r) != spec_font_row(d2, r),
{
    if spec_font_row(d1, 0) != spec_font_row(d2, 0) {
        assert(spec_font_row(d1, 0) != spec_font_row(d2, 0));
    } else if spec_font_row(d1, 1) != spec_font_row(d2, 1) {
        assert(spec_font_row(d1, 1) != spec_font_row(d2, 1));
    } else if spec_font_row(d1, 2) != spec_font_row(d2, 2) {
        assert(spec_font_row(d1, 2) != spec_font_row(d2, 2));
    } else if spec_font_row(d1, 3) != spec_font_row(d2, 3) {
        assert(spec_font_row(d1, 3) != spec_font_row(d2, 3));
    } else {
        assert(spec_font_row(d1, 4) != spec_font_row(d2, 4));
    }
}

/// 3x5 bitmap font for digits 0-9.
fn font_row(d: u8, r: usize) -> (row: u8)
    requires
        d < 10,
        r < 5,
    ensures
        row == spec_font_row(d as int, r as int),
{
    let rows: [u8; 5] = if d == 0 {
        [0b111, 0b101, 0b101, 0b101, 0b111]
    } else if d == 1 {
        [0b010, 0b110, 0b010, 0b010, 0b111]
    } else if d == 2 {
        [0b111, 0b001, 0b111, 0b100, 0b111]
    } else if d == 3 {
        [0b111, 0b001, 0b111, 0b001, 0b111]
    } else if d == 4 {
        [0b101, 0b101, 0b111, 0b001, 0b001]
    } else if d == 5 {
        [0b111, 0b100, 0b111, 0b001, 0b111]
    } else if d == 6 {
        [0b111, 0b100, 0b111, 0b101, 0b111]
    } else if d == 7 {
        [0b111, 0b001, 0b010, 0b010, 0b010]
    } else if d == 8 {
        [0b111, 0b101, 0b111, 0b101, 0b111]
    } else {
        [0b111, 0b101, 0b111, 0b001, 0b111]
    };
    rows[r]
}

/// Texels of the first `rx` columns of a glyph row `row` drawn at `(x, y)`.
pub open spec fn row_cells(row: u8, x: int, y: int, rx: int) -> Seq<(int, int)>
    decreases rx,
{
    if rx <= 0 {
        Seq::empty()
    } else {
        let c = rx - 1;
        row_cells(row, x, y, rx - 1) + if row & (4u8 >> (c as u8)) != 0 {
            seq![(x + c, y)]
        } else {
            Seq::empty()
        }
    }
}

/// Texels of the first `ry` rows of digit `d`'s glyph with top-left `(x, y)`.
pub open spec fn glyph_rows(d: int, x: int, y: int, ry: int) -> Seq<(int, int)>
    decreases ry,
{
    if ry <= 0 {
        Seq::empty()
    } else {
        glyph_rows(d, x, y, ry - 1) + row_cells(spec_font_row(d, ry - 1), x, y + ry - 1, 3)
    }
}

/// Render a digit's 3x5 glyph with top-left at (x, y).
fn glyph(buf: &mut Vec<u8>, d: u8, x: i32, y: i32, idx: u8)
    requires
        old(buf)@.len() == 41984,
        d < 10,
        small(x as int),
        small(y as int),
    ensures
        final(buf)@ == paint_all(old(buf)@, tag(glyph_rows(d as int, x as int, y as int, 5), idx)),
        final(buf)@.len() == 41984,
{
    let ghost b0 = buf@;
    let mut ry: usize = 0;
    while ry < 5
        invariant
            ry <= 5,
            d < 10,
            small(x as int),
            small(y as int),
            buf@.len() == 41984,
            buf@ == paint_all(b0, tag(glyph_rows(d as int, x as int, y as int, ry as int), idx)),
        decreases 5 - ry,
    {
        let row = font_row(d, ry);
        let ghost mid = buf@;
        let ghost pre = glyph_rows(d as int, x as int, y as int, ry as int);
        let mut rx: u8 = 0;
        while rx < 3
            invariant
                rx <= 3,
                ry < 5,
                small(x as int),
                small(y as int),
                buf@.len() == 41984,
                mid == paint_all(b0, tag(pre, idx)),
                buf@ == paint_all(b0, tag(pre + row_cells(row, x as int, y + ry, rx as int), idx)),
            decreases 3 - rx,
        {
            let ghost cells = row_cells(row, x as int, y + ry, rx as int);
            if row & (4u8 >> rx) != 0 {
                put(buf, x + rx as i32, y + ry as i32, idx);
                proof {
                    let one = seq![((x + rx) as int, (y + ry) as int, idx)];
                    lemma_paint_append(b0, tag(pre + cells, idx), one);
                    assert(paint(paint_all(b0, tag(pre + cells, idx)), one, 0) == paint_all(
                        b0,
                        tag(pre + cells, idx),
                    ));
                    assert(tag(pre + cells, idx) + one =~= tag(
                        pre + row_cells(row, x as int, y + ry, rx + 1),
                        idx,
                    ));
                }
            } else {
                assert(pre + cells =~= pre + row_cells(row, x as int, y + ry, rx + 1));
            }
            rx = rx + 1;
        }
        ry = ry + 1;
        assert(pre + row_cells(row, x as int, y + ry - 1, 3) =~= glyph_rows(
            d as int,
            x as int,
            y as int,
            ry as int,
        ));
    }
}

/// Decimal digits of `n`, most significant first (`[0]` for zero).
pub open spec fn digits(n: nat) -> Seq<u8>
    decreases n,
{
    if n < 10 {
        seq![n as u8]
    } else {
        digits(n / 10).push((n % 10) as u8)
    }
}

/// Ten to the power `k`.
pub open spec fn pow10(k: nat) -> nat
    decreases k,
{
    if k == 0 {
        1
    } else {
        10 * pow10((k - 1) as nat)
    }
}

proof fn lemma_digits_len(n: nat, k: nat)
    requires
        k >= 1,
        n < pow10(k),
    ensures
        digits(n).len() <= k,
        forall|j: int| 0 <= j < digits(n).len() ==> #[trigger] digits(n)[j] < 10,
    decreases n,
{
    if n >= 10 {
        assert(k >= 2) by {
            if k == 1 {
                assert(pow10(0) == 1);
                assert(pow10(1) == 10);
            }
        }
        assert(n / 10 < pow10((k - 1) as nat));
        lemma_digits_len(n / 10, (k - 1) as nat);
        assert(digits(n) == digits(n / 10).push((n % 10) as u8));
    }
}

pub(crate) proof fn lemma_digits_bounds(n: nat)
    requires
        n < 0x1_0000_0000_0000_0000,
    ensures
        1 <= digits(n).len() <= 20,
        forall|k: int| 0 <= k < digits(n).len() ==> #[trigger] digits(n)[k] < 10,
{
    assert(pow10(20) == 100_000_000_000_000_000_000nat) by {
        reveal_with_fuel(pow10, 21);
    }
    lemma_digits_len(n, 20);
    if n >= 10 {
        assert(digits(n) == digits(n / 10).push((n % 10) as u8));
    }
}

/// Texels of the first `k` digits of `ds` drawn left to right from `(x, y)`,
/// 4 texels apart (3px glyph + 1px spacing).
pub open spec fn number_cells(ds: Seq<u8>, x: int, y: int, k: int) -> Seq<(int, int)>
    decreases k,
{
    if k <= 0 {
        Seq::empty()
    } else {
        number_cells(ds, x, y, k - 1) + glyph_rows(ds[k - 1] as int, x + 4 * (k - 1), y, 5)
    }
}

/// Texels of the decimal rendering of `n` starting at `(x, y)`.
pub open spec fn number_pixels(n: nat, x: int, y: int) -> Seq<(int, int)> {
    number_cells(digits(n), x, y, digits(n).len() as int)
}

/// The digits of `n`, most significant first.
pub(crate) fn decimal_digits(n: u64) -> (ds: Vec<u8>)
    ensures
        ds@ == digits(n as nat),
{
    if n < 10 {
        let mut v: Vec<u8> = Vec::new();
        v.push(n as u8);
        assert(v@ =~= digits(n as nat));
        return v;
    }
    let mut rev: Vec<u8> = Vec::new();
    let mut m = n;
    while m >= 10
        invariant
            digits(n as nat) == digits(m as nat) + rev@.reverse(),
        decreases m,
    {
        let ghost before = rev@;
        rev.push((m % 10) as u8);
        assert(rev@.reverse() =~= seq![(m % 10) as u8] + before.reverse());
        assert(digits(m as nat) == digits((m / 10) as nat).push((m % 10) as u8));
        assert(digits(m as nat) + before.reverse() =~= digits((m / 10) as nat) + rev@.reverse());
        m = m / 10;
    }
    let mut out: Vec<u8> = Vec::new();
    out.push(m as u8);
    let ghost full = digits(n as nat);
    assert(full =~= seq![m as u8] + rev@.reverse());
    let mut k = rev.len();
    while k > 0
        invariant
            k <= rev@.len(),
            full =~= seq![m as u8] + rev@.reverse(),
            out@ == full.subrange(0, 1 + (rev@.len() - k)),
        decreases k,
    {
        k = k - 1;
        out.push(rev[k]);
        assert(out@ =~= full.subrange(0, 1 + (rev@.len() - k)));
    }
    assert(out@ =~= full);
    out
}

/// Render a decimal number left-to-right starting at (x, y).
fn number(buf: &mut Vec<u8>, n: usize, x: i32, y: i32, idx: u8)
    requires
        old(buf)@.len() == 41984,
        -0x800 <= x <= 0x800,
        small(y as int),
    ensures
        final(buf)@ == paint_all(old(buf)@, tag(number_pixels(n as nat, x as int, y as int), idx)),
        final(buf)@.len() == 41984,
{
    let ghost b0 = buf@;
    let ds = decimal_digits(n as u64);
    proof {
        lemma_digits_bounds(n as nat);
    }
    let mut cx = x;
    let mut k: usize = 0;
    while k < ds.len()
        invariant
            k <= ds@.len(),
            ds@ == digits(n as nat),
            ds@.len() <= 20,
            forall|j: int| 0 <= j < ds@.len() ==> #[trigger] ds@[j] < 10,
            cx == x + 4 * k,
            -0x800 <= x <= 0x800,
            small(y as int),
            buf@.len() == 41984,
            buf@ == paint_all(b0, tag(number_cells(ds@, x as int, y as int, k as int), idx)),
        decreases ds@.len() - k,
    {
        let ghost pre = number_cells(ds@, x as int, y as int, k as int);
        glyph(buf, ds[k], cx, y, idx);
        proof {
            let g = glyph_rows(ds@[k as int] as int, cx as int, y as int, 5);
            lemma_paint_append(b0, tag(pre, idx), tag(g, idx));
            assert(tag(pre, idx) + tag(g, idx) =~= tag(pre + g, idx));
        }
        cx = cx + 4;
        k = k + 1;
    }
}

/// Size in bytes of the encoded template file.
pub const BMP_LEN: usize = 43062;

/// Offset of the pixel rows in the encoded file (file header, info header,
/// 256-entry palette).
pub const PIXEL_OFF: usize = 1078;

/// The 14-byte file header followed by the 40-byte info header of a
/// 256x164, 8bpp, bottom-up, uncompressed bitmap with a 256-entry palette.
pub open spec fn bmp_header() -> Seq<u8> {
    seq![66u8, 77u8] + u32_bytes(43062) + u16_bytes(0) + u16_bytes(0) + u32_bytes(1078)
        + u32_bytes(40) + u32_bytes(256) + u32_bytes(164) + u16_bytes(1) + u16_bytes(8)
        + u32_bytes(0) + u32_bytes(0) + u32_bytes(0) + u32_bytes(0) + u32_bytes(256)
        + u32_bytes(0)
}

/// Byte `i` of the file encoding the top-origin canvas `canvas` with palette
/// `pal`: headers, then the palette as B, G, R, 0, then the rows bottom-up.
pub open spec fn bmp_byte(canvas: Seq<u8>, pal: Seq<[u8; 3]>, i: int) -> u8 {
    if i < 54 {
        bmp_header()[i]
    } else if i < 1078 {
        let p = (i - 54) / 4;
        let c = (i - 54) % 4;
        if c == 0 {
            pal[p][2]
        } else if c == 1 {
            pal[p][1]
        } else if c == 2 {
            pal[p][0]
        } else {
            0
        }
    } else {
        let r = (i - 1078) / 256;
        let x = (i - 1078) % 256;
        canvas[(163 - r) * 256 + x]
    }
}

/// The whole encoded file.
pub open spec fn bmp_bytes(canvas: Seq<u8>, pal: Seq<[u8; 3]>) -> Seq<u8> {
    Seq::new(43062, |i: int| bmp_byte(canvas, pal, i))
}

/// Encode a top-origin 256x164 index buffer into an 8bpp BMP file.
fn encode_bmp(buf: &Vec<u8>, palette: &[[u8; 3]; 256]) -> (out: Vec<u8>)
    requires
        buf@.len() == 41984,
    ensures
        out@ == bmp_bytes(buf@, palette@),
{
    let mut out: Vec<u8> = Vec::new();
    out.push(66u8);
    out.push(77u8);
    push_u32(&mut out, 43062);
    push_u16(&mut out, 0);
    push_u16(&mut out, 0);
    push_u32(&mut out, 1078);
    push_u32(&mut out, 40);
    push_u32(&mut out, 256);
    push_u32(&mut out, 164);
    push_u16(&mut out, 1);
    push_u16(&mut out, 8);
    push_u32(&mut out, 0);
    push_u32(&mut out, 0);
    push_u32(&mut out, 0);
    push_u32(&mut out, 0);
    push_u32(&mut out, 256);
    push_u32(&mut out, 0);
    assert(out@ =~= bmp_header());
    let ghost pal = palette@;
    let mut p: usize = 0;
    while p < 256
        invariant
            p <= 256,
            pal == palette@,
            pal.len() == 256,
            buf@.len() == 41984,
            out@.len() == 54 + 4 * p,
            forall|i: int| 0 <= i < out@.len() ==> #[trigger] out@[i] == bmp_byte(buf@, pal, i),
        decreases 256 - p,
    {
        let rgb = palette[p];
        let ghost before = out@;
        out.push(rgb[2]);
        out.push(rgb[1]);
        out.push(rgb[0]);
        out.push(0u8);
        assert forall|i: int| 0 <= i < out@.len() implies #[trigger] out@[i] == bmp_byte(
            buf@,
            pal,
            i,
        ) by {
            if i >= before.len() {
                assert((i - 54) / 4 == p as int);
                assert((i - 54) % 4 == i - before.len());
            } else {
                assert(out@[i] == before[i]);
            }
        }
        p = p + 1;
    }
    let mut j: usize = 0;
    while j < 164
        invariant
            j <= 164,
            pal == palette@,
            pal.len() == 256,
            buf@.len() == 41984,
            out@.len() == 1078 + 256 * j,
            forall|i: int| 0 <= i < out@.len() ==> #[trigger] out@[i] == bmp_byte(buf@, pal, i),
        decreases 164 - j,
    {
        let start: usize = (163 - j) * 256;
        let ghost row_base = out@.len();
        let mut x: usize = 0;
        while x < 256
            invariant
                j < 164,
                x <= 256,
                start == (163 - j) * 256,
                row_base == 1078 + 256 * j,
                buf@.len() == 41984,
                out@.len() == row_base + x,
                forall|i: int| 0 <= i < out@.len() ==> #[trigger] out@[i] == bmp_byte(buf@, pal, i),
            decreases 256 - x,
        {
            let ghost before = out@;
            out.push(buf[start + x]);
            assert forall|i: int| 0 <= i < out@.len() implies #[trigger] out@[i] == bmp_byte(
                buf@,
                pal,
                i,
            ) by {
                if i == before.len() {
                    assert((i - 1078) / 256 == j as int);
                    assert((i - 1078) % 256 == x as int);
                } else {
                    assert(out@[i] == before[i]);
                }
            }
            x = x + 1;
        }
        j = j + 1;
    }
    assert(out@ =~= bmp_bytes(buf@, palette@));
    out
}

/// Sum of coordinate `axis` over the first `k` texels of `c`.
pub open spec fn sum_axis(c: Seq<[i32; 2]>, axis: int, k: int) -> int
    decreases k,
{
    if k <= 0 {
        0
    } else {
        sum_axis(c, axis, k - 1) + c[k - 1][axis] as int
    }
}

/// Texels of the first `k` edges of the closed polygon `c`; edge `i` runs
/// from `c[i]` to `c[(i + 1) % len]`.
pub open spec fn outline(c: Seq<[i32; 2]>, k: int) -> Seq<(int, int)>
    decreases k,
{
    if k <= 0 {
        Seq::empty()
    } else {
        let a = c[k - 1];
        let b = c[k % (c.len() as int)];
        outline(c, k - 1) + line_pixels(a[0] as int, a[1] as int, b[0] as int, b[1] as int)
    }
}

/// Top-left corner of face `idx`'s label: the integer centroid of `c`,
/// moved left by half the label width and up by two texels.
pub open spec fn label_origin(idx: nat, c: Seq<[i32; 2]>) -> (int, int) {
    let n = c.len() as int;
    let cx = sum_axis(c, 0, n) / n;
    let cy = sum_axis(c, 1, n) / n;
    let w = 4 * digits(idx).len() - 1;
    (cx - w / 2, cy - 2)
}

/// What one face adds to the template: its closed outline in the wire
/// colour, then (when labels are on) its index in the label colour.
pub open spec fn face_strokes(f: FaceCoords, opts: Opts) -> Seq<Stroke> {
    let c = f.coords@;
    if c.len() == 0 {
        Seq::empty()
    } else {
        let o = label_origin(f.face_idx as nat, c);
        tag(outline(c, c.len() as int), opts.wire_idx) + if opts.labels {
            tag(number_pixels(f.face_idx as nat, o.0, o.1), opts.label_idx)
        } else {
            Seq::empty()
        }
    }
}

/// Strokes of the first `k` faces, in emission order.
pub open spec fn template_strokes(faces: Seq<FaceCoords>, opts: Opts, k: int) -> Seq<Stroke>
    decreases k,
{
    if k <= 0 {
        Seq::empty()
    } else {
        template_strokes(faces, opts, k - 1) + face_strokes(faces[k - 1], opts)
    }
}

/// The blank canvas: every texel the background index 0.
pub open spec fn blank() -> Seq<u8> {
    Seq::new(41984, |i: int| 0u8)
}

/// The rendered top-origin canvas of the template.
pub open spec fn template_canvas(faces: Seq<FaceCoords>, opts: Opts) -> Seq<u8> {
    paint_all(blank(), template_strokes(faces, opts, faces.len() as int))
}

/// Paint the closed outline of `c`.
fn outline_face(buf: &mut Vec<u8>, c: &Vec<[i32; 2]>, idx: u8)
    requires
        old(buf)@.len() == 41984,
        c@.len() > 0,
        forall|k: int| 0 <= k < c@.len() ==> crate::unwrap::in_atlas(#[trigger] c@[k]),
    ensures
        final(buf)@ == paint_all(old(buf)@, tag(outline(c@, c@.len() as int), idx)),
        final(buf)@.len() == 41984,
{
    let ghost b0 = buf@;
    let n = c.len();
    let mut i: usize = 0;
    while i < n
        invariant
            n == c@.len(),
            n > 0,
            i <= n,
            forall|k: int| 0 <= k < c@.len() ==> crate::unwrap::in_atlas(#[trigger] c@[k]),
            buf@.len() == 41984,
            buf@ == paint_all(b0, tag(outline(c@, i as int), idx)),
        decreases n - i,
    {
        let a = c[i];
        let b = c[(i + 1) % n];
        proof {
            assert(crate::unwrap::in_atlas(c@[i as int]));
            assert(crate::unwrap::in_atlas(c@[((i + 1) as int) % (n as int)]));
        }
        let ghost pre = outline(c@, i as int);
        line(buf, a[0], a[1], b[0], b[1], idx);
        proof {
            let seg = line_pixels(a[0] as int, a[1] as int, b[0] as int, b[1] as int);
            lemma_paint_append(b0, tag(pre, idx), tag(seg, idx));
            assert(tag(pre, idx) + tag(seg, idx) =~= tag(pre + seg, idx));
            assert(outline(c@, i + 1) == pre + seg);
        }
        i = i + 1;
    }
}

/// Paint face `face_idx`'s number centred on the centroid of `c`.
fn label_face(buf: &mut Vec<u8>, face_idx: usize, c: &Vec<[i32; 2]>, idx: u8)
    requires
        old(buf)@.len() == 41984,
        c@.len() > 0,
        forall|k: int| 0 <= k < c@.len() ==> crate::unwrap::in_atlas(#[trigger] c@[k]),
    ensures
        final(buf)@ == paint_all(
            old(buf)@,
            tag(
                number_pixels(
                    face_idx as nat,
                    label_origin(face_idx as nat, c@).0,
                    label_origin(face_idx as nat, c@).1,
                ),
                idx,
            ),
        ),
        final(buf)@.len() == 41984,
{
    let n = c.len();
    let mut sx: u128 = 0;
    let mut sy: u128 = 0;
    let mut k: usize = 0;
    while k < n
        invariant
            n == c@.len(),
            k <= n,
            forall|m: int| 0 <= m < c@.len() ==> crate::unwrap::in_atlas(#[trigger] c@[m]),
            sx == sum_axis(c@, 0, k as int),
            sy == sum_axis(c@, 1, k as int),
            sx <= 255 * k,
            sy <= 163 * k,
        decreases n - k,
    {
        proof {
            assert(crate::unwrap::in_atlas(c@[k as int]));
        }
        sx = sx + c[k][0] as u128;
        sy = sy + c[k][1] as u128;
        k = k + 1;
    }
    let cx128 = sx / (n as u128);
    let cy128 = sy / (n as u128);
    proof {
        assert(cx128 <= 255) by (nonlinear_arith)
            requires
                sx <= 255 * n,
                n > 0,
                cx128 == sx / (n as u128),
        ;
        assert(cy128 <= 163) by (nonlinear_arith)
            requires
                sy <= 163 * n,
                n > 0,
                cy128 == sy / (n as u128),
        ;
        lemma_digits_bounds(face_idx as nat);
    }
    let cx = cx128 as i32;
    let cy = cy128 as i32;
    let ndig = decimal_digits(face_idx as u64).len() as i32;
    let label_w = ndig * 4 - 1;
    number(buf, face_idx, cx - label_w / 2, cy - 2, idx);
}

/// Render the unwrap as an 8bpp paletted BMP, returned as raw file bytes.
pub fn write_template(uw: &Unwrap, opts: &Opts, palette: &[[u8; 3]; 256]) -> (r: Vec<u8>)
    requires
        uw.wf(),
    ensures
        r@ == bmp_bytes(template_canvas(uw.spec_faces(), *opts), palette@),
{
    let faces = uw.iter_faces();
    let mut buf: Vec<u8> = Vec::new();
    let mut z: usize = 0;
    while z < 41984
        invariant
            z <= 41984,
            buf@ == Seq::new(z as nat, |i: int| 0u8),
        decreases 41984 - z,
    {
        buf.push(0u8);
        z = z + 1;
        assert(buf@ =~= Seq::new(z as nat, |i: int| 0u8));
    }
    let ghost fs = faces@;
    let mut fi: usize = 0;
    while fi < faces.len()
        invariant
            fs == faces@,
            fs == uw.spec_faces(),
            uw.wf(),
            fi <= fs.len(),
            buf@.len() == 41984,
            buf@ == paint_all(blank(), template_strokes(fs, *opts, fi as int)),
        decreases fs.len() - fi,
    {
        let f = &faces[fi];
        let ghost pre = template_strokes(fs, *opts, fi as int);
        let ghost here = face_strokes(fs[fi as int], *opts);
        if f.coords.len() > 0 {
            proof {
                assert forall|k: int| 0 <= k < f.coords@.len() implies crate::unwrap::in_atlas(
                    #[trigger] f.coords@[k],
                ) by {
                    assert(crate::unwrap::in_atlas(uw.spec_faces()[fi as int].coords@[k]));
                }
            }
            let ghost c = f.coords@;
            let ghost wire = tag(outline(c, c.len() as int), opts.wire_idx);
            outline_face(&mut buf, &f.coords, opts.wire_idx);
            proof {
                lemma_paint_append(blank(), pre, wire);
            }
            if opts.labels {
                let ghost o = label_origin(f.face_idx as nat, c);
                let ghost lab = tag(number_pixels(f.face_idx as nat, o.0, o.1), opts.label_idx);
                label_face(&mut buf, f.face_idx, &f.coords, opts.label_idx);
                proof {
                    lemma_paint_append(blank(), pre + wire, lab);
                    assert(here == wire + lab);
                    assert(pre + wire + lab =~= pre + here);
                }
            } else {
                proof {
                    assert(here =~= wire);
                }
            }
        } else {
            proof {
                assert(here =~= Seq::<Stroke>::empty());
                assert(pre + here =~= pre);
            }
        }
        proof {
            assert(template_strokes(fs, *opts, fi + 1) == pre + here);
        }
        fi = fi + 1;
    }
    proof {
        assert(blank() =~= Seq::new(41984, |i: int| 0u8));
    }
    encode_bmp(&buf, palette)
}

/// Byte `i` of the top-origin RGBA image decoded from the bitmap file
/// `bmp`: texel `(x, y)` is read from bottom-up row `163 - y` and looked up
/// in `pal`; alpha is opaque.
pub open spec fn rgba_byte(bmp: Seq<u8>, pal: Seq<[u8; 3]>, i: int) -> u8 {
    let t = i / 4;
    let c = i % 4;
    let y = t / 256;
    let x = t % 256;
    if c == 3 {
        255
    } else {
        pal[bmp[1078 + (163 - y) * 256 + x] as int][c]
    }
}

/// The whole decoded RGBA image (256 x 164 x 4 bytes).
pub open spec fn rgba_of(bmp: Seq<u8>, pal: Seq<[u8; 3]>) -> Seq<u8> {
    Seq::new(167936, |i: int| rgba_byte(bmp, pal, i))
}

/// Decode a template bitmap back to a top-origin RGBA image, as
/// `(width, height, bytes)`; `None` when `bmp` is too short to hold the
/// pixel rows.
pub fn preview_rgba(bmp: &[u8], palette: &[[u8; 3]; 256]) -> (r: Option<(usize, usize, Vec<u8>)>)
    ensures
        bmp@.len() < 43062 <==> r is None,
        r matches Some(t) ==> t.0 == 256 && t.1 == 164 && t.2@ == rgba_of(bmp@, palette@),
{
    if bmp.len() < PIXEL_OFF + 256 * 164 {
        return None;
    }
    let ghost pal = palette@;
    let mut rgba: Vec<u8> = Vec::new();
    let mut y: usize = 0;
    while y < 164
        invariant
            y <= 164,
            bmp@.len() >= 43062,
            pal == palette@,
            pal.len() == 256,
            rgba@.len() == 1024 * y,
            forall|i: int| 0 <= i < rgba@.len() ==> #[trigger] rgba@[i] == rgba_byte(bmp@, pal, i),
        decreases 164 - y,
    {
        let src = PIXEL_OFF + (163 - y) * 256;
        let mut x: usize = 0;
        while x < 256
            invariant
                y < 164,
                x <= 256,
                src == 1078 + (163 - y) * 256,
                bmp@.len() >= 43062,
                pal == palette@,
                pal.len() == 256,
                rgba@.len() == 1024 * y + 4 * x,
                forall|i: int|
                    0 <= i < rgba@.len() ==> #[trigger] rgba@[i] == rgba_byte(bmp@, pal, i),
            decreases 256 - x,
        {
            let idx = bmp[src + x] as usize;
            let rgb = palette[idx];
            let ghost before = rgba@;
            rgba.push(rgb[0]);
            rgba.push(rgb[1]);
            rgba.push(rgb[2]);
            rgba.push(255u8);
            assert forall|i: int| 0 <= i < rgba@.len() implies #[trigger] rgba@[i] == rgba_byte(
                bmp@,
                pal,
                i,
            ) by {
                if i >= before.len() {
                    assert(i / 4 == 256 * y + x);
                    assert(i % 4 == i - before.len());
                    assert((256 * y + x) / 256 == y as int);
                    assert((256 * y + x) % 256 == x as int);
                } else {
                    assert(rgba@[i] == before[i]);
                }
            }
            x = x + 1;
        }
        y = y + 1;
    }
    assert(rgba@ =~= rgba_of(bmp@, palette@));
    Some((256, 164, rgba))
}

/// Decoding an encoded canvas gives back, at every texel, the palette colour
/// of that texel's index, fully opaque.
pub proof fn lemma_preview_of_encoded(canvas: Seq<u8>, pal: Seq<[u8; 3]>, x: int, y: int)
    requires
        canvas.len() == 41984,
        pal.len() == 256,
        0 <= x < 256,
        0 <= y < 164,
    ensures
        rgba_of(bmp_bytes(canvas, pal), pal)[4 * (y * 256 + x)] == pal[canvas[y * 256 + x] as int][0],
        rgba_of(bmp_bytes(canvas, pal), pal)[4 * (y * 256 + x) + 1] == pal[canvas[y * 256 + x] as int][1],
        rgba_of(bmp_bytes(canvas, pal), pal)[4 * (y * 256 + x) + 2] == pal[canvas[y * 256 + x] as int][2],
        rgba_of(bmp_bytes(canvas, pal), pal)[4 * (y * 256 + x) + 3] == 255,
{
    let b = bmp_bytes(canvas, pal);
    let t = y * 256 + x;
    let j = 1078 + (163 - y) * 256 + x;
    assert(t / 256 == y && t % 256 == x);
    assert((j - 1078) / 256 == 163 - y && (j - 1078) % 256 == x);
    assert(b[j] == canvas[t]);
    assert((4 * t) / 4 == t && (4 * t) % 4 == 0);
    assert((4 * t + 1) / 4 == t && (4 * t + 1) % 4 == 1);
    assert((4 * t + 2) / 4 == t && (4 * t + 2) % 4 == 2);
    assert((4 * t + 3) / 4 == t && (4 * t + 3) % 4 == 3);
}

/// Every stroke of `s` carries index `a` or index `b`.
pub open spec fn strokes_in(s: Seq<Stroke>, a: u8, b: u8) -> bool {
    forall|k: int| 0 <= k < s.len() ==> (#[trigger] s[k]).2 == a || s[k].2 == b
}

proof fn lemma_paint_colours(buf: Seq<u8>, s: Seq<Stroke>, a: u8, b: u8, k: int)
    requires
        buf.len() == 41984,
        strokes_in(s, a, b),
        k <= s.len(),
    ensures
        paint(buf, s, k).len() == 41984,
        forall|i: int|
            0 <= i < 41984 ==> #[trigger] paint(buf, s, k)[i] == buf[i] || paint(buf, s, k)[i] == a
                || paint(buf, s, k)[i] == b,
    decreases k,
{
    if k > 0 {
        lemma_paint_colours(buf, s, a, b, k - 1);
        assert(s[k - 1].2 == a || s[k - 1].2 == b);
    }
}

proof fn lemma_template_strokes_in(faces: Seq<FaceCoords>, opts: Opts, k: int)
    requires
        k <= faces.len(),
    ensures
        strokes_in(template_strokes(faces, opts, k), opts.wire_idx, opts.label_idx),
    decreases k,
{
    if k > 0 {
        lemma_template_strokes_in(faces, opts, k - 1);
        let pre = template_strokes(faces, opts, k - 1);
        let here = face_strokes(faces[k - 1], opts);
        assert(strokes_in(here, opts.wire_idx, opts.label_idx)) by {
            let c = faces[k - 1].coords@;
            if c.len() > 0 {
                let o = label_origin(faces[k - 1].face_idx as nat, c);
                let w = tag(outline(c, c.len() as int), opts.wire_idx);
                let l = tag(number_pixels(faces[k - 1].face_idx as nat, o.0, o.1), opts.label_idx);
                assert forall|j: int| 0 <= j < here.len() implies (#[trigger] here[j]).2
                    == opts.wire_idx || here[j].2 == opts.label_idx by {
                    if j < w.len() {
                        assert(here[j] == w[j]);
                    } else {
                        assert(opts.labels);
                        assert(here[j] == l[j - w.len()]);
                    }
                }
            }
        }
        assert forall|j: int| 0 <= j < pre.len() + here.len() implies (#[trigger] (pre
            + here)[j]).2 == opts.wire_idx || (pre + here)[j].2 == opts.label_idx by {
            if j < pre.len() {
                assert((pre + here)[j] == pre[j]);
            } else {
                assert((pre + here)[j] == here[j - pre.len()]);
            }
        }
    }
}

/// Every texel of a rendered template is the background index 0, the wire
/// index or the label index.
pub proof fn lemma_template_colours(faces: Seq<FaceCoords>, opts: Opts, i: int)
    requires
        0 <= i < 41984,
    ensures
        template_canvas(faces, opts).len() == 41984,
        template_canvas(faces, opts)[i] == 0 || template_canvas(faces, opts)[i] == opts.wire_idx
            || template_canvas(faces, opts)[i] == opts.label_idx,
{
    let s = template_strokes(faces, opts, faces.len() as int);
    lemma_template_strokes_in(faces, opts, faces.len() as int);
    lemma_paint_colours(blank(), s, opts.wire_idx, opts.label_idx, s.len() as int);
    assert(paint(blank(), s, s.len() as int)[i] == blank()[i] || paint(blank(), s, s.len() as int)[i]
        == opts.wire_idx || paint(blank(), s, s.len() as int)[i] == opts.label_idx);
}

} // verus!
