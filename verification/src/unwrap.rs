//! The integer side of an unwrap: per-face atlas coordinates, colour groups
//! and packed island boxes, plus the layout/packing option enums.
//!
//! The floating-point unfolding and packing that produce these values live
//! outside this crate; they hand their integer results to [`Unwrap::from_parts`].

use vstd::prelude::*;
use crate::model::FaceModel;

verus! {

/// Atlas width in texels.
pub const ATLAS_W: usize = 256;

/// Atlas height in texels.
pub const ATLAS_H: usize = 164;

/// Which rectangle-packing strategy to use when laying islands into the atlas.
#[derive(Clone, Copy, PartialEq, Eq, Debug, Structural)]
pub enum PackStrategy {
    Shelf,
    Skyline,
    MaxRects,
}

/// Display label of a packing strategy.
pub open spec fn pack_label(s: PackStrategy) -> Seq<char> {
    match s {
        PackStrategy::Shelf => "Shelf (fast)"@,
        PackStrategy::Skyline => "Skyline"@,
        PackStrategy::MaxRects => "MaxRects (densest)"@,
    }
}

impl PackStrategy {
    /// Display label.
    pub fn label(self) -> (r: &'static str)
        ensures
            r@ == pack_label(self),
    {
        match self {
            PackStrategy::Shelf => "Shelf (fast)",
            PackStrategy::Skyline => "Skyline",
            PackStrategy::MaxRects => "MaxRects (densest)",
        }
    }

    /// Every strategy, in menu order.
    pub const ALL: [PackStrategy; 3] = [
        PackStrategy::Shelf,
        PackStrategy::Skyline,
        PackStrategy::MaxRects,
    ];
}

/// Which layout the unwrap uses.
#[derive(Clone, Copy, PartialEq, Eq, Debug, Structural)]
pub enum LayoutMode {
    /// Angle-welded islands packed densely (weld-angle + pack-strategy apply).
    Dense,
    /// GP2-style: canonical islands, planar projection, 3 mirror slices.
    Gp2Symmetric,
}

/// Display label of a layout mode.
pub open spec fn layout_label(m: LayoutMode) -> Seq<char> {
    match m {
        LayoutMode::Dense => "Dense (MaxRects)"@,
        LayoutMode::Gp2Symmetric => "GP2 / Symmetric"@,
    }
}

impl LayoutMode {
    /// Display label.
    pub fn label(self) -> (r: &'static str)
        ensures
            r@ == layout_label(self),
    {
        match self {
            LayoutMode::Dense => "Dense (MaxRects)",
            LayoutMode::Gp2Symmetric => "GP2 / Symmetric",
        }
    }

    /// Every layout, in menu order.
    pub const ALL: [LayoutMode; 2] = [LayoutMode::Gp2Symmetric, LayoutMode::Dense];
}

/// Packing options for the dense layout.
#[derive(Clone, Copy, PartialEq, Debug)]
pub struct PackOpts {
    pub strategy: PackStrategy,
    /// Rotate each island to its minimum-area oriented rectangle before packing.
    pub orient: bool,
}

impl Default for PackOpts {
    fn default() -> (r: Self)
        ensures
            r.strategy == PackStrategy::MaxRects,
            r.orient,
    {
        PackOpts { strategy: PackStrategy::MaxRects, orient: true }
    }
}

/// One face's atlas polygon (in model vertex order) and its colour group.
#[derive(Clone, Debug)]
pub struct FaceCoords {
    pub face_idx: usize,
    pub coords: Vec<[i32; 2]>,
    pub tint: u8,
}

/// Final unwrap: per-face atlas coords in emission order, packed island
/// boxes `[x0, y0, x1, y1]`, and whether the packing fit the atlas.
pub struct Unwrap {
    faces: Vec<FaceCoords>,
    island_boxes: Vec<[i32; 4]>,
    /// True when the final packing fit the atlas without clamping/overflow.
    pub fits: bool,
}

/// `v` clamped into `[lo, hi]`.
pub open spec fn clamp(v: int, lo: int, hi: int) -> int {
    if v < lo {
        lo
    } else if v > hi {
        hi
    } else {
        v
    }
}

/// No face index occurs twice.
pub open spec fn distinct_faces(fs: Seq<FaceCoords>) -> bool {
    forall|i: int, j: int|
        0 <= i < j < fs.len() ==> (#[trigger] fs[i]).face_idx != (#[trigger] fs[j]).face_idx
}

/// A texel lies inside the 256x164 atlas.
pub open spec fn in_atlas(p: [i32; 2]) -> bool {
    0 <= p[0] < 256 && 0 <= p[1] < 164
}

/// `out` is `inp` with every texel clamped into the atlas.
pub open spec fn clamped(inp: Seq<[i32; 2]>, out: Seq<[i32; 2]>) -> bool {
    &&& out.len() == inp.len()
    &&& forall|k: int|
        0 <= k < inp.len() ==> (#[trigger] out[k])[0] == clamp(inp[k][0] as int, 0, 255)
            && out[k][1] == clamp(inp[k][1] as int, 0, 163)
}

/// Shoelace sum over the first `k` edges of the closed polygon `c`.
pub open spec fn shoelace(c: Seq<[i32; 2]>, k: int) -> int
    decreases k,
{
    if k <= 0 {
        0
    } else {
        let p = c[k - 1];
        let q = c[k % (c.len() as int)];
        shoelace(c, k - 1) + (p[0] as int) * (q[1] as int) - (q[0] as int) * (p[1] as int)
    }
}

/// Twice the area of the polygon `c` (0 below three vertices).
pub open spec fn twice_area(c: Seq<[i32; 2]>) -> int {
    if c.len() < 3 {
        0
    } else {
        let s = shoelace(c, c.len() as int);
        if s < 0 {
            -s
        } else {
            s
        }
    }
}

/// First position at or after `j` whose face is `idx`.
pub open spec fn first_from(faces: Seq<FaceCoords>, idx: usize, j: int) -> Option<int>
    decreases faces.len() - j,
{
    if j < 0 || j >= faces.len() {
        None
    } else if faces[j].face_idx == idx {
        Some(j)
    } else {
        first_from(faces, idx, j + 1)
    }
}

/// Box `b` (clamped into the atlas) covers texel `(x, y)`.
pub open spec fn box_covers(b: [i32; 4], x: int, y: int) -> bool {
    let x0 = clamp(b[0] as int, 0, i32::MAX as int);
    let y0 = clamp(b[1] as int, 0, i32::MAX as int);
    let x1 = clamp(b[2] as int, 0, 256);
    let y1 = clamp(b[3] as int, 0, 164);
    x0 <= x < x1 && y0 <= y < y1
}

/// Number of boxes among `boxes[..k]` covering `(x, y)`.
pub open spec fn cover_count(boxes: Seq<[i32; 4]>, x: int, y: int, k: int) -> nat
    decreases k,
{
    if k <= 0 {
        0
    } else {
        cover_count(boxes, x, y, k - 1) + if box_covers(boxes[k - 1], x, y) {
            1nat
        } else {
            0nat
        }
    }
}

/// Number of texels among the first `p` (row-major, 256 wide) covered by
/// two or more boxes.
pub open spec fn overlap_upto(boxes: Seq<[i32; 4]>, p: int) -> nat
    decreases p,
{
    if p <= 0 {
        0
    } else {
        overlap_upto(boxes, p - 1) + if cover_count(
            boxes,
            (p - 1) % 256,
            (p - 1) / 256,
            boxes.len() as int,
        ) >= 2 {
            1nat
        } else {
            0nat
        }
    }
}

proof fn lemma_cover_count_le(boxes: Seq<[i32; 4]>, x: int, y: int, k: int)
    requires
        0 <= k,
    ensures
        cover_count(boxes, x, y, k) <= k,
    decreases k,
{
    if k > 0 {
        lemma_cover_count_le(boxes, x, y, k - 1);
    }
}

impl Unwrap {
    /// Faces in emission order.
    pub closed spec fn spec_faces(&self) -> Seq<FaceCoords> {
        self.faces@
    }

    /// Whether the packing fit the atlas.
    pub closed spec fn spec_fits(&self) -> bool {
        self.fits
    }

    /// Packed island boxes.
    pub closed spec fn spec_boxes(&self) -> Seq<[i32; 4]> {
        self.island_boxes@
    }

    /// Every face texel lies inside the atlas.
    pub open spec fn wf(&self) -> bool {
        forall|i: int, k: int|
            0 <= i < self.spec_faces().len() && 0 <= k < self.spec_faces()[i].coords@.len()
                ==> in_atlas(#[trigger] self.spec_faces()[i].coords@[k])
    }

    /// Assemble an unwrap from per-face coords (each texel clamped into the
    /// 256x164 atlas), packed island boxes and the fit flag. Each face is
    /// placed at most once.
    pub fn from_parts(faces: Vec<FaceCoords>, island_boxes: Vec<[i32; 4]>, fits: bool) -> (r:
        Unwrap)
        requires
            distinct_faces(faces@),
        ensures
            r.wf(),
            distinct_faces(r.spec_faces()),
            r.spec_fits() == fits,
            r.spec_boxes() == island_boxes@,
            r.spec_faces().len() == faces@.len(),
            forall|i: int|
                0 <= i < faces@.len() ==> (#[trigger] r.spec_faces()[i]).face_idx
                    == faces@[i].face_idx && r.spec_faces()[i].tint == faces@[i].tint && clamped(
                    faces@[i].coords@,
                    r.spec_faces()[i].coords@,
                ),
    {
        let mut out: Vec<FaceCoords> = Vec::new();
        let mut i: usize = 0;
        while i < faces.len()
            invariant
                i <= faces@.len(),
                out@.len() == i,
                forall|j: int|
                    0 <= j < i ==> (#[trigger] out@[j]).face_idx == faces@[j].face_idx
                        && out@[j].tint == faces@[j].tint && clamped(
                        faces@[j].coords@,
                        out@[j].coords@,
                    ),
                forall|j: int, k: int|
                    0 <= j < i && 0 <= k < out@[j].coords@.len() ==> in_atlas(
                        #[trigger] out@[j].coords@[k],
                    ),
            decreases faces@.len() - i,
        {
            let src = &faces[i].coords;
            let mut c: Vec<[i32; 2]> = Vec::new();
            let mut k: usize = 0;
            while k < src.len()
                invariant
                    k <= src@.len(),
                    c@.len() == k,
                    forall|m: int|
                        0 <= m < k ==> (#[trigger] c@[m])[0] == clamp(src@[m][0] as int, 0, 255)
                            && c@[m][1] == clamp(src@[m][1] as int, 0, 163),
                decreases src@.len() - k,
            {
                let p = src[k];
                let u = if p[0] < 0 {
                    0
                } else if p[0] > 255 {
                    255
                } else {
                    p[0]
                };
                let v = if p[1] < 0 {
                    0
                } else if p[1] > 163 {
                    163
                } else {
                    p[1]
                };
                c.push([u, v]);
                k = k + 1;
            }
            out.push(FaceCoords { face_idx: faces[i].face_idx, coords: c, tint: faces[i].tint });
            i = i + 1;
        }
        Unwrap { faces: out, island_boxes, fits }
    }

    /// The faces in emission order.
    pub fn iter_faces(&self) -> (r: &Vec<FaceCoords>)
        ensures
            r@ == self.spec_faces(),
    {
        &self.faces
    }

    /// Position of the first entry for `face_idx`.
    fn find(&self, face_idx: usize) -> (r: Option<usize>)
        ensures
            r matches Some(j) ==> j < self.spec_faces().len() && self.spec_faces()[j as int].face_idx
                == face_idx,
            match r {
                Some(j) => first_from(self.spec_faces(), face_idx, 0) == Some(j as int),
                None => first_from(self.spec_faces(), face_idx, 0) is None,
            },
    {
        let mut j: usize = 0;
        while j < self.faces.len()
            invariant
                j <= self.faces@.len(),
                first_from(self.spec_faces(), face_idx, 0) == first_from(
                    self.spec_faces(),
                    face_idx,
                    j as int,
                ),
            decreases self.faces@.len() - j,
        {
            if self.faces[j].face_idx == face_idx {
                return Some(j);
            }
            j = j + 1;
        }
        None
    }

    /// Atlas coords of a face (model vertex order), if it was placed.
    pub fn coords(&self, face_idx: usize) -> (r: Option<&Vec<[i32; 2]>>)
        ensures
            match r {
                Some(c) => first_from(self.spec_faces(), face_idx, 0) matches Some(j)
                    && c@ == self.spec_faces()[j].coords@,
                None => first_from(self.spec_faces(), face_idx, 0) is None,
            },
    {
        match self.find(face_idx) {
            Some(j) => Some(&self.faces[j].coords),
            None => None,
        }
    }

    /// Colour-group index for a face (the symmetric layout uses the slice:
    /// 0 = top/centre, 1 = left, 2 = right; the dense layout the island).
    pub fn tint(&self, face_idx: usize) -> (r: Option<u8>)
        ensures
            match r {
                Some(t) => first_from(self.spec_faces(), face_idx, 0) matches Some(j) && t
                    == self.spec_faces()[j].tint,
                None => first_from(self.spec_faces(), face_idx, 0) is None,
            },
    {
        match self.find(face_idx) {
            Some(j) => Some(self.faces[j].tint),
            None => None,
        }
    }

    /// Twice the polygon area of each face, in emission order (0 for a face
    /// with fewer than 3 texels).
    pub fn twice_areas(&self) -> (r: Vec<u128>)
        requires
            self.wf(),
        ensures
            r@.len() == self.spec_faces().len(),
            forall|i: int|
                0 <= i < r@.len() ==> #[trigger] r@[i] == twice_area(self.spec_faces()[i].coords@),
    {
        let mut out: Vec<u128> = Vec::new();
        let mut i: usize = 0;
        while i < self.faces.len()
            invariant
                self.wf(),
                i <= self.faces@.len(),
                out@.len() == i,
                forall|j: int|
                    0 <= j < i ==> #[trigger] out@[j] == twice_area(self.spec_faces()[j].coords@),
            decreases self.faces@.len() - i,
        {
            let c = &self.faces[i].coords;
            let n = c.len();
            let mut a: i128 = 0;
            proof {
                assert forall|m: int| 0 <= m < c@.len() implies in_atlas(#[trigger] c@[m]) by {
                    assert(in_atlas(self.spec_faces()[i as int].coords@[m]));
                }
            }
            if n >= 3 {
                let mut k: usize = 0;
                while k < n
                    invariant
                        n == c@.len(),
                        n >= 3,
                        k <= n,
                        forall|m: int| 0 <= m < n ==> in_atlas(#[trigger] c@[m]),
                        a == shoelace(c@, k as int),
                        -83130 * k <= a <= 83130 * k,
                    decreases n - k,
                {
                    let j = (k + 1) % n;
                    let p = c[k];
                    let q = c[j];
                    proof {
                        assert(in_atlas(c@[k as int]));
                        assert(in_atlas(c@[j as int]));
                        assert(0 <= (p[0] as int) * (q[1] as int) <= 255 * 163) by (nonlinear_arith)
                            requires
                                0 <= p[0] < 256,
                                0 <= q[1] < 164,
                        ;
                        assert(0 <= (q[0] as int) * (p[1] as int) <= 255 * 163) by (nonlinear_arith)
                            requires
                                0 <= q[0] < 256,
                                0 <= p[1] < 164,
                        ;
                    }
                    let t1 = (p[0] as i128) * (q[1] as i128);
                    let t2 = (q[0] as i128) * (p[1] as i128);
                    a = a + (t1 - t2);
                    k = k + 1;
                }
            }
            let v: u128 = if n < 3 {
                0
            } else if a < 0 {
                (-a) as u128
            } else {
                a as u128
            };
            out.push(v);
            i = i + 1;
        }
        out
    }

    /// Count of texels covered by two or more island boxes (0 = no overlap).
    /// Boxes are clamped into the atlas; each texel counts once.
    pub fn max_overlap(&self) -> (r: u64)
        ensures
            r == overlap_upto(self.spec_boxes(), 41984),
    {
        let w: usize = 256;
        let h: usize = 164;
        let mut cover: Vec<usize> = Vec::new();
        let mut q: usize = 0;
        while q < w * h
            invariant
                w == 256,
                h == 164,
                q <= w * h,
                cover@.len() == q,
                forall|p: int| 0 <= p < q ==> cover@[p] == 0,
            decreases w * h - q,
        {
            cover.push(0);
            q = q + 1;
        }
        let ghost boxes = self.spec_boxes();
        let nb = self.island_boxes.len();
        let mut j: usize = 0;
        while j < nb
            invariant
                w == 256,
                h == 164,
                nb == boxes.len(),
                boxes == self.spec_boxes(),
                j <= nb,
                cover@.len() == w * h,
                forall|x: int, y: int|
                    0 <= x < 256 && 0 <= y < 164 ==> #[trigger] cover@[y * 256 + x]
                        == cover_count(boxes, x, y, j as int),
            decreases nb - j,
        {
            let b = self.island_boxes[j];
            let x0: usize = if b[0] < 0 {
                0
            } else {
                b[0] as usize
            };
            let y0: usize = if b[1] < 0 {
                0
            } else {
                b[1] as usize
            };
            let x1: usize = if b[2] < 0 {
                0
            } else if b[2] as usize > w {
                w
            } else {
                b[2] as usize
            };
            let y1: usize = if b[3] < 0 {
                0
            } else if b[3] as usize > h {
                h
            } else {
                b[3] as usize
            };
            assert(forall|x: int, y: int|
                box_covers(b, x, y) <==> (x0 <= x < x1 && y0 <= y < y1));
            let mut y = y0;
            while y < y1
                invariant
                    w == 256,
                    h == 164,
                    y1 <= 164,
                    x1 <= 256,
                    y0 <= y,
                    y <= y1 || y1 < y0,
                    y0 >= y1 ==> y == y0,
                    cover@.len() == w * h,
                    j < nb,
                    forall|x: int, yy: int|
                        0 <= x < 256 && 0 <= yy < 164 ==> #[trigger] cover@[yy * 256 + x]
                            == cover_count(boxes, x, yy, j as int) + if y0 <= yy < y && x0 <= x
                            < x1 {
                            1int
                        } else {
                            0int
                        },
                decreases y1 - y,
            {
                let mut x = x0;
                while x < x1
                    invariant
                        w == 256,
                        h == 164,
                        y < y1,
                        y1 <= 164,
                        x1 <= 256,
                        x0 <= x,
                        x <= x1 || x1 < x0,
                        x0 >= x1 ==> x == x0,
                        cover@.len() == w * h,
                        j < nb,
                        forall|xx: int, yy: int|
                            0 <= xx < 256 && 0 <= yy < 164 ==> #[trigger] cover@[yy * 256 + xx]
                                == cover_count(boxes, xx, yy, j as int) + if (y0 <= yy < y && x0
                                <= xx < x1) || (yy == y && x0 <= xx < x) {
                                1int
                            } else {
                                0int
                            },
                        decreases x1 - x,
                {
                    let qi = y * w + x;
                    proof {
                        lemma_cover_count_le(boxes, x as int, y as int, j as int);
                        assert(cover@[y * 256 + x] == cover_count(boxes, x as int, y as int, j as int));
                    }
                    let ghost old_cover = cover@;
                    cover.set(qi, cover[qi] + 1);
                    proof {
                        assert forall|xx: int, yy: int|
                            0 <= xx < 256 && 0 <= yy < 164 implies #[trigger] cover@[yy * 256 + xx]
                            == cover_count(boxes, xx, yy, j as int) + if (y0 <= yy < y && x0 <= xx
                            < x1) || (yy == y && x0 <= xx < x + 1) {
                            1int
                        } else {
                            0int
                        } by {
                            if yy * 256 + xx == qi {
                                assert(yy == y && xx == x);
                            } else {
                                assert(old_cover[yy * 256 + xx] == cover@[yy * 256 + xx]);
                            }
                        }
                    }
                    x = x + 1;
                }
                y = y + 1;
            }
            proof {
                assert forall|x: int, yy: int|
                    0 <= x < 256 && 0 <= yy < 164 implies #[trigger] cover@[yy * 256 + x]
                    == cover_count(boxes, x, yy, j + 1) by {
                    assert(cover_count(boxes, x, yy, j + 1) == cover_count(boxes, x, yy, j as int)
                        + if box_covers(boxes[j as int], x, yy) {
                        1nat
                    } else {
                        0nat
                    });
                }
            }
            j = j + 1;
        }
        let mut count: u64 = 0;
        let mut q: usize = 0;
        while q < w * h
            invariant
                w == 256,
                h == 164,
                q <= w * h,
                count <= q,
                cover@.len() == w * h,
                nb == boxes.len(),
                boxes == self.spec_boxes(),
                forall|x: int, y: int|
                    0 <= x < 256 && 0 <= y < 164 ==> #[trigger] cover@[y * 256 + x]
                        == cover_count(boxes, x, y, nb as int),
                count == overlap_upto(boxes, q as int),
            decreases w * h - q,
        {
            proof {
                vstd::arithmetic::div_mod::lemma_fundamental_div_mod(q as int, 256);
                let qx = (q as int) % 256;
                let qy = (q as int) / 256;
                assert(cover@[qy * 256 + qx] == cover_count(boxes, qx, qy, nb as int));
            }
            if cover[q] >= 2 {
                count = count + 1;
            }
            q = q + 1;
        }
        count
    }

}

/// Texel `k` of face `f` comes before position `k0` of face `f0`.
pub open spec fn seen(cs: Seq<Vec<[i32; 2]>>, f: int, k: int, f0: int, k0: int) -> bool {
    0 <= f < cs.len() && 0 <= k < cs[f]@.len() && (f < f0 || (f == f0 && k < k0))
}

/// `b` is the half-open box `[min u, min v, max u + 1, max v + 1]` of the
/// texels seen before `(f0, k0)`, or `[i32::MAX, i32::MAX, i32::MIN,
/// i32::MIN]` when there are none.
pub open spec fn box_upto(cs: Seq<Vec<[i32; 2]>>, b: [i32; 4], f0: int, k0: int) -> bool {
    &&& forall|f: int, k: int|
        #[trigger] seen(cs, f, k, f0, k0) ==> b[0] <= cs[f]@[k][0] && b[1] <= cs[f]@[k][1]
            && cs[f]@[k][0] < b[2] && cs[f]@[k][1] < b[3]
    &&& (exists|f: int, k: int| #[trigger] seen(cs, f, k, f0, k0)) ==> {
        &&& exists|f: int, k: int| #[trigger] seen(cs, f, k, f0, k0) && cs[f]@[k][0] == b[0]
        &&& exists|f: int, k: int| #[trigger] seen(cs, f, k, f0, k0) && cs[f]@[k][1] == b[1]
        &&& exists|f: int, k: int| #[trigger] seen(cs, f, k, f0, k0) && cs[f]@[k][0] + 1 == b[2]
        &&& exists|f: int, k: int| #[trigger] seen(cs, f, k, f0, k0) && cs[f]@[k][1] + 1 == b[3]
    }
    &&& !(exists|f: int, k: int| #[trigger] seen(cs, f, k, f0, k0)) ==> b[0] == i32::MAX && b[1]
        == i32::MAX && b[2] == i32::MIN && b[3] == i32::MIN
}

proof fn lemma_box_next_face(cs: Seq<Vec<[i32; 2]>>, b: [i32; 4], f: int)
    requires
        0 <= f < cs.len(),
        box_upto(cs, b, f, cs[f]@.len() as int),
    ensures
        box_upto(cs, b, f + 1, 0),
{
    let n = cs[f]@.len() as int;
    assert forall|a: int, c: int| #[trigger] seen(cs, a, c, f + 1, 0) implies b[0] <= cs[a]@[c][0]
        && b[1] <= cs[a]@[c][1] && cs[a]@[c][0] < b[2] && cs[a]@[c][1] < b[3] by {
        assert(seen(cs, a, c, f, n));
    }
    if exists|a: int, c: int| #[trigger] seen(cs, a, c, f + 1, 0) {
        let (a, c) = choose|a: int, c: int| #[trigger] seen(cs, a, c, f + 1, 0);
        assert(seen(cs, a, c, f, n));
        let (a0, c0) = choose|a: int, c: int| #[trigger] seen(cs, a, c, f, n) && cs[a]@[c][0] == b[0];
        let (a1, c1) = choose|a: int, c: int| #[trigger] seen(cs, a, c, f, n) && cs[a]@[c][1] == b[1];
        let (a2, c2) = choose|a: int, c: int| #[trigger] seen(cs, a, c, f, n) && cs[a]@[c][0] + 1 == b[2];
        let (a3, c3) = choose|a: int, c: int| #[trigger] seen(cs, a, c, f, n) && cs[a]@[c][1] + 1 == b[3];
        assert(seen(cs, a0, c0, f + 1, 0));
        assert(seen(cs, a1, c1, f + 1, 0));
        assert(seen(cs, a2, c2, f + 1, 0));
        assert(seen(cs, a3, c3, f + 1, 0));
    } else {
        assert forall|a: int, c: int| !#[trigger] seen(cs, a, c, f, n) by {
            if seen(cs, a, c, f, n) {
                assert(seen(cs, a, c, f + 1, 0));
            }
        }
    }
}

/// The texel box of an island's faces: `[min u, min v, max u + 1, max v + 1]`
/// over all their texels (`[i32::MAX, i32::MAX, i32::MIN, i32::MIN]` for
/// none).
pub fn texel_box(cs: &Vec<Vec<[i32; 2]>>) -> (b: [i32; 4])
    requires
        forall|f: int, k: int|
            0 <= f < cs@.len() && 0 <= k < cs@[f]@.len() ==> #[trigger] cs@[f]@[k][0] < i32::MAX
                && cs@[f]@[k][1] < i32::MAX,
    ensures
        box_upto(cs@, b, cs@.len() as int, 0),
{
    let mut x0: i32 = i32::MAX;
    let mut y0: i32 = i32::MAX;
    let mut x1: i32 = i32::MIN;
    let mut y1: i32 = i32::MIN;
    let mut f: usize = 0;
    while f < cs.len()
        invariant
            f <= cs@.len(),
            forall|a: int, k: int|
                0 <= a < cs@.len() && 0 <= k < cs@[a]@.len() ==> #[trigger] cs@[a]@[k][0] < i32::MAX
                    && cs@[a]@[k][1] < i32::MAX,
            box_upto(cs@, [x0, y0, x1, y1], f as int, 0),
        decreases cs@.len() - f,
    {
        let face = &cs[f];
        let mut k: usize = 0;
        while k < face.len()
            invariant
                f < cs@.len(),
                face@ == cs@[f as int]@,
                k <= face@.len(),
                forall|a: int, c: int|
                    0 <= a < cs@.len() && 0 <= c < cs@[a]@.len() ==> #[trigger] cs@[a]@[c][0] < i32::MAX
                        && cs@[a]@[c][1] < i32::MAX,
                box_upto(cs@, [x0, y0, x1, y1], f as int, k as int),
            decreases face@.len() - k,
        {
            let t = face[k];
            let ghost old_b = [x0, y0, x1, y1];
            assert(cs@[f as int]@[k as int] == t);
            assert(t[0] < i32::MAX && t[1] < i32::MAX);
            if t[0] < x0 {
                x0 = t[0];
            }
            if t[1] < y0 {
                y0 = t[1];
            }
            if t[0] + 1 > x1 {
                x1 = t[0] + 1;
            }
            if t[1] + 1 > y1 {
                y1 = t[1] + 1;
            }
            proof {
                let fi = f as int;
                let ki = k as int;
                let b = [x0, y0, x1, y1];
                assert(seen(cs@, fi, ki, fi, ki + 1));
                assert forall|a: int, c: int| #[trigger] seen(cs@, a, c, fi, ki + 1) implies b[0]
                    <= cs@[a]@[c][0] && b[1] <= cs@[a]@[c][1] && cs@[a]@[c][0] < b[2]
                    && cs@[a]@[c][1] < b[3] by {
                    if !(a == fi && c == ki) {
                        assert(seen(cs@, a, c, fi, ki));
                    }
                }
                if exists|a: int, c: int| #[trigger] seen(cs@, a, c, fi, ki) {
                    let (a0, c0) = choose|a: int, c: int| #[trigger] seen(cs@, a, c, fi, ki) && cs@[a]@[c][0] == old_b[0];
                    let (a1, c1) = choose|a: int, c: int| #[trigger] seen(cs@, a, c, fi, ki) && cs@[a]@[c][1] == old_b[1];
                    let (a2, c2) = choose|a: int, c: int| #[trigger] seen(cs@, a, c, fi, ki) && cs@[a]@[c][0] + 1 == old_b[2];
                    let (a3, c3) = choose|a: int, c: int| #[trigger] seen(cs@, a, c, fi, ki) && cs@[a]@[c][1] + 1 == old_b[3];
                    assert(seen(cs@, a0, c0, fi, ki + 1));
                    assert(seen(cs@, a1, c1, fi, ki + 1));
                    assert(seen(cs@, a2, c2, fi, ki + 1));
                    assert(seen(cs@, a3, c3, fi, ki + 1));
                }
            }
            k = k + 1;
        }
        proof {
            lemma_box_next_face(cs@, [x0, y0, x1, y1], f as int);
        }
        f = f + 1;
    }
    [x0, y0, x1, y1]
}

/// The first position of `p` in `s` at or after `j`.
pub open spec fn first_pos(s: Seq<usize>, p: usize, j: int) -> Option<int>
    decreases s.len() - j,
{
    if j < 0 || j >= s.len() {
        None
    } else if s[j] == p {
        Some(j)
    } else {
        first_pos(s, p, j + 1)
    }
}

/// The first position of `p` in `s`.
pub(crate) fn find_first(s: &Vec<usize>, p: usize) -> (r: Option<usize>)
    ensures
        match r {
            Some(j) => first_pos(s@, p, 0) == Some(j as int),
            None => first_pos(s@, p, 0) is None,
        },
{
    let mut j: usize = 0;
    while j < s.len()
        invariant
            j <= s@.len(),
            first_pos(s@, p, 0) == first_pos(s@, p, j as int),
        decreases s@.len() - j,
    {
        if s[j] == p {
            return Some(j);
        }
        j = j + 1;
    }
    None
}

pub(crate) proof fn lemma_first_pos_contains(s: Seq<usize>, p: usize, j: int)
    requires
        0 <= j,
    ensures
        first_pos(s, p, j) matches Some(i) ==> j <= i < s.len() && s[i] == p && forall|m: int|
            j <= m < i ==> s[m] != p,
        first_pos(s, p, j) is None ==> forall|i: int| j <= i < s.len() ==> s[i] != p,
    decreases s.len() - j,
{
    if j < s.len() && s[j] != p {
        lemma_first_pos_contains(s, p, j + 1);
    }
}

/// The points that both faces use.
pub open spec fn shared_set(a: Seq<usize>, b: Seq<usize>) -> Set<usize> {
    Set::new(|p: usize| a.contains(p) && b.contains(p))
}

/// Among the first `k` entries of `a`, the number of distinct points that
/// `b` also contains.
spec fn common_upto(a: Seq<usize>, b: Seq<usize>, k: int) -> nat
    decreases k,
{
    if k <= 0 {
        0
    } else {
        common_upto(a, b, k - 1) + if first_pos(a, a[k - 1], 0) == Some(k - 1) && b.contains(
            a[k - 1],
        ) {
            1nat
        } else {
            0nat
        }
    }
}

/// The points among `a[..k]` that `b` also uses.
spec fn common_set(a: Seq<usize>, b: Seq<usize>, k: int) -> Set<usize> {
    Set::new(|p: usize| exists|i: int| 0 <= i < k && a[i] == p && b.contains(p))
}

proof fn lemma_common_set(a: Seq<usize>, b: Seq<usize>, k: int)
    requires
        0 <= k <= a.len(),
    ensures
        common_set(a, b, k).finite(),
        common_set(a, b, k).len() == common_upto(a, b, k),
    decreases k,
{
    if k == 0 {
        assert(common_set(a, b, 0) =~= Set::empty());
    } else {
        lemma_common_set(a, b, k - 1);
        let x = a[k - 1];
        let prev = common_set(a, b, k - 1);
        let cur = common_set(a, b, k);
        lemma_first_pos_contains(a, x, 0);
        if b.contains(x) {
            if first_pos(a, x, 0) == Some(k - 1) {
                assert(!prev.contains(x));
                assert(cur =~= prev.insert(x));
            } else {
                let i = first_pos(a, x, 0)->0;
                assert(i < k - 1);
                assert(prev.contains(x));
                assert(cur =~= prev);
            }
        } else {
            assert(cur =~= prev);
        }
    }
}

/// Number of point indices the two faces share (set semantics: each shared
/// point counts once, however often either face repeats it).
pub fn shared_count(a: &FaceModel, b: &FaceModel) -> (r: usize)
    ensures
        shared_set(a.point_indices@, b.point_indices@).finite(),
        r == shared_set(a.point_indices@, b.point_indices@).len(),
{
    let ghost pa = a.point_indices@;
    let ghost pb = b.point_indices@;
    let mut m: usize = 0;
    let mut k: usize = 0;
    while k < a.point_indices.len()
        invariant
            pa == a.point_indices@,
            pb == b.point_indices@,
            k <= pa.len(),
            m <= k,
            m == common_upto(pa, pb, k as int),
        decreases pa.len() - k,
    {
        let p = a.point_indices[k];
        let fa = find_first(&a.point_indices, p);
        let fb = find_first(&b.point_indices, p);
        proof {
            lemma_first_pos_contains(pb, p, 0);
            if fb is Some {
                assert(pb[fb->0 as int] == p);
            }
        }
        if fa == Some(k) && fb.is_some() {
            m = m + 1;
        }
        k = k + 1;
    }
    proof {
        lemma_common_set(pa, pb, pa.len() as int);
        assert(common_set(pa, pb, pa.len() as int) =~= shared_set(pa, pb));
    }
    m
}

/// A group of connected, near-coplanar faces (positions into the models slice).
pub struct Island {
    pub face_pos: Vec<usize>,
}

/// `par` is a forest over `0..par.len()`: `r[i]` is the root reached from
/// `i` and `d[i]` the number of steps to it.
pub open spec fn forest_ok(par: Seq<usize>, r: Seq<int>, d: Seq<nat>) -> bool {
    let n = par.len();
    &&& r.len() == n
    &&& d.len() == n
    &&& forall|i: int| 0 <= i < n ==> (#[trigger] par[i]) < n
    &&& forall|i: int|
        0 <= i < n ==> 0 <= #[trigger] r[i] < n && par[r[i]] == r[i] && r[r[i]] == r[i]
    &&& forall|i: int| 0 <= i < n ==> (par[i] == i <==> #[trigger] d[i] == 0)
    &&& forall|i: int| 0 <= i < n && par[i] == i ==> #[trigger] r[i] == i
    &&& forall|i: int|
        0 <= i < n && #[trigger] par[i] != i ==> d[par[i] as int] < d[i] && r[par[i] as int] == r[i]
}

proof fn lemma_halve(par: Seq<usize>, r: Seq<int>, d: Seq<nat>, x: int)
    requires
        forest_ok(par, r, d),
        0 <= x < par.len(),
        par[x] != x,
    ensures
        ({
            let gp = par[par[x] as int];
            &&& forest_ok(par.update(x, gp), r, d)
            &&& d[gp as int] < d[x]
            &&& r[gp as int] == r[x]
            &&& gp < par.len()
        }),
{
    let n = par.len() as int;
    let p = par[x] as int;
    let gp = par[p];
    assert(d[p] < d[x]);
    if par[p] != p {
        assert(d[gp as int] < d[p]);
    }
    let par2 = par.update(x, gp);
    assert forall|i: int| 0 <= i < n implies (#[trigger] par2[i]) < n by {
        if i != x {
            assert(par2[i] == par[i]);
        }
    }
    assert forall|i: int| 0 <= i < n implies 0 <= #[trigger] r[i] < n && par2[r[i]] == r[i] && r[r[i]]
        == r[i] by {
        assert(par[r[i]] == r[i]);
    }
    assert forall|i: int| 0 <= i < n implies (par2[i] == i <==> #[trigger] d[i] == 0) by {
        if i != x {
            assert(par2[i] == par[i]);
        }
    }
    assert forall|i: int| 0 <= i < n && par2[i] == i implies #[trigger] r[i] == i by {
        if i != x {
            assert(par2[i] == par[i]);
        }
    }
    assert forall|i: int| 0 <= i < n && #[trigger] par2[i] != i implies d[par2[i] as int] < d[i]
        && r[par2[i] as int] == r[i] by {
        if i != x {
            assert(par2[i] == par[i]);
        }
    }
}

/// Roots after hanging root `ra` under root `rb`.
pub open spec fn link_roots(r: Seq<int>, ra: int, rb: int) -> Seq<int> {
    Seq::new(r.len(), |i: int| if r[i] == ra { rb } else { r[i] })
}

/// Depths after hanging root `ra` under another root.
pub open spec fn link_depth(r: Seq<int>, d: Seq<nat>, ra: int) -> Seq<nat> {
    Seq::new(d.len(), |i: int| if r[i] == ra { d[i] + 1 } else { d[i] })
}

proof fn lemma_link(par0: Seq<usize>, r0: Seq<int>, d0: Seq<nat>, ra: int, rb: int)
    requires
        forest_ok(par0, r0, d0),
        0 <= ra < par0.len(),
        0 <= rb < par0.len(),
        par0[ra] == ra,
        par0[rb] == rb,
        ra != rb,
    ensures
        forest_ok(par0.update(ra, rb as usize), link_roots(r0, ra, rb), link_depth(r0, d0, ra)),
{
    let n = par0.len() as int;
    let par = par0.update(ra, rb as usize);
    let r = link_roots(r0, ra, rb);
    let d = link_depth(r0, d0, ra);
    assert(r0[ra] == ra && r0[rb] == rb);
    assert forall|i: int| 0 <= i < n implies (#[trigger] par[i]) < n by {
        if i != ra {
            assert(par[i] == par0[i]);
        }
    }
    assert forall|i: int| 0 <= i < n implies 0 <= #[trigger] r[i] < n && par[r[i]] == r[i] && r[r[i]]
        == r[i] by {
        if r0[i] != ra {
            assert(par0[r0[i]] == r0[i]);
            assert(r0[r0[i]] == r0[i]);
        }
    }
    assert forall|i: int| 0 <= i < n implies (par[i] == i <==> #[trigger] d[i] == 0) by {
        if i != ra {
            assert(par[i] == par0[i]);
            if par0[i] == i {
                assert(r0[i] == i);
            } else {
                assert(d0[i] != 0);
            }
        }
    }
    assert forall|i: int| 0 <= i < n && par[i] == i implies #[trigger] r[i] == i by {
        if i != ra {
            assert(par[i] == par0[i]);
            assert(r0[i] == i);
        }
    }
    assert forall|i: int| 0 <= i < n && #[trigger] par[i] != i implies d[par[i] as int] < d[i]
        && r[par[i] as int] == r[i] by {
        if i == ra {
            assert(d[rb] == 0);
        } else {
            assert(par[i] == par0[i]);
            assert(d0[par0[i] as int] < d0[i] && r0[par0[i] as int] == r0[i]);
        }
    }
}

/// Simple union-find over `0..n` (path halving on `find`).
pub struct UnionFind {
    parent: Vec<usize>,
    /// The representative of each element's class.
    roots: Ghost<Seq<int>>,
    /// Number of parent steps from each element to its representative.
    depth: Ghost<Seq<nat>>,
}

impl UnionFind {
    /// Number of elements.
    pub closed spec fn size(&self) -> nat {
        self.parent@.len()
    }

    /// The representative of each element's class; two elements are in one
    /// class iff their representatives are equal.
    pub closed spec fn classes(&self) -> Seq<int> {
        self.roots@
    }

    /// The parent links form trees whose roots are the representatives.
    pub closed spec fn wf(&self) -> bool {
        forest_ok(self.parent@, self.roots@, self.depth@)
    }

    /// Every representative is an element, and represents itself.
    pub proof fn lemma_classes(&self)
        requires
            self.wf(),
        ensures
            forall|i: int|
                0 <= i < self.size() ==> 0 <= #[trigger] self.classes()[i] < self.size()
                    && self.classes()[self.classes()[i]] == self.classes()[i],
    {
    }

    /// `n` singleton classes.
    pub fn new(n: usize) -> (uf: Self)
        ensures
            uf.wf(),
            uf.size() == n,
            forall|i: int| 0 <= i < n ==> #[trigger] uf.classes()[i] == i,
    {
        let mut parent: Vec<usize> = Vec::new();
        let mut i: usize = 0;
        while i < n
            invariant
                i <= n,
                parent@.len() == i,
                forall|j: int| 0 <= j < i ==> #[trigger] parent@[j] == j,
            decreases n - i,
        {
            parent.push(i);
            i = i + 1;
        }
        UnionFind {
            parent,
            roots: Ghost(Seq::new(n as nat, |j: int| j)),
            depth: Ghost(Seq::new(n as nat, |j: int| 0nat)),
        }
    }

    /// Representative of `x`'s class; halves the path walked.
    pub fn find(&mut self, x: usize) -> (r: usize)
        requires
            old(self).wf(),
            x < old(self).size(),
        ensures
            final(self).wf(),
            final(self).size() == old(self).size(),
            final(self).classes() == old(self).classes(),
            r == old(self).classes()[x as int],
    {
        let ghost target = self.roots@[x as int];
        let ghost n = self.parent@.len();
        let mut x = x;
        while self.parent[x] != x
            invariant
                self.wf(),
                self.parent@.len() == n,
                self.roots@ == old(self).roots@,
                x < n,
                self.roots@[x as int] == target,
            decreases self.depth@[x as int],
        {
            let p = self.parent[x];
            let gp = self.parent[p];
            proof {
                lemma_halve(self.parent@, self.roots@, self.depth@, x as int);
            }
            self.parent.set(x, gp);
            x = gp;
        }
        x
    }

    /// Merge the classes of `a` and `b`; the merged class keeps `b`'s
    /// representative.
    #[verifier::spinoff_prover]
    #[verifier::rlimit(40)]
    pub fn union(&mut self, a: usize, b: usize)
        requires
            old(self).wf(),
            a < old(self).size(),
            b < old(self).size(),
        ensures
            final(self).wf(),
            final(self).size() == old(self).size(),
            forall|i: int|
                0 <= i < old(self).size() ==> #[trigger] final(self).classes()[i] == if old(
                    self,
                ).classes()[i] == old(self).classes()[a as int] {
                    old(self).classes()[b as int]
                } else {
                    old(self).classes()[i]
                },
    {
        let ra = self.find(a);
        let rb = self.find(b);
        if ra != rb {
            let ghost r0 = self.roots@;
            let ghost d0 = self.depth@;
            proof {
                lemma_link(self.parent@, r0, d0, ra as int, rb as int);
            }
            self.parent.set(ra, rb);
            self.roots = Ghost(link_roots(r0, ra as int, rb as int));
            self.depth = Ghost(link_depth(r0, d0, ra as int));
            assert(self.wf());
        }
    }
}

/// Link `l` joins positions `a` and `b` (either way round).
pub open spec fn joins(l: (usize, usize), a: int, b: int) -> bool {
    (l.0 == a && l.1 == b) || (l.0 == b && l.1 == a)
}

/// Some link of `links` joins `a` and `b`.
pub open spec fn linked(links: Seq<(usize, usize)>, a: int, b: int) -> bool {
    exists|k: int| 0 <= k < links.len() && #[trigger] joins(links[k], a, b)
}

/// Step `t` of the walk `p` follows a link.
pub open spec fn step(links: Seq<(usize, usize)>, p: Seq<int>, t: int) -> bool {
    linked(links, p[t], p[t + 1])
}

/// `p` is a walk along links: each position is linked to the next.
pub open spec fn is_walk(links: Seq<(usize, usize)>, p: Seq<int>) -> bool {
    &&& p.len() >= 1
    &&& forall|t: int| 0 <= t < p.len() - 1 ==> #[trigger] step(links, p, t)
}

/// A walk along `links` leads from `a` to `b`.
pub open spec fn connected(links: Seq<(usize, usize)>, a: int, b: int) -> bool {
    exists|p: Seq<int>| #[trigger] is_walk(links, p) && p[0] == a && p.last() == b
}

proof fn lemma_connected_refl(links: Seq<(usize, usize)>, a: int)
    ensures
        connected(links, a, a),
{
    let p = seq![a];
    assert(is_walk(links, p));
}

proof fn lemma_connected_link(links: Seq<(usize, usize)>, a: int, b: int)
    requires
        linked(links, a, b),
    ensures
        connected(links, a, b),
{
    let p = seq![a, b];
    assert(step(links, p, 0));
    assert(is_walk(links, p));
}

proof fn lemma_connected_sym(links: Seq<(usize, usize)>, a: int, b: int)
    requires
        connected(links, a, b),
    ensures
        connected(links, b, a),
{
    let p = choose|p: Seq<int>| #[trigger] is_walk(links, p) && p[0] == a && p.last() == b;
    let n = p.len() as int;
    let q = Seq::new(n as nat, |t: int| p[n - 1 - t]);
    assert forall|t: int| 0 <= t < q.len() - 1 implies #[trigger] step(links, q, t) by {
        assert(step(links, p, n - 2 - t));
        let k = choose|k: int| 0 <= k < links.len() && #[trigger] joins(links[k], p[n - 2 - t], p[n - 1 - t]);
        assert(joins(links[k], q[t], q[t + 1]));
    }
    assert(is_walk(links, q));
}

proof fn lemma_connected_trans(links: Seq<(usize, usize)>, a: int, b: int, c: int)
    requires
        connected(links, a, b),
        connected(links, b, c),
    ensures
        connected(links, a, c),
{
    let p = choose|p: Seq<int>| #[trigger] is_walk(links, p) && p[0] == a && p.last() == b;
    let q = choose|q: Seq<int>| #[trigger] is_walk(links, q) && q[0] == b && q.last() == c;
    let w = p + q.subrange(1, q.len() as int);
    let np = p.len() as int;
    assert forall|t: int| 0 <= t < w.len() - 1 implies #[trigger] step(links, w, t) by {
        if t < np - 1 {
            assert(step(links, p, t));
            assert(w[t] == p[t] && w[t + 1] == p[t + 1]);
        } else {
            assert(step(links, q, t - np + 1));
            assert(w[t] == q[t - np + 1]);
            assert(w[t + 1] == q[t - np + 2]);
        }
    }
    assert(is_walk(links, w));
    if q.len() == 1 {
        assert(w.last() == p.last());
    } else {
        assert(w.last() == q.last());
    }
}

/// Along a walk, class representatives stay equal when every link joins
/// two elements of one class.
proof fn lemma_walk_same_class(links: Seq<(usize, usize)>, c: Seq<int>, p: Seq<int>)
    requires
        is_walk(links, p),
        forall|m: int| 0 <= m < links.len() ==> c[#[trigger] links[m].0 as int] == c[links[m].1 as int],
    ensures
        c[p[0]] == c[p.last()],
    decreases p.len(),
{
    if p.len() > 1 {
        let q = p.drop_last();
        assert forall|t: int| 0 <= t < q.len() - 1 implies #[trigger] step(links, q, t) by {
            assert(step(links, p, t));
        }
        lemma_walk_same_class(links, c, q);
        let t = p.len() - 2;
        assert(step(links, p, t));
        let k = choose|k: int| 0 <= k < links.len() && #[trigger] joins(links[k], p[t], p[t + 1]);
        assert(c[links[k].0 as int] == c[links[k].1 as int]);
    }
}

proof fn lemma_union_step(
    links: Seq<(usize, usize)>,
    c: Seq<int>,
    c2: Seq<int>,
    a: int,
    b: int,
    n: int,
    k: int,
)
    requires
        0 <= a < n,
        0 <= b < n,
        0 <= k < links.len(),
        links[k].0 == a,
        links[k].1 == b,
        forall|m: int| 0 <= m < links.len() ==> (#[trigger] links[m]).0 < n && links[m].1 < n,
        forall|i: int|
            0 <= i < n ==> #[trigger] c2[i] == if c[i] == c[a] {
                c[b]
            } else {
                c[i]
            },
        forall|i: int, j: int|
            0 <= i < n && 0 <= j < n && #[trigger] c[i] == #[trigger] c[j] ==> connected(links, i, j),
        forall|m: int| 0 <= m < k ==> c[#[trigger] links[m].0 as int] == c[links[m].1 as int],
    ensures
        forall|i: int, j: int|
            0 <= i < n && 0 <= j < n && #[trigger] c2[i] == #[trigger] c2[j] ==> connected(links, i, j),
        forall|m: int| 0 <= m < k + 1 ==> c2[#[trigger] links[m].0 as int] == c2[links[m].1 as int],
{
    assert(joins(links[k], a, b));
    assert(linked(links, a, b));
    lemma_connected_link(links, a, b);
    lemma_connected_sym(links, a, b);
    assert forall|i: int, j: int|
        0 <= i < n && 0 <= j < n && #[trigger] c2[i] == #[trigger] c2[j] implies connected(
        links,
        i,
        j,
    ) by {
        if c[i] == c[a] && c[j] != c[a] {
            assert(c[b] == c[j]);
            assert(connected(links, i, a));
            assert(connected(links, b, j));
            lemma_connected_trans(links, i, a, b);
            lemma_connected_trans(links, i, b, j);
        } else if c[i] != c[a] && c[j] == c[a] {
            assert(c[b] == c[i]);
            assert(connected(links, i, b));
            assert(connected(links, a, j));
            lemma_connected_trans(links, i, b, a);
            lemma_connected_trans(links, i, a, j);
        } else {
            assert(c[i] == c[j]);
        }
    }
    assert forall|m: int| 0 <= m < k + 1 implies c2[#[trigger] links[m].0 as int] == c2[links[m].1
        as int] by {
        let l = links[m];
        assert(c2[l.0 as int] == if c[l.0 as int] == c[a] {
            c[b]
        } else {
            c[l.0 as int]
        });
        assert(c2[l.1 as int] == if c[l.1 as int] == c[a] {
            c[b]
        } else {
            c[l.1 as int]
        });
        assert(c2[b] == c[b]);
        assert(c2[a] == c[b]);
    }
}

/// Positions of island `j`.
pub open spec fn members(islands: Seq<Island>, j: int) -> Seq<usize> {
    islands[j].face_pos@
}

/// `v` occurs in `s`.
pub open spec fn listed(s: Seq<usize>, v: int) -> bool {
    exists|j: int| 0 <= j < s.len() && #[trigger] s[j] == v
}

/// Position `i` is listed in some island.
pub open spec fn covered(islands: Seq<Island>, i: int) -> bool {
    exists|j: int, t: int|
        0 <= j < islands.len() && 0 <= t < members(islands, j).len() && #[trigger] members(islands, j)[t]
            == i
}

/// Group positions `0..n` into islands: the classes of the smallest
/// equivalence that makes every link's two ends equivalent. Each island
/// lists its positions in increasing order; islands are ordered by their
/// first position.
pub fn group_islands(n: usize, links: &[(usize, usize)]) -> (r: Vec<Island>)
    requires
        forall|m: int| 0 <= m < links@.len() ==> (#[trigger] links@[m]).0 < n && links@[m].1 < n,
    ensures
        forall|j: int| 0 <= j < r@.len() ==> #[trigger] members(r@, j).len() > 0,
        forall|j: int, t1: int, t2: int|
            0 <= j < r@.len() && 0 <= t1 < t2 < members(r@, j).len() ==> #[trigger] members(r@, j)[t1]
                < #[trigger] members(r@, j)[t2],
        forall|j: int, t: int|
            0 <= j < r@.len() && 0 <= t < members(r@, j).len() ==> #[trigger] members(r@, j)[t] < n,
        forall|j1: int, j2: int|
            0 <= j1 < j2 < r@.len() ==> #[trigger] members(r@, j1)[0] < #[trigger] members(r@, j2)[0],
        forall|i: int| 0 <= i < n ==> #[trigger] covered(r@, i),
        forall|j1: int, t1: int, j2: int, t2: int|
            0 <= j1 < r@.len() && 0 <= t1 < members(r@, j1).len() && 0 <= j2 < r@.len() && 0 <= t2
                < members(r@, j2).len() ==> (connected(
                links@,
                #[trigger] members(r@, j1)[t1] as int,
                #[trigger] members(r@, j2)[t2] as int,
            ) <==> j1 == j2),
{
    let mut uf = UnionFind::new(n);
    proof {
        assert forall|i: int, j: int|
            0 <= i < n && 0 <= j < n && #[trigger] uf.classes()[i] == #[trigger] uf.classes()[j]
                implies connected(links@, i, j) by {
            lemma_connected_refl(links@, i);
        }
    }
    let mut k: usize = 0;
    while k < links.len()
        invariant
            k <= links@.len(),
            uf.wf(),
            uf.size() == n,
            forall|m: int| 0 <= m < links@.len() ==> (#[trigger] links@[m]).0 < n && links@[m].1 < n,
            forall|i: int, j: int|
                0 <= i < n && 0 <= j < n && #[trigger] uf.classes()[i] == #[trigger] uf.classes()[j]
                    ==> connected(links@, i, j),
            forall|m: int|
                0 <= m < k ==> uf.classes()[#[trigger] links@[m].0 as int] == uf.classes()[links@[m].1 as int],
        decreases links@.len() - k,
    {
        let (a, b) = links[k];
        let ghost c = uf.classes();
        uf.union(a, b);
        proof {
            lemma_union_step(links@, c, uf.classes(), a as int, b as int, n as int, k as int);
        }
        k = k + 1;
    }
    let ghost c = uf.classes();
    proof {
        assert forall|i: int, j: int|
            0 <= i < n && 0 <= j < n && connected(links@, i, j) implies c[i] == c[j] by {
            let p = choose|p: Seq<int>| #[trigger] is_walk(links@, p) && p[0] == i && p.last() == j;
            lemma_walk_same_class(links@, c, p);
        }
    }
    // Representative of every position.
    let mut rts: Vec<usize> = Vec::new();
    let mut i: usize = 0;
    while i < n
        invariant
            i <= n,
            uf.wf(),
            uf.size() == n,
            uf.classes() == c,
            rts@.len() == i,
            forall|t: int| 0 <= t < i ==> #[trigger] rts@[t] == c[t],
        decreases n - i,
    {
        let r = uf.find(i);
        rts.push(r);
        i = i + 1;
    }
    // Representatives in order of first appearance.
    let mut seen: Vec<bool> = Vec::new();
    let mut z: usize = 0;
    while z < n
        invariant
            z <= n,
            seen@.len() == z,
            forall|v: int| 0 <= v < z ==> !#[trigger] seen@[v],
        decreases n - z,
    {
        seen.push(false);
        z = z + 1;
    }
    let mut firsts: Vec<usize> = Vec::new();
    let ghost mut fidx: Seq<int> = Seq::empty();
    let mut i: usize = 0;
    while i < n
        invariant
            i <= n,
            uf.wf(),
            uf.size() == n,
            uf.classes() == c,
            rts@.len() == n,
            forall|t: int| 0 <= t < n ==> #[trigger] rts@[t] == c[t],
            seen@.len() == n,
            fidx.len() == firsts@.len(),
            forall|v: int| 0 <= v < n ==> (#[trigger] seen@[v] <==> listed(firsts@, v)),
            forall|j: int|
                0 <= j < firsts@.len() ==> 0 <= #[trigger] fidx[j] < i && c[fidx[j]] == firsts@[j]
                    && firsts@[j] < n,
            forall|j: int, t: int|
                0 <= j < firsts@.len() && 0 <= t < fidx[j] ==> #[trigger] c[t] != #[trigger] firsts@[j],
            forall|j1: int, j2: int|
                0 <= j1 < j2 < firsts@.len() ==> #[trigger] fidx[j1] < #[trigger] fidx[j2],
            forall|j1: int, j2: int|
                0 <= j1 < j2 < firsts@.len() ==> #[trigger] firsts@[j1] != #[trigger] firsts@[j2],
            forall|t: int| 0 <= t < i ==> listed(firsts@, #[trigger] c[t]),
        decreases n - i,
    {
        let r = rts[i];
        proof {
            assert(rts@[i as int] == c[i as int]);
            assert(uf.wf());
        }
        proof {
            uf.lemma_classes();
            assert(0 <= c[i as int] < n);
        }
        if !seen[r] {
            let ghost f0 = firsts@;
            proof {
                assert forall|j: int| 0 <= j < f0.len() implies #[trigger] f0[j] != r by {
                    if f0[j] == r {
                        assert(seen@[r as int]);
                    }
                }
            }
            firsts.push(r);
            seen.set(r, true);
            proof {
                fidx = fidx.push(i as int);
                assert forall|j: int, t: int|
                    0 <= j < firsts@.len() && 0 <= t < fidx[j] implies #[trigger] c[t] != #[trigger] firsts@[j] by {
                    if j == f0.len() {
                        assert forall|tt: int| 0 <= tt < i implies c[tt] != r by {
                            let jj = choose|jj: int| 0 <= jj < f0.len() && #[trigger] f0[jj] == c[tt];
                            assert(f0[jj] == firsts@[jj]);
                        }
                    }
                }
                assert forall|v: int| 0 <= v < n implies (#[trigger] seen@[v] <==> listed(firsts@, v)) by {
                    if v == r {
                        assert(firsts@[f0.len() as int] == v);
                    } else {
                        if seen@[v] {
                            let j = choose|j: int| 0 <= j < f0.len() && #[trigger] f0[j] == v;
                            assert(firsts@[j] == v);
                        }
                        if listed(firsts@, v) {
                            let j = choose|j: int| 0 <= j < firsts@.len() && #[trigger] firsts@[j] == v;
                            assert(f0[j] == v);
                        }
                    }
                }
                assert forall|t: int| 0 <= t < i + 1 implies listed(firsts@, #[trigger] c[t]) by {
                    if t == i {
                        assert(firsts@[f0.len() as int] == c[t]);
                    } else {
                        let j = choose|j: int| 0 <= j < f0.len() && #[trigger] f0[j] == c[t];
                        assert(firsts@[j] == c[t]);
                    }
                }
            }
        } else {
            proof {
                let j = choose|j: int| 0 <= j < firsts@.len() && #[trigger] firsts@[j] == r;
                assert(firsts@[j] == c[i as int]);
            }
        }
        i = i + 1;
    }
    // One island per representative, positions in increasing order.
    let mut out: Vec<Island> = Vec::new();
    let mut j: usize = 0;
    while j < firsts.len()
        invariant
            j <= firsts@.len(),
            out@.len() == j,
            rts@.len() == n,
            forall|t: int| 0 <= t < n ==> #[trigger] rts@[t] == c[t],
            fidx.len() == firsts@.len(),
            forall|jj: int|
                0 <= jj < firsts@.len() ==> 0 <= #[trigger] fidx[jj] < n && c[fidx[jj]] == firsts@[jj],
            forall|jj: int, t: int|
                0 <= jj < firsts@.len() && 0 <= t < fidx[jj] ==> #[trigger] c[t] != #[trigger] firsts@[jj],
            forall|jj: int|
                0 <= jj < j ==> #[trigger] members(out@, jj).len() > 0 && members(out@, jj)[0]
                    == fidx[jj],
            forall|jj: int, t1: int, t2: int|
                0 <= jj < j && 0 <= t1 < t2 < members(out@, jj).len() ==> #[trigger] members(
                    out@,
                    jj,
                )[t1] < #[trigger] members(out@, jj)[t2],
            forall|jj: int, t: int|
                0 <= jj < j && 0 <= t < members(out@, jj).len() ==> #[trigger] members(out@, jj)[t]
                    < n && c[members(out@, jj)[t] as int] == firsts@[jj],
            forall|jj: int, x: int|
                0 <= jj < j && 0 <= x < n && #[trigger] c[x] == #[trigger] firsts@[jj] ==> exists|t: int|
                    0 <= t < members(out@, jj).len() && #[trigger] members(out@, jj)[t] == x,
        decreases firsts@.len() - j,
    {
        let r = firsts[j];
        let mut pos: Vec<usize> = Vec::new();
        let mut i: usize = 0;
        while i < n
            invariant
                i <= n,
                j < firsts@.len(),
                r == firsts@[j as int],
                rts@.len() == n,
                forall|t: int| 0 <= t < n ==> #[trigger] rts@[t] == c[t],
                0 <= fidx[j as int] < n,
                c[fidx[j as int]] == r,
                forall|t: int| 0 <= t < fidx[j as int] ==> c[t] != r,
                pos@.len() > 0 <==> i > fidx[j as int],
                pos@.len() > 0 ==> pos@[0] == fidx[j as int],
                forall|t1: int, t2: int| 0 <= t1 < t2 < pos@.len() ==> #[trigger] pos@[t1] < #[trigger] pos@[t2],
                forall|t: int| 0 <= t < pos@.len() ==> #[trigger] pos@[t] < i && c[pos@[t] as int] == r,
                forall|x: int| 0 <= x < i && #[trigger] c[x] == r ==> exists|t: int|
                    0 <= t < pos@.len() && #[trigger] pos@[t] == x,
            decreases n - i,
        {
            if rts[i] == r {
                let ghost p0 = pos@;
                pos.push(i);
                proof {
                    assert forall|x: int| 0 <= x < i + 1 && #[trigger] c[x] == r implies exists|t: int|
                        0 <= t < pos@.len() && #[trigger] pos@[t] == x by {
                        if x == i {
                            assert(pos@[p0.len() as int] == x);
                        } else {
                            let t = choose|t: int| 0 <= t < p0.len() && #[trigger] p0[t] == x;
                            assert(pos@[t] == x);
                        }
                    }
                    if p0.len() == 0 {
                        assert(c[i as int] == r);
                        assert(i as int >= fidx[j as int]);
                    }
                }
            } else {
                proof {
                    assert(c[i as int] != r);
                    if i as int == fidx[j as int] {
                        assert(false);
                    }
                }
            }
            i = i + 1;
        }
        let ghost o0 = out@;
        out.push(Island { face_pos: pos });
        proof {
            assert(members(out@, j as int) == pos@);
            assert forall|jj: int| 0 <= jj < j + 1 implies #[trigger] members(out@, jj).len() > 0
                && members(out@, jj)[0] == fidx[jj] by {
                if jj < j {
                    assert(members(out@, jj) == members(o0, jj));
                }
            }
            assert forall|jj: int, t1: int, t2: int|
                0 <= jj < j + 1 && 0 <= t1 < t2 < members(out@, jj).len() implies #[trigger] members(
                out@,
                jj,
            )[t1] < #[trigger] members(out@, jj)[t2] by {
                if jj < j {
                    assert(members(out@, jj) == members(o0, jj));
                }
            }
            assert forall|jj: int, t: int|
                0 <= jj < j + 1 && 0 <= t < members(out@, jj).len() implies #[trigger] members(
                out@,
                jj,
            )[t] < n && c[members(out@, jj)[t] as int] == firsts@[jj] by {
                if jj < j {
                    assert(members(out@, jj) == members(o0, jj));
                }
            }
            assert forall|jj: int, x: int|
                0 <= jj < j + 1 && 0 <= x < n && #[trigger] c[x] == #[trigger] firsts@[jj] implies exists|t: int|
                0 <= t < members(out@, jj).len() && #[trigger] members(out@, jj)[t] == x by {
                if jj < j {
                    assert(members(out@, jj) == members(o0, jj));
                    let t = choose|t: int| 0 <= t < members(o0, jj).len() && #[trigger] members(o0, jj)[t] == x;
                    assert(members(out@, jj)[t] == x);
                } else {
                    let t = choose|t: int| 0 <= t < pos@.len() && #[trigger] pos@[t] == x;
                    assert(members(out@, jj)[t] == x);
                }
            }
        }
        j = j + 1;
    }
    proof {
        assert forall|i: int| 0 <= i < n implies #[trigger] covered(out@, i) by {
            let j = choose|j: int| 0 <= j < firsts@.len() && #[trigger] firsts@[j] == c[i];
            assert(c[i] == firsts@[j]);
            let t = choose|t: int| 0 <= t < members(out@, j).len() && #[trigger] members(out@, j)[t] == i;
        }
        assert forall|j1: int, t1: int, j2: int, t2: int|
            0 <= j1 < out@.len() && 0 <= t1 < members(out@, j1).len() && 0 <= j2 < out@.len() && 0
                <= t2 < members(out@, j2).len() implies (connected(
            links@,
            #[trigger] members(out@, j1)[t1] as int,
            #[trigger] members(out@, j2)[t2] as int,
        ) <==> j1 == j2) by {
            let x1 = members(out@, j1)[t1] as int;
            let x2 = members(out@, j2)[t2] as int;
            assert(c[x1] == firsts@[j1]);
            assert(c[x2] == firsts@[j2]);
            if j1 == j2 {
                assert(c[x1] == c[x2]);
                assert(uf.classes()[x1] == uf.classes()[x2]);
            }
            if connected(links@, x1, x2) {
                assert(c[x1] == c[x2]);
                if j1 < j2 {
                    assert(firsts@[j1] != firsts@[j2]);
                } else if j2 < j1 {
                    assert(firsts@[j2] != firsts@[j1]);
                }
            }
        }
    }
    out
}

} // verus!
