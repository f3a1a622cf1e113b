//! Face model: links each real UV face to its `.dat` 3D points.
//!
//! Each UV vertex carries a `vert_ref`; the global `.dat` point index is
//! `vert_ref / 24`. A [`FaceModel`] bundles, per body face, the resolved
//! point indices, the original `(u, v)` pairs, and the raw vert refs.

use vstd::prelude::*;
use crate::dat::{Geometry, GeometrySpec, Point3D, body_faces_upto, spec_edge_walk};
use crate::uvtable::{UvTable, UvTableSpec, UvVert, face_of};

verus! {

/// One body UV face linked to its `.dat` points.
#[derive(Clone, Debug)]
pub struct FaceModel {
    pub face_idx: usize,
    /// `vert_ref / 24` per vertex (or the edge-walk polygon when recovered).
    pub point_indices: Vec<usize>,
    pub orig_uv: Vec<[u16; 2]>,
    pub vert_refs: Vec<u16>,
    /// True when this face's collapsed `vertRef` polygon was replaced with its
    /// `.dat` edge-walk polygon (both point_indices and vert_refs).
    pub recovered: bool,
}

/// Mathematical value of a [`FaceModel`].
pub struct FaceModelSpec {
    pub face_idx: usize,
    pub point_indices: Seq<usize>,
    pub orig_uv: Seq<[u16; 2]>,
    pub vert_refs: Seq<u16>,
    pub recovered: bool,
}

impl View for FaceModel {
    type V = FaceModelSpec;

    open spec fn view(&self) -> FaceModelSpec {
        FaceModelSpec {
            face_idx: self.face_idx,
            point_indices: self.point_indices@,
            orig_uv: self.orig_uv@,
            vert_refs: self.vert_refs@,
            recovered: self.recovered,
        }
    }
}

/// Options controlling face-model construction.
#[derive(Clone, Copy, Debug, PartialEq, Eq, Structural)]
pub struct ModelOpts {
    /// Replace a body face's degenerate `vertRef` polygon with its `.dat`
    /// edge-walk polygon when the edge-walk is valid and has the SAME vertex
    /// count (an in-place patch constraint).
    pub recover_collapsed: bool,
}

impl Default for ModelOpts {
    fn default() -> (r: Self)
        ensures
            r.recover_collapsed,
    {
        ModelOpts { recover_collapsed: true }
    }
}

/// Successor of vertex `i` around an `n`-gon.
pub open spec fn next_vertex(i: int, n: int) -> int {
    if i + 1 == n {
        0
    } else {
        i + 1
    }
}

/// Newell normal components summed over edges `0..k` of polygon `p`
/// (each is twice the signed area of the projection on a coordinate plane).
pub open spec fn newell_x(p: Seq<Point3D>, k: int) -> int
    decreases k,
{
    if k <= 0 {
        0
    } else {
        let a = p[k - 1];
        let b = p[next_vertex(k - 1, p.len() as int)];
        newell_x(p, k - 1) + (a.y - b.y) * (a.z + b.z)
    }
}

pub open spec fn newell_y(p: Seq<Point3D>, k: int) -> int
    decreases k,
{
    if k <= 0 {
        0
    } else {
        let a = p[k - 1];
        let b = p[next_vertex(k - 1, p.len() as int)];
        newell_y(p, k - 1) + (a.z - b.z) * (a.x + b.x)
    }
}

pub open spec fn newell_z(p: Seq<Point3D>, k: int) -> int
    decreases k,
{
    if k <= 0 {
        0
    } else {
        let a = p[k - 1];
        let b = p[next_vertex(k - 1, p.len() as int)];
        newell_z(p, k - 1) + (a.x - b.x) * (a.y + b.y)
    }
}

/// Squared length of the Newell normal, i.e. `(2 * area)^2` of the polygon.
pub open spec fn twice_area_sq(p: Seq<Point3D>) -> int {
    let n = p.len() as int;
    newell_x(p, n) * newell_x(p, n) + newell_y(p, n) * newell_y(p, n) + newell_z(p, n) * newell_z(
        p,
        n,
    )
}

/// A polygon is collapsed when its 3D area is below one unit: fewer than
/// three points, or `sqrt(twice_area_sq) / 2 < 1`.
pub open spec fn collapsed(p: Seq<Point3D>) -> bool {
    p.len() < 3 || twice_area_sq(p) < 4
}

/// The points at `idxs`, in order.
pub open spec fn pts_at(points: Seq<Point3D>, idxs: Seq<usize>) -> Seq<Point3D> {
    Seq::new(idxs.len(), |k: int| points[idxs[k] as int])
}

/// All indices are valid point indices.
pub open spec fn all_below(idxs: Seq<usize>, n: int) -> bool {
    forall|k: int| 0 <= k < idxs.len() ==> #[trigger] idxs[k] < n
}

/// The model of one body face with UV entry `verts`, or `None` when some
/// `vert_ref / 24` is not a point of the geometry.
pub open spec fn spec_face_model(
    g: GeometrySpec,
    idx: usize,
    verts: Seq<UvVert>,
    recover: bool,
) -> Option<FaceModelSpec> {
    let pi0 = verts.map_values(|v: UvVert| (v.vert_ref / 24) as usize);
    let uv = verts.map_values(|v: UvVert| [v.u, v.v]);
    let vr0 = verts.map_values(|v: UvVert| v.vert_ref);
    let np = g.points.len() as int;
    if !all_below(pi0, np) {
        None
    } else {
        let rec = recover && collapsed(pts_at(g.points, pi0)) && (match spec_edge_walk(
            g,
            idx as int,
        ) {
            Some(ew) => ew.len() == pi0.len() && all_below(ew, np) && !collapsed(
                pts_at(g.points, ew),
            ),
            None => false,
        });
        if rec {
            let ew = spec_edge_walk(g, idx as int)->0;
            Some(
                FaceModelSpec {
                    face_idx: idx,
                    point_indices: ew,
                    orig_uv: uv,
                    vert_refs: ew.map_values(|p: usize| (p * 24) as u16),
                    recovered: true,
                },
            )
        } else {
            Some(
                FaceModelSpec {
                    face_idx: idx,
                    point_indices: pi0,
                    orig_uv: uv,
                    vert_refs: vr0,
                    recovered: false,
                },
            )
        }
    }
}

/// Models for the body faces `bodies[..k]` that have a UV slot, plus the
/// number recovered; `None` if any of them has an out-of-range `vert_ref`.
pub open spec fn models_upto(
    t: UvTableSpec,
    g: GeometrySpec,
    bodies: Seq<usize>,
    recover: bool,
    k: int,
) -> Option<(Seq<FaceModelSpec>, nat)>
    decreases k,
{
    if k <= 0 {
        Some((Seq::empty(), 0))
    } else {
        match models_upto(t, g, bodies, recover, k - 1) {
            None => None,
            Some((ms, nrec)) => {
                let idx = bodies[k - 1];
                match face_of(t, idx as int) {
                    None => Some((ms, nrec)),
                    Some(verts) => match spec_face_model(g, idx, verts, recover) {
                        None => None,
                        Some(m) => Some(
                            (ms.push(m), if m.recovered { nrec + 1 } else { nrec }),
                        ),
                    },
                }
            },
        }
    }
}

/// The face models of every body face (`jam_id == 530`) of `g` that has a
/// slot in `t`, in ascending face order, with the recovered count.
pub open spec fn spec_models(t: UvTableSpec, g: GeometrySpec, recover: bool) -> Option<
    (Seq<FaceModelSpec>, nat),
> {
    let bodies = body_faces_upto(g.faces, g.faces.len() as int);
    models_upto(t, g, bodies, recover, bodies.len() as int)
}

/// What every built model satisfies: its face has a UV entry; it has one
/// point, texel and vertex reference per UV vertex; its texels are the
/// entry's; its points are points of the geometry; and it uses the entry's
/// `vert_ref / 24` points and references unless it was recovered, in which
/// case recovery was on and its points are the face's edge walk.
pub open spec fn model_ok(t: UvTableSpec, g: GeometrySpec, recover: bool, m: FaceModelSpec) -> bool {
    &&& face_of(t, m.face_idx as int) is Some
    &&& ({
        let vs = face_of(t, m.face_idx as int)->0;
        &&& m.point_indices.len() == vs.len()
        &&& m.orig_uv.len() == vs.len()
        &&& m.vert_refs.len() == vs.len()
        &&& forall|k: int| 0 <= k < vs.len() ==> #[trigger] m.orig_uv[k] == [vs[k].u, vs[k].v]
        &&& all_below(m.point_indices, g.points.len() as int)
        &&& !m.recovered ==> m.point_indices == vs.map_values(|v: UvVert| (v.vert_ref / 24) as usize)
            && m.vert_refs == vs.map_values(|v: UvVert| v.vert_ref)
        &&& m.recovered ==> spec_edge_walk(g, m.face_idx as int) == Some(m.point_indices)
            && m.vert_refs == m.point_indices.map_values(|p: usize| (p * 24) as u16)
        &&& m.recovered == recovers(t, g, recover, m.face_idx)
    })
}

/// The recovery rule: recovery is on, the face's `vert_ref / 24` polygon is
/// collapsed, and its edge walk exists, has as many points, names only
/// points of the geometry and is not collapsed.
pub open spec fn recovers(t: UvTableSpec, g: GeometrySpec, recover: bool, idx: usize) -> bool {
    let vr = (face_of(t, idx as int)->0).map_values(|v: UvVert| (v.vert_ref / 24) as usize);
    &&& recover
    &&& collapsed(pts_at(g.points, vr))
    &&& spec_edge_walk(g, idx as int) matches Some(ew)
    &&& ew.len() == vr.len()
    &&& all_below(ew, g.points.len() as int)
    &&& !collapsed(pts_at(g.points, ew))
}

/// Body face `idx` has a UV entry naming a point the geometry lacks.
pub open spec fn bad_refs(t: UvTableSpec, g: GeometrySpec, idx: usize) -> bool {
    face_of(t, idx as int) matches Some(vs) && !all_below(
        vs.map_values(|v: UvVert| (v.vert_ref / 24) as usize),
        g.points.len() as int,
    )
}

proof fn lemma_models_upto(t: UvTableSpec, g: GeometrySpec, bodies: Seq<usize>, recover: bool, k: int)
    requires
        0 <= k <= bodies.len(),
        models_upto(t, g, bodies, recover, k) is Some,
    ensures
        ({
            let (ms, n) = models_upto(t, g, bodies, recover, k)->0;
            &&& ms.map_values(|m: FaceModelSpec| m.face_idx) == bodies.subrange(0, k).filter(
                |i: usize| face_of(t, i as int) is Some,
            )
            &&& n == ms.filter(|m: FaceModelSpec| m.recovered).len()
            &&& forall|j: int| 0 <= j < ms.len() ==> model_ok(t, g, recover, #[trigger] ms[j])
        }),
    decreases k,
{
    reveal(Seq::filter);
    let pred = |i: usize| face_of(t, i as int) is Some;
    let rp = |m: FaceModelSpec| m.recovered;
    if k == 0 {
        assert(bodies.subrange(0, 0) =~= Seq::<usize>::empty());
        let (ms, n) = models_upto(t, g, bodies, recover, 0)->0;
        assert(ms.map_values(|m: FaceModelSpec| m.face_idx) =~= Seq::<usize>::empty());
    } else {
        lemma_models_upto(t, g, bodies, recover, k - 1);
        let (ms0, n0) = models_upto(t, g, bodies, recover, k - 1)->0;
        let (ms, n) = models_upto(t, g, bodies, recover, k)->0;
        let idx = bodies[k - 1];
        let pre = bodies.subrange(0, k);
        assert(pre.drop_last() =~= bodies.subrange(0, k - 1));
        assert(pre.last() == idx);
        match face_of(t, idx as int) {
            None => {
                assert(pre.filter(pred) == bodies.subrange(0, k - 1).filter(pred));
            },
            Some(verts) => {
                let m = spec_face_model(g, idx, verts, recover)->0;
                assert(ms == ms0.push(m));
                assert(ms.drop_last() =~= ms0);
                assert(ms.map_values(|m: FaceModelSpec| m.face_idx) =~= ms0.map_values(
                    |m: FaceModelSpec| m.face_idx,
                ).push(idx));
                assert(pre.filter(pred) == bodies.subrange(0, k - 1).filter(pred).push(idx));
                assert(ms.filter(rp) == if m.recovered {
                    ms0.filter(rp).push(m)
                } else {
                    ms0.filter(rp)
                });
                assert(model_ok(t, g, recover, m));
                assert forall|j: int| 0 <= j < ms.len() implies model_ok(t, g, recover, #[trigger] ms[j]) by {
                    if j < ms0.len() {
                        assert(ms[j] == ms0[j]);
                    }
                }
            },
        }
    }
}

proof fn lemma_models_upto_none(t: UvTableSpec, g: GeometrySpec, bodies: Seq<usize>, recover: bool, k: int)
    requires
        0 <= k <= bodies.len(),
    ensures
        models_upto(t, g, bodies, recover, k) is None <==> exists|j: int|
            0 <= j < k && bad_refs(t, g, #[trigger] bodies[j]),
    decreases k,
{
    if k > 0 {
        lemma_models_upto_none(t, g, bodies, recover, k - 1);
        if exists|j: int| 0 <= j < k && bad_refs(t, g, #[trigger] bodies[j]) {
            let j = choose|j: int| 0 <= j < k && bad_refs(t, g, #[trigger] bodies[j]);
            if j < k - 1 {
                assert(exists|j2: int| 0 <= j2 < k - 1 && bad_refs(t, g, #[trigger] bodies[j2]));
            }
        }
        if models_upto(t, g, bodies, recover, k - 1) is None {
            let j = choose|j: int| 0 <= j < k - 1 && bad_refs(t, g, #[trigger] bodies[j]);
            assert(0 <= j < k && bad_refs(t, g, bodies[j]));
        }
    }
}

/// Building face models fails exactly when some body face has a UV entry
/// naming a point the geometry lacks; recovery never makes it fail.
pub proof fn lemma_models_none(t: UvTableSpec, g: GeometrySpec, recover: bool)
    ensures
        spec_models(t, g, recover) is None <==> exists|j: int|
            0 <= j < body_faces_upto(g.faces, g.faces.len() as int).len() && bad_refs(
                t,
                g,
                #[trigger] body_faces_upto(g.faces, g.faces.len() as int)[j],
            ),
{
    let bodies = body_faces_upto(g.faces, g.faces.len() as int);
    lemma_models_upto_none(t, g, bodies, recover, bodies.len() as int);
}

/// Building face models keeps, in body order, exactly the body faces that
/// have a UV entry, one model each; every model satisfies [`model_ok`]; and
/// the count is the number of recovered models.
pub proof fn lemma_models_shape(t: UvTableSpec, g: GeometrySpec, recover: bool)
    requires
        spec_models(t, g, recover) is Some,
    ensures
        ({
            let (ms, n) = spec_models(t, g, recover)->0;
            let bodies = body_faces_upto(g.faces, g.faces.len() as int);
            &&& ms.map_values(|m: FaceModelSpec| m.face_idx) == bodies.filter(
                |i: usize| face_of(t, i as int) is Some,
            )
            &&& n == ms.filter(|m: FaceModelSpec| m.recovered).len()
            &&& forall|j: int| 0 <= j < ms.len() ==> model_ok(t, g, recover, #[trigger] ms[j])
        }),
{
    let bodies = body_faces_upto(g.faces, g.faces.len() as int);
    lemma_models_upto(t, g, bodies, recover, bodies.len() as int);
    assert(bodies.subrange(0, bodies.len() as int) =~= bodies);
}

/// Whether a polygon is collapsed (3D area below one unit). The Newell
/// components are integers, so `nx^2 + ny^2 + nz^2 < 4` exactly when each
/// has magnitude at most 1.
fn is_collapsed(pts: &Vec<Point3D>) -> (r: bool)
    requires
        pts@.len() < 0x1_0000_0000,
    ensures
        r == collapsed(pts@),
{
    let n = pts.len();
    if n < 3 {
        return true;
    }
    let mut nx: i128 = 0;
    let mut ny: i128 = 0;
    let mut nz: i128 = 0;
    let mut i: usize = 0;
    while i < n
        invariant
            n == pts@.len(),
            n < 0x1_0000_0000,
            i <= n,
            nx == newell_x(pts@, i as int),
            ny == newell_y(pts@, i as int),
            nz == newell_z(pts@, i as int),
            -(i as int) * 0x1_0000_0000_0000_0000 <= nx <= (i as int) * 0x1_0000_0000_0000_0000,
            -(i as int) * 0x1_0000_0000_0000_0000 <= ny <= (i as int) * 0x1_0000_0000_0000_0000,
            -(i as int) * 0x1_0000_0000_0000_0000 <= nz <= (i as int) * 0x1_0000_0000_0000_0000,
        decreases n - i,
    {
        let a = pts[i];
        let b = if i + 1 == n {
            pts[0]
        } else {
            pts[i + 1]
        };
        let dy = a.y as i128 - b.y as i128;
        let sz = a.z as i128 + b.z as i128;
        let dz = a.z as i128 - b.z as i128;
        let sx = a.x as i128 + b.x as i128;
        let dx = a.x as i128 - b.x as i128;
        let sy = a.y as i128 + b.y as i128;
        proof {
            lemma_term_bound(dy as int, sz as int);
            lemma_term_bound(dz as int, sx as int);
            lemma_term_bound(dx as int, sy as int);
        }
        nx = nx + dy * sz;
        ny = ny + dz * sx;
        nz = nz + dx * sy;
        i = i + 1;
    }
    let r = -1 <= nx && nx <= 1 && -1 <= ny && ny <= 1 && -1 <= nz && nz <= 1;
    proof {
        lemma_small_sum_of_squares(nx as int, ny as int, nz as int);
    }
    r
}

proof fn lemma_term_bound(d: int, s: int)
    requires
        -0x1_0000_0000 <= d <= 0x1_0000_0000,
        -0x1_0000_0000 <= s <= 0x1_0000_0000,
    ensures
        -0x1_0000_0000_0000_0000 <= d * s <= 0x1_0000_0000_0000_0000,
{
    assert(-0x1_0000_0000_0000_0000 <= d * s <= 0x1_0000_0000_0000_0000) by (nonlinear_arith)
        requires
            -0x1_0000_0000 <= d <= 0x1_0000_0000,
            -0x1_0000_0000 <= s <= 0x1_0000_0000,
    ;
}

proof fn lemma_small_sum_of_squares(x: int, y: int, z: int)
    ensures
        (x * x + y * y + z * z < 4) <==> (-1 <= x <= 1 && -1 <= y <= 1 && -1 <= z <= 1),
{
    assert(x * x >= 0 && y * y >= 0 && z * z >= 0) by (nonlinear_arith);
    assert((x >= 2 || x <= -2) ==> x * x >= 4) by (nonlinear_arith);
    assert((y >= 2 || y <= -2) ==> y * y >= 4) by (nonlinear_arith);
    assert((z >= 2 || z <= -2) ==> z * z >= 4) by (nonlinear_arith);
    assert((-1 <= x <= 1) ==> x * x <= 1) by (nonlinear_arith);
    assert((-1 <= y <= 1) ==> y * y <= 1) by (nonlinear_arith);
    assert((-1 <= z <= 1) ==> z * z <= 1) by (nonlinear_arith);
}

proof fn lemma_models_none_stays(
    t: UvTableSpec,
    g: GeometrySpec,
    bodies: Seq<usize>,
    recover: bool,
    k: int,
    n: int,
)
    requires
        0 <= k <= n,
        models_upto(t, g, bodies, recover, k) is None,
    ensures
        models_upto(t, g, bodies, recover, n) is None,
    decreases n - k,
{
    if k < n {
        lemma_models_none_stays(t, g, bodies, recover, k, n - 1);
    }
}

/// The points at `idxs` (all valid), in order.
fn points_at(geom: &Geometry, idxs: &Vec<usize>) -> (r: Vec<Point3D>)
    requires
        all_below(idxs@, geom.points@.len() as int),
    ensures
        r@ == pts_at(geom.points@, idxs@),
{
    let mut out: Vec<Point3D> = Vec::new();
    let mut k: usize = 0;
    while k < idxs.len()
        invariant
            k <= idxs@.len(),
            all_below(idxs@, geom.points@.len() as int),
            out@ == pts_at(geom.points@, idxs@).subrange(0, k as int),
        decreases idxs@.len() - k,
    {
        out.push(geom.points[idxs[k]]);
        k = k + 1;
        assert(out@ =~= pts_at(geom.points@, idxs@).subrange(0, k as int));
    }
    assert(out@ =~= pts_at(geom.points@, idxs@));
    out
}

/// Build the model of body face `idx` from its UV entry `verts`.
fn model_for(geom: &Geometry, idx: usize, verts: &Vec<UvVert>, recover: bool) -> (r: Option<
    FaceModel,
>)
    requires
        verts@.len() < 0x1_0000,
    ensures
        match r {
            Some(m) => spec_face_model(geom.spec(), idx, verts@, recover) == Some(m@),
            None => spec_face_model(geom.spec(), idx, verts@, recover) is None,
        },
{
    let ghost pi0 = verts@.map_values(|v: UvVert| (v.vert_ref / 24) as usize);
    let ghost uv0 = verts@.map_values(|v: UvVert| [v.u, v.v]);
    let ghost vr0 = verts@.map_values(|v: UvVert| v.vert_ref);
    let np = geom.points.len();
    let mut pi: Vec<usize> = Vec::new();
    let mut uv: Vec<[u16; 2]> = Vec::new();
    let mut vr: Vec<u16> = Vec::new();
    let mut k: usize = 0;
    while k < verts.len()
        invariant
            k <= verts@.len(),
            np == geom.points@.len(),
            pi0 == verts@.map_values(|v: UvVert| (v.vert_ref / 24) as usize),
            uv0 == verts@.map_values(|v: UvVert| [v.u, v.v]),
            vr0 == verts@.map_values(|v: UvVert| v.vert_ref),
            pi@ == pi0.subrange(0, k as int),
            uv@ == uv0.subrange(0, k as int),
            vr@ == vr0.subrange(0, k as int),
            all_below(pi@, np as int),
        decreases verts@.len() - k,
    {
        let v = verts[k];
        let p = (v.vert_ref / 24) as usize;
        if p >= np {
            assert(pi0[k as int] == p);
            return None;
        }
        pi.push(p);
        uv.push([v.u, v.v]);
        vr.push(v.vert_ref);
        k = k + 1;
        assert(pi@ =~= pi0.subrange(0, k as int));
        assert(uv@ =~= uv0.subrange(0, k as int));
        assert(vr@ =~= vr0.subrange(0, k as int));
    }
    assert(pi@ =~= pi0);
    assert(uv@ =~= uv0);
    assert(vr@ =~= vr0);
    let mut recovered = false;
    if recover {
        let pts = points_at(geom, &pi);
        if is_collapsed(&pts) {
            match geom.edge_walk(idx) {
                Some(ew) => {
                    let same_count = ew.len() == pi.len();
                    let mut in_range = true;
                    let mut j: usize = 0;
                    while j < ew.len()
                        invariant
                            j <= ew@.len(),
                            np == geom.points@.len(),
                            in_range == (forall|m: int| 0 <= m < j ==> #[trigger] ew@[m] < np),
                        decreases ew@.len() - j,
                    {
                        if ew[j] >= np {
                            in_range = false;
                        }
                        j = j + 1;
                    }
                    if same_count && in_range {
                        let ew_pts = points_at(geom, &ew);
                        if !is_collapsed(&ew_pts) {
                            let ghost evr = ew@.map_values(|p: usize| (p * 24) as u16);
                            let mut nvr: Vec<u16> = Vec::new();
                            let mut m: usize = 0;
                            while m < ew.len()
                                invariant
                                    m <= ew@.len(),
                                    evr == ew@.map_values(|p: usize| (p * 24) as u16),
                                    nvr@ == evr.subrange(0, m as int),
                                decreases ew@.len() - m,
                            {
                                nvr.push(((ew[m] as u128) * 24) as u16);
                                m = m + 1;
                                assert(nvr@ =~= evr.subrange(0, m as int));
                            }
                            assert(nvr@ =~= evr);
                            pi = ew;
                            vr = nvr;
                            recovered = true;
                        }
                    }
                },
                None => {},
            }
        }
    }
    Some(FaceModel { face_idx: idx, point_indices: pi, orig_uv: uv, vert_refs: vr, recovered })
}

/// Build a [`FaceModel`] for every body face (`.dat` jam_id == 530), with
/// recovery on. Body faces with no SVGA UV slot are skipped.
///
/// Returns `None` if any `vert_ref/24` is out of range for `geom.points`.
pub fn build_face_models(table: &UvTable, geom: &Geometry) -> (res: Option<Vec<FaceModel>>)
    requires
        table.wf(),
    ensures
        match res {
            Some(ms) => spec_models(table@, geom.spec(), true) matches Some((sm, _)) && sm
                == ms@.map_values(|m: FaceModel| m@),
            None => spec_models(table@, geom.spec(), true) is None,
        },
{
    match build_face_models_opts(table, geom, ModelOpts::default()) {
        Some((models, _)) => Some(models),
        None => None,
    }
}

/// Build face models with explicit [`ModelOpts`]. Returns the models plus the
/// number of faces recovered from edge-walk geometry.
///
/// Recovery rule for each body face (when `opts.recover_collapsed`): if its
/// `vert_ref/24` polygon is collapsed (3D area below one unit), and the
/// `.dat` edge-walk for the face exists, has exactly the same vertex count,
/// only valid point indices and a non-collapsed polygon, then the edge-walk
/// indices replace the point indices and `vert_refs[k] = ew[k] * 24`.
pub fn build_face_models_opts(table: &UvTable, geom: &Geometry, opts: ModelOpts) -> (res: Option<
    (Vec<FaceModel>, usize),
>)
    requires
        table.wf(),
    ensures
        match res {
            Some((ms, n)) => spec_models(table@, geom.spec(), opts.recover_collapsed) == Some(
                (ms@.map_values(|m: FaceModel| m@), n as nat),
            ),
            None => spec_models(table@, geom.spec(), opts.recover_collapsed) is None,
        },
{
    let bodies = geom.body_face_indices();
    let ghost t = table@;
    let ghost g = geom.spec();
    let rec = opts.recover_collapsed;
    let mut out: Vec<FaceModel> = Vec::new();
    let mut recovered_count: usize = 0;
    let mut b: usize = 0;
    while b < bodies.len()
        invariant
            b <= bodies@.len(),
            t == table@,
            g == geom.spec(),
            rec == opts.recover_collapsed,
            table.wf(),
            bodies@ == body_faces_upto(g.faces, g.faces.len() as int),
            recovered_count <= b,
            spec_models(t, g, rec) == models_upto(t, g, bodies@, rec, bodies@.len() as int),
            models_upto(t, g, bodies@, rec, b as int) == Some(
                (out@.map_values(|m: FaceModel| m@), recovered_count as nat),
            ),
        decreases bodies@.len() - b,
    {
        let idx = bodies[b];
        match table.face(idx) {
            None => {},
            Some(f) => {
                assert(t.slots[idx as int] matches Some((_, vs)) ==> vs.len() < 0x1_0000);
                match model_for(geom, idx, &f.verts, rec) {
                    None => {
                        proof {
                            assert(face_of(t, idx as int) == Some(f@));
                            assert(models_upto(t, g, bodies@, rec, b + 1) is None);
                            lemma_models_none_stays(
                                t,
                                g,
                                bodies@,
                                rec,
                                b + 1,
                                bodies@.len() as int,
                            );
                        }
                        return None;
                    },
                    Some(m) => {
                        let ghost before = out@;
                        let r = m.recovered;
                        out.push(m);
                        assert(out@.map_values(|m: FaceModel| m@) =~= before.map_values(
                            |m: FaceModel| m@,
                        ).push(out@[out@.len() - 1]@));
                        if r {
                            recovered_count = recovered_count + 1;
                        }
                    },
                }
            },
        }
        b = b + 1;
    }
    Some((out, recovered_count))
}

impl FaceModel {
    /// The resolved 3D points for this face, in vertex order.
    pub fn points3d(&self, geom: &Geometry) -> (r: Vec<Point3D>)
        requires
            all_below(self.point_indices@, geom.points@.len() as int),
        ensures
            r@ == pts_at(geom.points@, self.point_indices@),
    {
        points_at(geom, &self.point_indices)
    }
}

} // verus!
