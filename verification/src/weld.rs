//! Integer rules of the GP2-style symmetric layout: which faces weld into
//! one island (shared points whose original texels agree) and how
//! single-face islands fold into a neighbour.

use vstd::prelude::*;
use crate::model::{FaceModel, FaceModelSpec};
use crate::unwrap::{first_pos, find_first, lemma_first_pos_contains, shared_count, shared_set};

verus! {

/// Two texels at most one apart on each axis.
pub open spec fn close_uv(a: [u16; 2], b: [u16; 2]) -> bool {
    -1 <= a[0] - b[0] <= 1 && -1 <= a[1] - b[1] <= 1
}

/// Among the first `k` vertices of `a`, the number of distinct points
/// (each taken at its first use) that `b` also uses with a texel within one
/// of `a`'s (`b`'s also taken at its first use of the point).
pub open spec fn weld_upto(a: FaceModelSpec, b: FaceModelSpec, k: int) -> nat
    decreases k,
{
    if k <= 0 {
        0
    } else {
        let p = a.point_indices[k - 1];
        weld_upto(a, b, k - 1) + if first_pos(a.point_indices, p, 0) == Some(k - 1) && (match first_pos(
            b.point_indices,
            p,
            0,
        ) {
            Some(j) => close_uv(a.orig_uv[k - 1], b.orig_uv[j]),
            None => false,
        }) {
            1nat
        } else {
            0nat
        }
    }
}

/// The texel face `m` gives point `p` at its first use of it.
pub open spec fn first_texel(m: FaceModelSpec, p: usize) -> [u16; 2] {
    m.orig_uv[first_pos(m.point_indices, p, 0)->0]
}

/// The points both faces use whose texels (each face's texel at its first
/// use of the point) differ by at most one on each axis.
pub open spec fn weld_set(a: FaceModelSpec, b: FaceModelSpec) -> Set<usize> {
    Set::new(
        |p: usize|
            a.point_indices.contains(p) && b.point_indices.contains(p) && -1 <= first_texel(a, p)[0]
                - first_texel(b, p)[0] <= 1 && -1 <= first_texel(a, p)[1] - first_texel(b, p)[1] <= 1,
    )
}

spec fn weld_set_upto(a: FaceModelSpec, b: FaceModelSpec, k: int) -> Set<usize> {
    Set::new(
        |p: usize|
            (exists|i: int| 0 <= i < k && a.point_indices[i] == p) && b.point_indices.contains(p) && -1
                <= first_texel(a, p)[0] - first_texel(b, p)[0] <= 1 && -1 <= first_texel(a, p)[1]
                - first_texel(b, p)[1] <= 1,
    )
}

proof fn lemma_weld_set_upto(a: FaceModelSpec, b: FaceModelSpec, k: int)
    requires
        0 <= k <= a.point_indices.len(),
    ensures
        weld_set_upto(a, b, k).finite(),
        weld_set_upto(a, b, k).len() == weld_upto(a, b, k),
    decreases k,
{
    if k == 0 {
        assert(weld_set_upto(a, b, 0) =~= Set::empty());
    } else {
        lemma_weld_set_upto(a, b, k - 1);
        let x = a.point_indices[k - 1];
        let prev = weld_set_upto(a, b, k - 1);
        let cur = weld_set_upto(a, b, k);
        lemma_first_pos_contains(a.point_indices, x, 0);
        lemma_first_pos_contains(b.point_indices, x, 0);
        if first_pos(a.point_indices, x, 0) == Some(k - 1) {
            assert(!prev.contains(x));
            if cur.contains(x) {
                assert(cur =~= prev.insert(x));
            } else {
                assert(cur =~= prev);
            }
        } else {
            let i = first_pos(a.point_indices, x, 0)->0;
            assert(i < k - 1);
            assert(cur =~= prev);
        }
    }
}

/// The UV-weld count is the number of points both faces use whose texels
/// (each face's texel at its first use of the point) differ by at most one
/// on each axis.
pub proof fn lemma_weld_set(a: FaceModelSpec, b: FaceModelSpec)
    ensures
        weld_set(a, b).finite(),
        weld_set(a, b).len() == weld_upto(a, b, a.point_indices.len() as int),
{
    lemma_weld_set_upto(a, b, a.point_indices.len() as int);
    assert(weld_set_upto(a, b, a.point_indices.len() as int) =~= weld_set(a, b));
}

/// How many distinct points of `a` are also points of `b` whose original
/// texels (at each face's first use of the point) are within one texel.
pub fn uv_weld_count(a: &FaceModel, b: &FaceModel) -> (r: usize)
    requires
        a.point_indices@.len() <= a.orig_uv@.len(),
        b.point_indices@.len() <= b.orig_uv@.len(),
    ensures
        r == weld_upto(a@, b@, a.point_indices@.len() as int),
        weld_set(a@, b@).finite(),
        r == weld_set(a@, b@).len(),
{
    proof {
        lemma_weld_set(a@, b@);
    }
    let mut m: usize = 0;
    let mut k: usize = 0;
    while k < a.point_indices.len()
        invariant
            k <= a.point_indices@.len(),
            a.point_indices@.len() <= a.orig_uv@.len(),
            b.point_indices@.len() <= b.orig_uv@.len(),
            m <= k,
            m == weld_upto(a@, b@, k as int),
        decreases a.point_indices@.len() - k,
    {
        let p = a.point_indices[k];
        let fa = find_first(&a.point_indices, p);
        proof {
            lemma_first_pos_contains(a.point_indices@, p, 0);
            lemma_first_pos_contains(b.point_indices@, p, 0);
        }
        if fa == Some(k) {
            match find_first(&b.point_indices, p) {
                Some(j) => {
                    let ua = a.orig_uv[k];
                    let ub = b.orig_uv[j];
                    let du = ua[0] as i32 - ub[0] as i32;
                    let dv = ua[1] as i32 - ub[1] as i32;
                    if -1 <= du && du <= 1 && -1 <= dv && dv <= 1 {
                        m = m + 1;
                    }
                },
                None => {},
            }
        }
        k = k + 1;
    }
    m
}

/// Islands as sequences of face positions.
pub open spec fn groups_view(v: Seq<Vec<usize>>) -> Seq<Seq<usize>> {
    Seq::new(v.len(), |i: int| v[i]@)
}

/// Some face among `grp[..k]` shares at least two points with face `f`.
pub open spec fn touches(ms: Seq<FaceModelSpec>, grp: Seq<usize>, f: usize, k: int) -> bool
    decreases k,
{
    if k <= 0 {
        false
    } else {
        touches(ms, grp, f, k - 1) || shared_set(
            ms[f as int].point_indices,
            ms[grp[k - 1] as int].point_indices,
        ).len() >= 2
    }
}

/// The first island at or after `j`, other than `i`, with two or more faces
/// of which one shares at least two points with island `i`'s first face.
pub open spec fn fold_target_from(isl: Seq<Seq<usize>>, ms: Seq<FaceModelSpec>, i: int, j: int) -> Option<int>
    decreases isl.len() - j,
{
    if j < 0 || j >= isl.len() {
        None
    } else if j != i && isl[j].len() > 1 && touches(ms, isl[j], isl[i][0], isl[j].len() as int) {
        Some(j)
    } else {
        fold_target_from(isl, ms, i, j + 1)
    }
}

/// The island a single-face island folds into, if any.
pub open spec fn fold_target(isl: Seq<Seq<usize>>, ms: Seq<FaceModelSpec>, i: int) -> Option<int> {
    if isl[i].len() == 1 {
        fold_target_from(isl, ms, i, 0)
    } else {
        None
    }
}

/// The faces of the single-face islands among `isl[..k]` that fold into
/// island `j`, in island order.
pub open spec fn folded_in(isl: Seq<Seq<usize>>, ms: Seq<FaceModelSpec>, j: int, k: int) -> Seq<usize>
    decreases k,
{
    if k <= 0 {
        Seq::empty()
    } else {
        folded_in(isl, ms, j, k - 1) + if fold_target(isl, ms, k - 1) == Some(j) {
            seq![isl[k - 1][0]]
        } else {
            Seq::empty()
        }
    }
}

/// Islands `isl[..k]` after folding: every island that is not folded away,
/// followed by the faces folded into it.
pub open spec fn folded_upto(isl: Seq<Seq<usize>>, ms: Seq<FaceModelSpec>, k: int) -> Seq<Seq<usize>>
    decreases k,
{
    if k <= 0 {
        Seq::empty()
    } else {
        folded_upto(isl, ms, k - 1) + if fold_target(isl, ms, k - 1) is Some {
            Seq::empty()
        } else {
            seq![isl[k - 1] + folded_in(isl, ms, k - 1, isl.len() as int)]
        }
    }
}

/// Whether some face of `grp` shares at least two points with face `f`.
fn touches_any(grp: &Vec<usize>, models: &[FaceModel], f: usize) -> (r: bool)
    requires
        f < models@.len(),
        forall|t: int| 0 <= t < grp@.len() ==> #[trigger] grp@[t] < models@.len(),
    ensures
        r == touches(models@.map_values(|m: FaceModel| m@), grp@, f, grp@.len() as int),
{
    let ghost ms = models@.map_values(|m: FaceModel| m@);
    let mut k: usize = 0;
    while k < grp.len()
        invariant
            k <= grp@.len(),
            f < models@.len(),
            ms == models@.map_values(|m: FaceModel| m@),
            forall|t: int| 0 <= t < grp@.len() ==> #[trigger] grp@[t] < models@.len(),
            !touches(ms, grp@, f, k as int),
        decreases grp@.len() - k,
    {
        let g = grp[k];
        assert(ms[f as int] == models@[f as int]@);
        assert(ms[g as int] == models@[g as int]@);
        if shared_count(&models[f], &models[g]) >= 2 {
            assert(touches(ms, grp@, f, k + 1));
            proof {
                lemma_touches_mono(ms, grp@, f, k + 1, grp@.len() as int);
            }
            return true;
        }
        k = k + 1;
    }
    false
}

proof fn lemma_touches_mono(ms: Seq<FaceModelSpec>, grp: Seq<usize>, f: usize, k: int, m: int)
    requires
        k <= m,
        touches(ms, grp, f, k),
    ensures
        touches(ms, grp, f, m),
    decreases m - k,
{
    if k < m {
        lemma_touches_mono(ms, grp, f, k, m - 1);
    }
}

fn copy_group(g: &Vec<usize>) -> (r: Vec<usize>)
    ensures
        r@ == g@,
{
    let mut r: Vec<usize> = Vec::new();
    let mut k: usize = 0;
    while k < g.len()
        invariant
            k <= g@.len(),
            r@ == g@.subrange(0, k as int),
        decreases g@.len() - k,
    {
        r.push(g[k]);
        k = k + 1;
        assert(r@ =~= g@.subrange(0, k as int));
    }
    assert(r@ =~= g@);
    r
}

/// The island single-face island `i` folds into, if any.
fn find_target(islands: &Vec<Vec<usize>>, models: &[FaceModel], i: usize) -> (r: Option<usize>)
    requires
        i < islands@.len(),
        forall|a: int, t: int|
            0 <= a < islands@.len() && 0 <= t < islands@[a]@.len() ==> #[trigger] islands@[a]@[t]
                < models@.len(),
    ensures
        match r {
            Some(j) => fold_target(
                groups_view(islands@),
                models@.map_values(|m: FaceModel| m@),
                i as int,
            ) == Some(j as int),
            None => fold_target(
                groups_view(islands@),
                models@.map_values(|m: FaceModel| m@),
                i as int,
            ) is None,
        },
{
    let ghost isl = groups_view(islands@);
    let ghost ms = models@.map_values(|m: FaceModel| m@);
    let n = islands.len();
    assert(isl[i as int] == islands@[i as int]@);
    if islands[i].len() != 1 {
        return None;
    }
    let f = islands[i][0];
    let mut j: usize = 0;
    while j < n
        invariant
            n == islands@.len(),
            isl == groups_view(islands@),
            ms == models@.map_values(|m: FaceModel| m@),
            i < n,
            j <= n,
            islands@[i as int]@.len() == 1,
            f == islands@[i as int]@[0],
            f < models@.len(),
            forall|a: int, t: int|
                0 <= a < islands@.len() && 0 <= t < islands@[a]@.len() ==> #[trigger] islands@[a]@[t]
                    < models@.len(),
            fold_target_from(isl, ms, i as int, 0) == fold_target_from(isl, ms, i as int, j as int),
        decreases n - j,
    {
        assert(isl[j as int] == islands@[j as int]@);
        if j != i && islands[j].len() > 1 {
            assert forall|t: int| 0 <= t < islands[j as int]@.len() implies #[trigger] islands[j as int]@[t]
                < models@.len() by {
                assert(islands@[j as int]@[t] < models@.len());
            }
            if touches_any(&islands[j], models, f) {
                return Some(j);
            }
        }
        j = j + 1;
    }
    None
}

/// Fold every single-face island into the first other island with two or
/// more faces that shares at least two points with it; the folded faces are
/// appended to their new island in island order.
pub fn fold_singletons(islands: &Vec<Vec<usize>>, models: &[FaceModel]) -> (r: Vec<Vec<usize>>)
    requires
        forall|i: int, t: int|
            0 <= i < islands@.len() && 0 <= t < islands@[i]@.len() ==> #[trigger] islands@[i]@[t]
                < models@.len(),
    ensures
        groups_view(r@) == folded_upto(
            groups_view(islands@),
            models@.map_values(|m: FaceModel| m@),
            islands@.len() as int,
        ),
{
    let ghost isl = groups_view(islands@);
    let ghost ms = models@.map_values(|m: FaceModel| m@);
    let n = islands.len();
    // Where each island folds to.
    let mut targets: Vec<Option<usize>> = Vec::new();
    let mut i: usize = 0;
    while i < n
        invariant
            n == islands@.len(),
            isl == groups_view(islands@),
            ms == models@.map_values(|m: FaceModel| m@),
            i <= n,
            targets@.len() == i,
            forall|a: int, t: int|
                0 <= a < islands@.len() && 0 <= t < islands@[a]@.len() ==> #[trigger] islands@[a]@[t]
                    < models@.len(),
            forall|a: int|
                0 <= a < i ==> (match #[trigger] targets@[a] {
                    Some(j) => fold_target(isl, ms, a) == Some(j as int),
                    None => fold_target(isl, ms, a) is None,
                }),
        decreases n - i,
    {
        let tgt = find_target(islands, models, i);
        targets.push(tgt);
        i = i + 1;
    }
    // Keep the islands that stay, with the faces folded into them.
    let mut out: Vec<Vec<usize>> = Vec::new();
    let mut i: usize = 0;
    while i < n
        invariant
            n == islands@.len(),
            isl == groups_view(islands@),
            ms == models@.map_values(|m: FaceModel| m@),
            i <= n,
            targets@.len() == n,
            forall|a: int|
                0 <= a < n ==> (match #[trigger] targets@[a] {
                    Some(j) => fold_target(isl, ms, a) == Some(j as int),
                    None => fold_target(isl, ms, a) is None,
                }),
            groups_view(out@) == folded_upto(isl, ms, i as int),
        decreases n - i,
    {
        if targets[i].is_none() {
            let mut g = copy_group(&islands[i]);
            let ghost head = g@;
            let mut s: usize = 0;
            while s < n
                invariant
                    n == islands@.len(),
                    isl == groups_view(islands@),
                    ms == models@.map_values(|m: FaceModel| m@),
                    i < n,
                    s <= n,
                    targets@.len() == n,
                    forall|a: int|
                        0 <= a < n ==> (match #[trigger] targets@[a] {
                            Some(j) => fold_target(isl, ms, a) == Some(j as int),
                            None => fold_target(isl, ms, a) is None,
                        }),
                    head == islands@[i as int]@,
                    g@ == head + folded_in(isl, ms, i as int, s as int),
                decreases n - s,
            {
                let ghost before = g@;
                if targets[s] == Some(i) {
                    assert(fold_target(isl, ms, s as int) == Some(i as int));
                    assert(isl[s as int] == islands@[s as int]@);
                    assert(islands@[s as int]@.len() == 1);
                    g.push(islands[s][0]);
                    assert(g@ =~= head + folded_in(isl, ms, i as int, s + 1));
                } else {
                    assert(fold_target(isl, ms, s as int) != Some(i as int));
                    assert(folded_in(isl, ms, i as int, s + 1) =~= folded_in(isl, ms, i as int, s as int));
                }
                s = s + 1;
            }
            let ghost o0 = out@;
            out.push(g);
            proof {
                assert(isl[i as int] == islands@[i as int]@);
                assert(groups_view(out@) =~= groups_view(o0) + seq![isl[i as int] + folded_in(
                    isl,
                    ms,
                    i as int,
                    isl.len() as int,
                )]);
            }
        } else {
            assert(folded_upto(isl, ms, i + 1) =~= folded_upto(isl, ms, i as int));
        }
        i = i + 1;
    }
    out
}

/// Face `x` appears in some group of `gs`.
pub open spec fn has_face(gs: Seq<Seq<usize>>, x: usize) -> bool {
    exists|j: int, u: int| 0 <= j < gs.len() && 0 <= u < gs[j].len() && #[trigger] gs[j][u] == x
}

proof fn lemma_target_from(isl: Seq<Seq<usize>>, ms: Seq<FaceModelSpec>, i: int, j: int)
    ensures
        fold_target_from(isl, ms, i, j) matches Some(t) ==> 0 <= t < isl.len() && t != i
            && isl[t].len() > 1,
    decreases isl.len() - j,
{
    if 0 <= j < isl.len() && !(j != i && isl[j].len() > 1 && touches(
        ms,
        isl[j],
        isl[i][0],
        isl[j].len() as int,
    )) {
        lemma_target_from(isl, ms, i, j + 1);
    }
}

proof fn lemma_folded_in_has(isl: Seq<Seq<usize>>, ms: Seq<FaceModelSpec>, j: int, k: int, s: int)
    requires
        0 <= s < k,
        fold_target(isl, ms, s) == Some(j),
    ensures
        folded_in(isl, ms, j, k).contains(isl[s][0]),
    decreases k,
{
    if s < k - 1 {
        lemma_folded_in_has(isl, ms, j, k - 1, s);
        let prev = folded_in(isl, ms, j, k - 1);
        let w = choose|w: int| 0 <= w < prev.len() && prev[w] == isl[s][0];
        assert(folded_in(isl, ms, j, k)[w] == isl[s][0]);
    } else {
        let prev = folded_in(isl, ms, j, k - 1);
        assert(folded_in(isl, ms, j, k)[prev.len() as int] == isl[s][0]);
    }
}

proof fn lemma_folded_upto_has(isl: Seq<Seq<usize>>, ms: Seq<FaceModelSpec>, k: int, j: int)
    requires
        0 <= j < k <= isl.len(),
        fold_target(isl, ms, j) is None,
    ensures
        exists|p: int|
            0 <= p < folded_upto(isl, ms, k).len() && #[trigger] folded_upto(isl, ms, k)[p] == isl[j]
                + folded_in(isl, ms, j, isl.len() as int),
    decreases k,
{
    let g = isl[j] + folded_in(isl, ms, j, isl.len() as int);
    if j < k - 1 {
        lemma_folded_upto_has(isl, ms, k - 1, j);
        let prev = folded_upto(isl, ms, k - 1);
        let p = choose|p: int| 0 <= p < prev.len() && #[trigger] prev[p] == g;
        assert(folded_upto(isl, ms, k)[p] == g);
    } else {
        let prev = folded_upto(isl, ms, k - 1);
        assert(folded_upto(isl, ms, k)[prev.len() as int] == g);
    }
}

/// Folding loses no face: every face of every island appears in some
/// island after folding.
pub proof fn lemma_fold_keeps_faces(isl: Seq<Seq<usize>>, ms: Seq<FaceModelSpec>, i: int, t: int)
    requires
        0 <= i < isl.len(),
        0 <= t < isl[i].len(),
    ensures
        has_face(folded_upto(isl, ms, isl.len() as int), isl[i][t]),
{
    let n = isl.len() as int;
    let out = folded_upto(isl, ms, n);
    let x = isl[i][t];
    match fold_target(isl, ms, i) {
        None => {
            lemma_folded_upto_has(isl, ms, n, i);
            let g = isl[i] + folded_in(isl, ms, i, n);
            let p = choose|p: int| 0 <= p < out.len() && #[trigger] out[p] == g;
            assert(out[p][t] == x);
        },
        Some(j) => {
            lemma_target_from(isl, ms, i, 0);
            assert(isl[i].len() == 1 && t == 0);
            assert(fold_target(isl, ms, j) is None);
            lemma_folded_upto_has(isl, ms, n, j);
            lemma_folded_in_has(isl, ms, j, n, i);
            let fi = folded_in(isl, ms, j, n);
            let w = choose|w: int| 0 <= w < fi.len() && fi[w] == x;
            let g = isl[j] + fi;
            let p = choose|p: int| 0 <= p < out.len() && #[trigger] out[p] == g;
            assert(out[p][isl[j].len() + w] == x);
        },
    }
}

/// `touches` is the two-point rule: some face among `grp[..k]` shares at
/// least two distinct points with face `f`.
pub proof fn lemma_touches_two_points(ms: Seq<FaceModelSpec>, grp: Seq<usize>, f: usize, k: int)
    ensures
        touches(ms, grp, f, k) <==> exists|t: int|
            0 <= t < k && #[trigger] shared_set(
                ms[f as int].point_indices,
                ms[grp[t] as int].point_indices,
            ).len() >= 2,
    decreases k,
{
    if k > 0 {
        lemma_touches_two_points(ms, grp, f, k - 1);
        if exists|t: int|
            0 <= t < k && #[trigger] shared_set(
                ms[f as int].point_indices,
                ms[grp[t] as int].point_indices,
            ).len() >= 2 {
            let t = choose|t: int|
                0 <= t < k && #[trigger] shared_set(
                    ms[f as int].point_indices,
                    ms[grp[t] as int].point_indices,
                ).len() >= 2;
            if t < k - 1 {
                assert(exists|t2: int|
                    0 <= t2 < k - 1 && #[trigger] shared_set(
                        ms[f as int].point_indices,
                        ms[grp[t2] as int].point_indices,
                    ).len() >= 2);
            }
        }
    }
}

proof fn lemma_target_from_rule(isl: Seq<Seq<usize>>, ms: Seq<FaceModelSpec>, i: int, j: int)
    requires
        0 <= i < isl.len(),
        isl[i].len() == 1,
        0 <= j,
    ensures
        fold_target_from(isl, ms, i, j) matches Some(t) ==> j <= t < isl.len() && t != i && isl[t].len()
            > 1 && (exists|u: int|
            0 <= u < isl[t].len() && #[trigger] shared_set(
                ms[isl[i][0] as int].point_indices,
                ms[isl[t][u] as int].point_indices,
            ).len() >= 2) && forall|q: int|
            j <= q < t && q != i && isl[q].len() > 1 ==> forall|u: int|
                0 <= u < isl[q].len() ==> #[trigger] shared_set(
                    ms[isl[i][0] as int].point_indices,
                    ms[isl[q][u] as int].point_indices,
                ).len() < 2,
        fold_target_from(isl, ms, i, j) is None ==> forall|q: int|
            j <= q < isl.len() && q != i && isl[q].len() > 1 ==> forall|u: int|
                0 <= u < isl[q].len() ==> #[trigger] shared_set(
                    ms[isl[i][0] as int].point_indices,
                    ms[isl[q][u] as int].point_indices,
                ).len() < 2,
    decreases isl.len() - j,
{
    if j < isl.len() {
        lemma_touches_two_points(ms, isl[j], isl[i][0], isl[j].len() as int);
        lemma_target_from_rule(isl, ms, i, j + 1);
    }
}

/// Which island a single-face island folds into: the first other island of
/// two or more faces one of whose faces shares at least two distinct points
/// with it; when no such island exists it stays on its own. Islands of two
/// or more faces never fold.
pub proof fn lemma_fold_target_rule(isl: Seq<Seq<usize>>, ms: Seq<FaceModelSpec>, i: int)
    requires
        0 <= i < isl.len(),
    ensures
        isl[i].len() != 1 ==> fold_target(isl, ms, i) is None,
        isl[i].len() == 1 ==> (fold_target(isl, ms, i) matches Some(t) ==> 0 <= t < isl.len() && t
            != i && isl[t].len() > 1 && (exists|u: int|
            0 <= u < isl[t].len() && #[trigger] shared_set(
                ms[isl[i][0] as int].point_indices,
                ms[isl[t][u] as int].point_indices,
            ).len() >= 2) && forall|q: int|
            0 <= q < t && q != i && isl[q].len() > 1 ==> forall|u: int|
                0 <= u < isl[q].len() ==> #[trigger] shared_set(
                    ms[isl[i][0] as int].point_indices,
                    ms[isl[q][u] as int].point_indices,
                ).len() < 2),
        isl[i].len() == 1 ==> (fold_target(isl, ms, i) is None <==> forall|q: int|
            0 <= q < isl.len() && q != i && isl[q].len() > 1 ==> forall|u: int|
                0 <= u < isl[q].len() ==> #[trigger] shared_set(
                    ms[isl[i][0] as int].point_indices,
                    ms[isl[q][u] as int].point_indices,
                ).len() < 2),
{
    if isl[i].len() == 1 {
        lemma_target_from_rule(isl, ms, i, 0);
    }
}

proof fn lemma_folded_in_from(isl: Seq<Seq<usize>>, ms: Seq<FaceModelSpec>, j: int, k: int, w: int)
    requires
        0 <= w < folded_in(isl, ms, j, k).len(),
    ensures
        exists|s: int|
            0 <= s < k && #[trigger] fold_target(isl, ms, s) == Some(j) && isl[s][0] == folded_in(
                isl,
                ms,
                j,
                k,
            )[w],
    decreases k,
{
    if k > 0 {
        let prev = folded_in(isl, ms, j, k - 1);
        if w < prev.len() {
            lemma_folded_in_from(isl, ms, j, k - 1, w);
            let s = choose|s: int|
                0 <= s < k - 1 && #[trigger] fold_target(isl, ms, s) == Some(j) && isl[s][0] == prev[w];
            assert(folded_in(isl, ms, j, k)[w] == prev[w]);
            assert(0 <= s < k);
        } else {
            assert(fold_target(isl, ms, k - 1) == Some(j));
        }
    }
}

/// Every face folded into island `j` (the faces that follow `j`'s own in
/// its group after folding) was a single-face island of its own, other than
/// `j`, and shares at least two distinct points with some face of `j`.
pub proof fn lemma_folded_faces_touch(isl: Seq<Seq<usize>>, ms: Seq<FaceModelSpec>, j: int, w: int)
    requires
        0 <= j < isl.len(),
        0 <= w < folded_in(isl, ms, j, isl.len() as int).len(),
    ensures
        ({
            let x = folded_in(isl, ms, j, isl.len() as int)[w];
            &&& exists|s: int| 0 <= s < isl.len() && s != j && #[trigger] isl[s] == seq![x]
            &&& exists|u: int|
                0 <= u < isl[j].len() && #[trigger] shared_set(
                    ms[x as int].point_indices,
                    ms[isl[j][u] as int].point_indices,
                ).len() >= 2
        }),
{
    let n = isl.len() as int;
    let x = folded_in(isl, ms, j, n)[w];
    lemma_folded_in_from(isl, ms, j, n, w);
    let s = choose|s: int| 0 <= s < n && #[trigger] fold_target(isl, ms, s) == Some(j) && isl[s][0] == x;
    lemma_fold_target_rule(isl, ms, s);
    assert(isl[s].len() == 1);
    assert(isl[s] =~= seq![x]);
}

} // verus!
