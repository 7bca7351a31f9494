use vstd::prelude::*;
use crate::linalg::{is_mat, mat_bounded, mat_of, vec_of};

verus! {

/// On axis `a`, the screen point `p` lies at or before `q`, both in
/// homogeneous coordinates `(x, y, z, w)` with positive weights:
/// `p[a] / p[3] <= q[a] / q[3]`.
pub open spec fn at_or_before(p: Seq<int>, q: Seq<int>, a: int) -> bool {
    p[a] * q[3] <= q[a] * p[3]
}

/// Some point of `ps` lies at or before some point of `qs` on axis `a`: the
/// least coordinate of `ps` is at most the greatest of `qs`.
pub open spec fn reaches(ps: Seq<Seq<int>>, qs: Seq<Seq<int>>, a: int) -> bool {
    exists|i: int, j: int| 0 <= i < ps.len() && 0 <= j < qs.len() && at_or_before(#[trigger] ps[i], #[trigger] qs[j], a)
}

/// The bounding boxes of the screen points `ps` and `qs` overlap on each of
/// the three axes; boxes that only touch overlap.
pub open spec fn boxes_meet(ps: Seq<Seq<int>>, qs: Seq<Seq<int>>) -> bool {
    forall|a: int| 0 <= a < 3 ==> reaches(ps, qs, a) && reaches(qs, ps, a)
}

/// The screen point `z` lies between the least and the greatest coordinate
/// of `ps` on every axis, as every point of their convex hull does.
pub open spec fn within_box(ps: Seq<Seq<int>>, z: Seq<int>) -> bool {
    forall|a: int| 0 <= a < 3 ==> #[trigger] some_before(ps, z, a) && some_after(ps, z, a)
}

/// Some point of `ps` lies at or before `z` on axis `a`.
pub open spec fn some_before(ps: Seq<Seq<int>>, z: Seq<int>, a: int) -> bool {
    exists|i: int| 0 <= i < ps.len() && at_or_before(#[trigger] ps[i], z, a)
}

/// Some point of `ps` lies at or after `z` on axis `a`.
pub open spec fn some_after(ps: Seq<Seq<int>>, z: Seq<int>, a: int) -> bool {
    exists|i: int| 0 <= i < ps.len() && at_or_before(z, #[trigger] ps[i], a)
}

/// Bound on a screen coordinate of a projected hull vertex.
pub open spec fn screen_point_limit() -> int {
    0x8000_0000
}

/// Screen points with four coordinates in bounds and a positive weight.
pub open spec fn points_ok(ps: Seq<Seq<int>>) -> bool {
    &&& is_mat(ps, ps.len(), 4)
    &&& mat_bounded(ps, screen_point_limit())
    &&& forall|i: int| 0 <= i < ps.len() ==> (#[trigger] ps[i])[3] > 0
}

pub proof fn lemma_at_or_before_trans(p: Seq<int>, q: Seq<int>, r: Seq<int>, a: int)
    requires
        p.len() == 4 && q.len() == 4 && r.len() == 4,
        0 <= a < 3,
        p[3] > 0,
        q[3] > 0,
        r[3] > 0,
        at_or_before(p, q, a),
        at_or_before(q, r, a),
    ensures
        at_or_before(p, r, a),
{
    let (x1, w1, x2, w2, x3, w3) = (p[a], p[3], q[a], q[3], r[a], r[3]);
    assert(x1 * w2 * w3 <= x2 * w1 * w3) by (nonlinear_arith)
        requires
            x1 * w2 <= x2 * w1,
            w3 > 0,
    ;
    assert(x2 * w3 * w1 <= x3 * w2 * w1) by (nonlinear_arith)
        requires
            x2 * w3 <= x3 * w2,
            w1 > 0,
    ;
    assert(x1 * w3 <= x3 * w1) by (nonlinear_arith)
        requires
            x1 * w2 * w3 <= x2 * w1 * w3,
            x2 * w3 * w1 <= x3 * w2 * w1,
            w2 > 0,
    ;
}

fn before_on(p: &Vec<i128>, q: &Vec<i128>, a: usize) -> (r: bool)
    requires
        vec_of(p).len() == 4,
        vec_of(q).len() == 4,
        a < 3,
        forall|k: int| 0 <= k < 4 ==> -screen_point_limit() <= #[trigger] vec_of(p)[k] <= screen_point_limit(),
        forall|k: int| 0 <= k < 4 ==> -screen_point_limit() <= #[trigger] vec_of(q)[k] <= screen_point_limit(),
    ensures
        r == at_or_before(vec_of(p), vec_of(q), a as int),
{
    proof {
        assert(vec_of(p)[a as int] == p@[a as int] as int);
        assert(vec_of(p)[3] == p@[3] as int);
        assert(vec_of(q)[a as int] == q@[a as int] as int);
        assert(vec_of(q)[3] == q@[3] as int);
        crate::linalg::lemma_mul_bound(p@[a as int] as int, q@[3] as int, screen_point_limit(), screen_point_limit());
        crate::linalg::lemma_mul_bound(q@[a as int] as int, p@[3] as int, screen_point_limit(), screen_point_limit());
        assert(screen_point_limit() * screen_point_limit() == 0x4000_0000_0000_0000int) by (nonlinear_arith);
    }
    p[a] * q[3] <= q[a] * p[3]
}

proof fn lemma_row(ps: &Vec<Vec<i128>>, i: int)
    requires
        points_ok(mat_of(ps)),
        0 <= i < ps@.len(),
    ensures
        vec_of(&ps@[i]) == mat_of(ps)[i],
        vec_of(&ps@[i]).len() == 4,
        forall|k: int| 0 <= k < 4 ==> -screen_point_limit() <= #[trigger] vec_of(&ps@[i])[k] <= screen_point_limit(),
        vec_of(&ps@[i])[3] > 0,
{
    assert(mat_of(ps)[i] == vec_of(&ps@[i]));
    assert(crate::linalg::vec_bounded(mat_of(ps)[i], screen_point_limit()));
}

/// The index of a point of `ps` with the least (`least`) or the greatest
/// coordinate on axis `a`.
fn extreme(ps: &Vec<Vec<i128>>, a: usize, least: bool) -> (r: usize)
    requires
        points_ok(mat_of(ps)),
        ps@.len() > 0,
        a < 3,
    ensures
        r < ps@.len(),
        least ==> forall|t: int| 0 <= t < ps@.len() ==> at_or_before(mat_of(ps)[r as int], #[trigger] mat_of(ps)[t], a as int),
        !least ==> forall|t: int| 0 <= t < ps@.len() ==> at_or_before(#[trigger] mat_of(ps)[t], mat_of(ps)[r as int], a as int),
{
    let ghost m = mat_of(ps);
    let mut best: usize = 0;
    let mut k: usize = 1;
    proof {
        lemma_row(ps, 0);
    }
    while k < ps.len()
        invariant
            m == mat_of(ps),
            points_ok(m),
            a < 3,
            1 <= k <= ps@.len(),
            best < k,
            least ==> forall|t: int| 0 <= t < k ==> at_or_before(m[best as int], #[trigger] m[t], a as int),
            !least ==> forall|t: int| 0 <= t < k ==> at_or_before(#[trigger] m[t], m[best as int], a as int),
        decreases ps@.len() - k,
    {
        proof {
            lemma_row(ps, k as int);
            lemma_row(ps, best as int);
        }
        let better = if least {
            before_on(&ps[k], &ps[best], a) 
        } else {
            before_on(&ps[best], &ps[k], a)
        };
        if better {
            proof {
                assert forall|t: int| 0 <= t < k implies (least ==> at_or_before(m[k as int], #[trigger] m[t], a as int)) && (!least ==> at_or_before(m[t], m[k as int], a as int)) by {
                    lemma_row(ps, t);
                    if least {
                        lemma_at_or_before_trans(m[k as int], m[best as int], m[t], a as int);
                    } else {
                        lemma_at_or_before_trans(m[t], m[best as int], m[k as int], a as int);
                    }
                }
            }
            best = k;
        }
        k = k + 1;
    }
    best
}

/// Whether the bounding boxes of the screen points `ps` and `qs` overlap.
pub fn boxes_overlap(ps: &Vec<Vec<i128>>, qs: &Vec<Vec<i128>>) -> (r: bool)
    requires
        points_ok(mat_of(ps)),
        points_ok(mat_of(qs)),
        ps@.len() > 0,
        qs@.len() > 0,
    ensures
        r == boxes_meet(mat_of(ps), mat_of(qs)),
{
    let ghost pm = mat_of(ps);
    let ghost qm = mat_of(qs);
    let mut a: usize = 0;
    while a < 3
        invariant
            pm == mat_of(ps),
            qm == mat_of(qs),
            points_ok(pm),
            points_ok(qm),
            ps@.len() > 0,
            qs@.len() > 0,
            a <= 3,
            forall|b: int| 0 <= b < a ==> reaches(pm, qm, b) && reaches(qm, pm, b),
        decreases 3 - a,
    {
        let pmin = extreme(ps, a, true);
        let pmax = extreme(ps, a, false);
        let qmin = extreme(qs, a, true);
        let qmax = extreme(qs, a, false);
        proof {
            lemma_row(ps, pmin as int);
            lemma_row(ps, pmax as int);
            lemma_row(qs, qmin as int);
            lemma_row(qs, qmax as int);
        }
        let lo = before_on(&ps[pmin], &qs[qmax], a);
        let hi = before_on(&qs[qmin], &ps[pmax], a);
        if !lo || !hi {
            proof {
                if !lo {
                    assert(!reaches(pm, qm, a as int)) by {
                        assert forall|i: int, j: int| 0 <= i < pm.len() && 0 <= j < qm.len() implies !at_or_before(#[trigger] pm[i], #[trigger] qm[j], a as int) by {
                            lemma_row(ps, i);
                            lemma_row(qs, j);
                            if at_or_before(pm[i], qm[j], a as int) {
                                lemma_at_or_before_trans(pm[pmin as int], pm[i], qm[j], a as int);
                                lemma_at_or_before_trans(pm[pmin as int], qm[j], qm[qmax as int], a as int);
                            }
                        }
                    }
                } else {
                    assert(!reaches(qm, pm, a as int)) by {
                        assert forall|i: int, j: int| 0 <= i < qm.len() && 0 <= j < pm.len() implies !at_or_before(#[trigger] qm[i], #[trigger] pm[j], a as int) by {
                            lemma_row(qs, i);
                            lemma_row(ps, j);
                            if at_or_before(qm[i], pm[j], a as int) {
                                lemma_at_or_before_trans(qm[qmin as int], qm[i], pm[j], a as int);
                                lemma_at_or_before_trans(qm[qmin as int], pm[j], pm[pmax as int], a as int);
                            }
                        }
                    }
                }
            }
            return false;
        }
        proof {
            assert(at_or_before(pm[pmin as int], qm[qmax as int], a as int));
            assert(at_or_before(qm[qmin as int], pm[pmax as int], a as int));
        }
        a = a + 1;
    }
    true
}

/// Every one of the points `ps` lies within their bounding box.
pub proof fn points_lie_within_box(ps: Seq<Seq<int>>, i: int)
    requires
        points_ok(ps),
        0 <= i < ps.len(),
    ensures
        within_box(ps, ps[i]),
{
    assert forall|a: int| 0 <= a < 3 implies #[trigger] some_before(ps, ps[i], a) && some_after(ps, ps[i], a) by {
        assert(at_or_before(ps[i], ps[i], a));
    }
}

/// Two sets of screen points that share a point have overlapping boxes: a
/// vertex of one cell's hull that lands on a vertex of the other's is never
/// pruned.
pub proof fn shared_point_keeps_boxes_overlapping(ps: Seq<Seq<int>>, qs: Seq<Seq<int>>, i: int, j: int)
    requires
        points_ok(ps),
        points_ok(qs),
        0 <= i < ps.len(),
        0 <= j < qs.len(),
        ps[i] == qs[j],
    ensures
        boxes_meet(ps, qs),
{
    points_lie_within_box(ps, i);
    points_lie_within_box(qs, j);
    assert(ps[i].len() == 4);
    box_test_is_conservative(ps, qs, ps[i]);
}

/// The bounding-box test never misses a contact: when a screen point lies
/// between the extremes of both sets of points on every axis (as every point
/// of both convex hulls does), their boxes overlap.
pub proof fn box_test_is_conservative(ps: Seq<Seq<int>>, qs: Seq<Seq<int>>, z: Seq<int>)
    requires
        points_ok(ps),
        points_ok(qs),
        z.len() == 4,
        z[3] > 0,
        within_box(ps, z),
        within_box(qs, z),
    ensures
        boxes_meet(ps, qs),
{
    assert forall|a: int| 0 <= a < 3 implies reaches(ps, qs, a) && reaches(qs, ps, a) by {
        assert(within_box(ps, z));
        assert(within_box(qs, z));
        assert(0 <= a < 3);
        assert(some_before(ps, z, a));
        assert(some_after(ps, z, a));
        assert(some_before(qs, z, a));
        assert(some_after(qs, z, a));
        let i = choose|i: int| 0 <= i < ps.len() && at_or_before(#[trigger] ps[i], z, a);
        let j = choose|j: int| 0 <= j < qs.len() && at_or_before(z, #[trigger] qs[j], a);
        assert(ps[i].len() == 4 && qs[j].len() == 4 && ps[i][3] > 0 && qs[j][3] > 0);
        lemma_at_or_before_trans(ps[i], z, qs[j], a);
        let i2 = choose|i: int| 0 <= i < qs.len() && at_or_before(#[trigger] qs[i], z, a);
        let j2 = choose|j: int| 0 <= j < ps.len() && at_or_before(z, #[trigger] ps[j], a);
        assert(qs[i2].len() == 4 && ps[j2].len() == 4 && qs[i2][3] > 0 && ps[j2][3] > 0);
        lemma_at_or_before_trans(qs[i2], z, ps[j2], a);
    }
}

} // verus!
