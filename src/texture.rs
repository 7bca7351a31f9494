use vstd::prelude::*;
use crate::triangle::{Triangle, Vertex, point_ok, screen_embedding_ok};
use crate::linalg::{is_mat, mat_bounded, mat_of, vec_mat, vec_of, vec_bounded, vec_mul_mat, copy_vec};

verus! {

/// A point of a texture's plane in homogeneous coordinates `(x, y, w)`.
#[derive(Clone, Copy, Debug, PartialEq, Eq)]
pub struct Point {
    pub x: i128,
    pub y: i128,
    pub w: i128,
}

/// A two-dimensional patch of a cell's surface.
pub struct Texture {
    /// The map from the patch's plane `(x, y, w)` into the frame of its
    /// cell (4 by 3).
    pub embedding: Vec<Vec<i128>>,
    /// The boundary loops of the patch's shape in its plane. The points of
    /// one loop share one positive weight.
    pub poly: Vec<Vec<Point>>,
}

impl Texture {
    /// The embedding is a 4 by 3 matrix with entries in `[-256, 256]`.
    pub open spec fn wf(&self) -> bool {
        is_mat(mat_of(&self.embedding), 4, 3) && mat_bounded(mat_of(&self.embedding), 256)
    }

    /// The boundary loops of the shape.
    pub open spec fn loops(&self) -> Seq<Seq<Point>> {
        self.poly@.map_values(|l: Vec<Point>| l@)
    }
}


/// The four half-planes `±x + 1000 w >= 0`, `±y + 1000 w >= 0` of a large
/// square that bounds every region.
pub open spec fn giant_square_lines() -> Seq<Seq<int>> {
    seq![seq![1int, 0, 1000], seq![0int, 1, 1000], seq![-1int, 0, 1000], seq![0int, -1, 1000]]
}

/// All coefficients of `l` are zero.
pub open spec fn is_zero(l: Seq<int>) -> bool {
    forall|k: int| 0 <= k < l.len() ==> l[k] == 0
}

/// A constraint `h` on screen-with-depth coordinates as a line of a texture's
/// plane: mapped through `m` into the cell's frame, then through `t` into the
/// texture's plane.
pub open spec fn plane_line(h: Seq<int>, m: Seq<Seq<int>>, t: Seq<Seq<int>>) -> Seq<int> {
    vec_mat(vec_mat(h, m, 4), t, 3)
}

/// The lines of a region's constraints in a texture's plane, in order,
/// without those whose coefficients are all zero.
pub open spec fn plane_lines(region: Seq<Seq<int>>, m: Seq<Seq<int>>, t: Seq<Seq<int>>) -> Seq<Seq<int>>
    decreases region.len(),
{
    if region.len() == 0 {
        Seq::empty()
    } else {
        let rest = plane_lines(region.drop_last(), m, t);
        let l = plane_line(region.last(), m, t);
        if is_zero(l) {
            rest
        } else {
            rest.push(l)
        }
    }
}

/// The boundaries of the polygon that a region cuts out of a texture's plane:
/// its lines, then the giant square's.
pub open spec fn region_boundaries(region: Seq<Seq<int>>, m: Seq<Seq<int>>, t: Seq<Seq<int>>) -> Seq<Seq<int>> {
    plane_lines(region, m, t) + giant_square_lines()
}

/// The four half-planes of the giant square.
pub fn giant_square() -> (r: Vec<Vec<i128>>)
    ensures
        mat_of(&r) == giant_square_lines(),
{
    let r = vec![vec![1i128, 0, 1000], vec![0i128, 1, 1000], vec![-1i128, 0, 1000], vec![0i128, -1, 1000]];
    proof {
        assert(mat_of(&r) =~= giant_square_lines()) by {
            assert(vec_of(&r@[0]) =~= giant_square_lines()[0]);
            assert(vec_of(&r@[1]) =~= giant_square_lines()[1]);
            assert(vec_of(&r@[2]) =~= giant_square_lines()[2]);
            assert(vec_of(&r@[3]) =~= giant_square_lines()[3]);
        }
    }
    r
}

fn all_zero(l: &Vec<i128>) -> (r: bool)
    ensures
        r == is_zero(vec_of(l)),
{
    let mut k: usize = 0;
    while k < l.len()
        invariant
            k <= l@.len(),
            forall|q: int| 0 <= q < k ==> vec_of(l)[q] == 0,
        decreases l@.len() - k,
    {
        if l[k] != 0 {
            proof {
                assert(vec_of(l)[k as int] != 0);
            }
            return false;
        }
        k = k + 1;
    }
    true
}

/// Bound on the coefficients of a constraint mapped into a cell's frame.
pub open spec fn cell_line_bound() -> int {
    453347182355485940514816000000
}

/// Bound on the coefficients of a line of a texture's plane.
pub open spec fn plane_line_bound() -> int {
    464227514732017603087171584000000
}

proof fn lemma_line_bounds()
    ensures
        5 * (276701161105643274240000 * 327680) == cell_line_bound(),
        4 * (cell_line_bound() * 256) == plane_line_bound(),
        plane_line_bound() <= i128::MAX,
{
    assert(5 * (276701161105643274240000int * 327680) == 453347182355485940514816000000int) by (nonlinear_arith);
    assert(4 * (453347182355485940514816000000int * 256) == 464227514732017603087171584000000int) by (nonlinear_arith);
}

/// The boundaries of the polygon that `region`, constraints on
/// screen-with-depth coordinates, cuts out of the plane of a texture with
/// embedding `t`, for a cell whose map into screen-with-depth coordinates is
/// `m`.
pub fn region_to_polygon(region: &Vec<Vec<i128>>, m: &Vec<Vec<i128>>, t: &Vec<Vec<i128>>) -> (r: Vec<Vec<i128>>)
    requires
        is_mat(mat_of(region), region@.len() as nat, 5),
        mat_bounded(mat_of(region), 276701161105643274240000),
        is_mat(mat_of(m), 5, 4),
        mat_bounded(mat_of(m), 327680),
        is_mat(mat_of(t), 4, 3),
        mat_bounded(mat_of(t), 256),
    ensures
        mat_of(&r) == region_boundaries(mat_of(region), mat_of(m), mat_of(t)),
{
    let ghost rg = mat_of(region);
    let ghost mm = mat_of(m);
    let ghost tt = mat_of(t);
    proof {
        lemma_line_bounds();
    }
    let mut r: Vec<Vec<i128>> = Vec::new();
    let mut k: usize = 0;
    while k < region.len()
        invariant
            k <= region@.len(),
            rg == mat_of(region),
            mm == mat_of(m),
            tt == mat_of(t),
            is_mat(rg, region@.len() as nat, 5),
            mat_bounded(rg, 276701161105643274240000),
            is_mat(mm, 5, 4),
            mat_bounded(mm, 327680),
            is_mat(tt, 4, 3),
            mat_bounded(tt, 256),
            5 * (276701161105643274240000 * 327680) == cell_line_bound(),
            4 * (cell_line_bound() * 256) == plane_line_bound(),
            plane_line_bound() <= i128::MAX,
            mat_of(&r) == plane_lines(rg.take(k as int), mm, tt),
        decreases region@.len() - k,
    {
        proof {
            assert(rg[k as int] == vec_of(&region@[k as int]));
        }
        let h = vec_mul_mat(&region[k], m, 4, Ghost(276701161105643274240000), Ghost(327680));
        let l = vec_mul_mat(&h, t, 3, Ghost(cell_line_bound()), Ghost(256));
        proof {
            assert(rg.take(k as int + 1).drop_last() =~= rg.take(k as int));
            assert(rg.take(k as int + 1).last() == rg[k as int]);
        }
        if !all_zero(&l) {
            let ghost before = mat_of(&r);
            r.push(l);
            proof {
                assert(mat_of(&r) =~= before.push(vec_of(&l)));
            }
        }
        k = k + 1;
    }
    proof {
        assert(rg.take(k as int) =~= rg);
    }
    let sq = giant_square();
    proof {
        assert(mat_of(&sq).len() == sq@.len());
    }
    let mut q: usize = 0;
    let ghost lines = mat_of(&r);
    while q < 4
        invariant
            q <= 4,
            mat_of(&sq) == giant_square_lines(),
            sq@.len() == 4,
            mat_of(&r) == lines + giant_square_lines().take(q as int),
        decreases 4 - q,
    {
        let ghost before = mat_of(&r);
        r.push(copy_vec(&sq[q]));
        proof {
            assert(mat_of(&sq)[q as int] == vec_of(&sq@[q as int]));
            assert(mat_of(&r) =~= before.push(giant_square_lines()[q as int]));
            assert(lines + giant_square_lines().take(q as int + 1) =~= (lines + giant_square_lines().take(q as int)).push(giant_square_lines()[q as int]));
        }
        q = q + 1;
    }
    proof {
        assert(giant_square_lines().take(4) =~= giant_square_lines());
    }
    r
}


/// `a.x b.y - a.y b.x`.
pub open spec fn cross(a: Point, b: Point) -> int {
    a.x * b.y - a.y * b.x
}

/// The shoelace sum over the first `k` edges of the loop `l`.
pub open spec fn shoelace_upto(l: Seq<Point>, k: int) -> int
    decreases k,
{
    if k <= 0 {
        0
    } else {
        shoelace_upto(l, k - 1) + cross(l[k - 1], l[k % (l.len() as int)])
    }
}

/// The shoelace sum of the homogeneous coordinates of the loop `l`. For
/// points of one common weight `w > 0`, the shoelace sum of the points
/// divided by their weight (twice the loop's signed area) is this sum divided
/// by `w * w`, so the two have the same sign.
pub open spec fn shoelace(l: Seq<Point>) -> int {
    shoelace_upto(l, l.len() as int)
}

/// The points of `l` in the opposite order.
pub open spec fn reversed(l: Seq<Point>) -> Seq<Point> {
    Seq::new(l.len(), |i: int| l[l.len() - 1 - i])
}

/// The loop `l` turned counterclockwise: reversed when its area is negative.
pub open spec fn oriented(l: Seq<Point>) -> Seq<Point> {
    if shoelace(l) < 0 {
        reversed(l)
    } else {
        l
    }
}

/// A boundary loop that this library can triangulate: fewer than `2^40`
/// points, each within bounds, all of one weight.
pub open spec fn loop_ok(l: Seq<Point>) -> bool {
    &&& l.len() <= 0x100_0000_0000
    &&& forall|i: int| 0 <= i < l.len() ==> point_ok(#[trigger] l[i])
    &&& forall|i: int| 0 <= i < l.len() ==> (#[trigger] l[i]).w == l[0].w
}

/// The number of triangles of the fan of a loop of `n` points.
pub open spec fn fan_size(n: int) -> int {
    if n >= 2 {
        n - 2
    } else {
        0
    }
}

/// The (loop, triangle) pairs of the fans of the first `n` loops, in order.
pub open spec fn fan_keys(loops: Seq<Seq<Point>>, n: int) -> Seq<(int, int)>
    decreases n,
{
    if n <= 0 {
        Seq::empty()
    } else {
        fan_keys(loops, n - 1) + Seq::new(fan_size(loops[n - 1].len() as int) as nat, |k: int| (n - 1, k))
    }
}

/// `t` is triangle `k` of the fan of the oriented loop `l` of a texture with
/// embedding `e`.
pub open spec fn is_fan_triangle(t: Triangle, l: Seq<Point>, k: int, e: Seq<Seq<int>>) -> bool {
    let o = oriented(l);
    &&& t.vertices[0].is_point(o[0], e)
    &&& t.vertices[1].is_point(o[k + 1], e)
    &&& t.vertices[2].is_point(o[k + 2], e)
    &&& t.negated == (shoelace(seq![o[0], o[k + 1], o[k + 2]]) < 0)
}

/// `r` is the triangulation of texture `t`: one fan triangle per key of
/// `fan_keys`, in order.
pub open spec fn is_triangulation(t: Texture, r: Seq<Triangle>) -> bool {
    &&& r.len() == fan_keys(t.loops(), t.poly@.len() as int).len()
    &&& forall|q: int| 0 <= q < r.len() ==> {
        let key = #[trigger] fan_keys(t.loops(), t.poly@.len() as int)[q];
        is_fan_triangle(r[q], t.poly@[key.0]@, key.1, mat_of(&t.embedding))
    }
}

/// Two triangulations of the same texture hold the same triangles in the
/// same order: same vertices, same texture coordinates, same sign.
pub proof fn triangulation_is_deterministic(t: Texture, r1: Seq<Triangle>, r2: Seq<Triangle>)
    requires
        is_triangulation(t, r1),
        is_triangulation(t, r2),
    ensures
        r1.len() == r2.len(),
        forall|q: int| 0 <= q < r1.len() ==> {
            &&& (#[trigger] r1[q]).negated == r2[q].negated
            &&& forall|v: int| 0 <= v < 3 ==> (#[trigger] r1[q].vertices[v]).position@ == r2[q].vertices[v].position@
                && r1[q].vertices[v].texcoord@ == r2[q].vertices[v].texcoord@
        },
{
    assert forall|q: int| 0 <= q < r1.len() implies {
        &&& (#[trigger] r1[q]).negated == r2[q].negated
        &&& forall|v: int| 0 <= v < 3 ==> (#[trigger] r1[q].vertices[v]).position@ == r2[q].vertices[v].position@
            && r1[q].vertices[v].texcoord@ == r2[q].vertices[v].texcoord@
    } by {
        let key = fan_keys(t.loops(), t.poly@.len() as int)[q];
        assert(is_fan_triangle(r1[q], t.poly@[key.0]@, key.1, mat_of(&t.embedding)));
        assert(is_fan_triangle(r2[q], t.poly@[key.0]@, key.1, mat_of(&t.embedding)));
        assert forall|v: int| 0 <= v < 3 implies (#[trigger] r1[q].vertices[v]).position@ == r2[q].vertices[v].position@
            && r1[q].vertices[v].texcoord@ == r2[q].vertices[v].texcoord@ by {
            let a = r1[q].vertices[v].position@;
            let b = r2[q].vertices[v].position@;
            assert(a.map_values(|x: i128| x as int) == b.map_values(|x: i128| x as int));
            assert(a.len() == b.len());
            assert forall|c: int| 0 <= c < a.len() implies a[c] == b[c] by {
                assert(a.map_values(|x: i128| x as int)[c] == b.map_values(|x: i128| x as int)[c]);
            }
            assert(a =~= b);
        }
    }
}

proof fn lemma_cross_bound(a: Point, b: Point)
    requires
        point_ok(a),
        point_ok(b),
    ensures
        -0x2_0000_0000_0000_0000_0000 <= cross(a, b) <= 0x2_0000_0000_0000_0000_0000,
        -0x1_0000_0000_0000_0000_0000 <= a.x * b.y <= 0x1_0000_0000_0000_0000_0000,
        -0x1_0000_0000_0000_0000_0000 <= a.y * b.x <= 0x1_0000_0000_0000_0000_0000,
{
    crate::linalg::lemma_mul_bound(a.x as int, b.y as int, 0x100_0000_0000, 0x100_0000_0000);
    crate::linalg::lemma_mul_bound(a.y as int, b.x as int, 0x100_0000_0000, 0x100_0000_0000);
    assert(0x100_0000_0000int * 0x100_0000_0000 == 0x1_0000_0000_0000_0000_0000int) by (nonlinear_arith);
}

/// `-1`, `0` or `1` as `x` is negative, zero or positive.
pub open spec fn sign(x: int) -> int {
    if x < 0 {
        -1
    } else if x == 0 {
        0
    } else {
        1
    }
}

/// The sign of the signed area of the loop `l`: of the shoelace sum of its
/// points divided by their common positive weight, which is `shoelace(l)`
/// divided by the square of that weight.
pub open spec fn area_sign(l: Seq<Point>) -> int {
    sign(shoelace(l))
}

/// The loop `l` with every coordinate of every point multiplied by `c`.
pub open spec fn scaled(l: Seq<Point>, c: int) -> Seq<Point> {
    Seq::new(l.len(), |i: int| Point { x: (c * l[i].x) as i128, y: (c * l[i].y) as i128, w: (c * l[i].w) as i128 })
}

proof fn lemma_shoelace_scaled(l: Seq<Point>, c: int, k: int)
    requires
        0 <= k <= l.len(),
        forall|i: int| 0 <= i < l.len() ==> {
            &&& i128::MIN <= #[trigger] (c * l[i].x) <= i128::MAX
            &&& i128::MIN <= c * l[i].y <= i128::MAX
            &&& i128::MIN <= c * l[i].w <= i128::MAX
        },
    ensures
        shoelace_upto(scaled(l, c), k) == c * c * shoelace_upto(l, k),
    decreases k,
{
    if k > 0 {
        lemma_shoelace_scaled(l, c, k - 1);
        let n = l.len() as int;
        let i = k - 1;
        let j = k % n;
        assert(0 <= j < n) by {
            vstd::arithmetic::div_mod::lemma_mod_bound(k, n);
        }
        let s = scaled(l, c);
        assert(s[i].x == c * l[i].x && s[i].y == c * l[i].y);
        assert(s[j].x == c * l[j].x && s[j].y == c * l[j].y);
        let (xi, yi, xj, yj) = (l[i].x as int, l[i].y as int, l[j].x as int, l[j].y as int);
        let cc = c * c;
        let a = xi * yj;
        let b = yi * xj;
        let prev = shoelace_upto(l, k - 1);
        assert((c * xi) * (c * yj) == cc * a) by (nonlinear_arith)
            requires
                cc == c * c,
                a == xi * yj,
        ;
        assert((c * yi) * (c * xj) == cc * b) by (nonlinear_arith)
            requires
                cc == c * c,
                b == yi * xj,
        ;
        assert(cc * prev + (cc * a - cc * b) == cc * (prev + (a - b))) by (nonlinear_arith);
        assert(cross(s[i], s[j]) == cc * a - cc * b);
        assert(cross(l[i], l[j]) == a - b);
    }
}

/// The area's sign does not depend on which homogeneous coordinates stand
/// for the points: multiplying all of them by one positive number keeps it.
pub proof fn area_sign_ignores_representative(l: Seq<Point>, c: int)
    requires
        c > 0,
        forall|i: int| 0 <= i < l.len() ==> {
            &&& i128::MIN <= #[trigger] (c * l[i].x) <= i128::MAX
            &&& i128::MIN <= c * l[i].y <= i128::MAX
            &&& i128::MIN <= c * l[i].w <= i128::MAX
        },
    ensures
        area_sign(scaled(l, c)) == area_sign(l),
{
    lemma_shoelace_scaled(l, c, l.len() as int);
    assert(scaled(l, c).len() == l.len());
    let s = shoelace(l);
    assert(c * c > 0) by (nonlinear_arith)
        requires
            c > 0,
    ;
    assert(s < 0 ==> c * c * s < 0) by (nonlinear_arith)
        requires
            c * c > 0,
    ;
    assert(s > 0 ==> c * c * s > 0) by (nonlinear_arith)
        requires
            c * c > 0,
    ;
    assert(shoelace(scaled(l, c)) == c * c * s);
    assert(s == 0 ==> c * c * s == 0) by (nonlinear_arith);
}

/// The sign of the signed area of a loop of points (`-1`, `0` or `1`): the
/// sign of the shoelace sum of the points divided by their weight. All points
/// of the loop share one positive weight, which keeps the computation exact
/// in integers.
pub fn area(p: &[Point]) -> (r: i128)
    requires
        loop_ok(p@),
    ensures
        r == area_sign(p@),
{
    let n = p.len();
    let mut out: i128 = 0;
    let mut i: usize = 0;
    while i < n
        invariant
            n == p@.len(),
            loop_ok(p@),
            i <= n,
            out == shoelace_upto(p@, i as int),
            -(i * 0x2_0000_0000_0000_0000_0000) <= out <= i * 0x2_0000_0000_0000_0000_0000,
        decreases n - i,
    {
        let j: usize = if i + 1 < n { i + 1 } else { 0 };
        proof {
            if i + 1 < n {
                vstd::arithmetic::div_mod::lemma_small_mod((i + 1) as nat, n as nat);
            } else {
                vstd::arithmetic::div_mod::lemma_mod_self_0(n as int);
            }
            assert(j == (i as int + 1) % (n as int));
            lemma_cross_bound(p@[i as int], p@[j as int]);
        }
        let a = p[i];
        let b = p[j];
        out = out + (a.x * b.y - a.y * b.x);
        i = i + 1;
    }
    if out < 0 {
        -1
    } else if out == 0 {
        0
    } else {
        1
    }
}

/// The line through the points `a` and `b`: their cross product
/// `(a.y b.w - a.w b.y, a.w b.x - a.x b.w, a.x b.y - a.y b.x)`. A point `q`
/// is on its positive side when `a`, `b`, `q` turn counterclockwise.
pub open spec fn line_through(a: Point, b: Point) -> Seq<int> {
    seq![
        a.y * b.w - a.w * b.y,
        a.w * b.x - a.x * b.w,
        a.x * b.y - a.y * b.x,
    ]
}

/// The lines along the edges of the loop `l`, edge `k` going from point `k`
/// to the next one.
pub open spec fn edge_lines(l: Seq<Point>) -> Seq<Seq<int>> {
    Seq::new(l.len(), |k: int| line_through(l[k], l[(k + 1) % (l.len() as int)]))
}

/// The lines along the edges of a loop. For a convex counterclockwise loop
/// these are the half-planes whose intersection is the polygon it bounds.
pub fn loop_boundaries(p: &[Point]) -> (r: Vec<Vec<i128>>)
    requires
        loop_ok(p@),
    ensures
        mat_of(&r) == edge_lines(p@),
{
    let n = p.len();
    let mut r: Vec<Vec<i128>> = Vec::new();
    let mut i: usize = 0;
    while i < n
        invariant
            n == p@.len(),
            loop_ok(p@),
            i <= n,
            r@.len() == i,
            forall|q: int| 0 <= q < i ==> vec_of(&#[trigger] r@[q]) == edge_lines(p@)[q],
        decreases n - i,
    {
        let j: usize = if i + 1 < n { i + 1 } else { 0 };
        proof {
            if i + 1 < n {
                vstd::arithmetic::div_mod::lemma_small_mod((i + 1) as nat, n as nat);
            } else {
                vstd::arithmetic::div_mod::lemma_mod_self_0(n as int);
            }
            assert(j == (i as int + 1) % (n as int));
        }
        let a = p[i];
        let b = p[j];
        proof {
            let l = 0x100_0000_0000int;
            crate::linalg::lemma_mul_bound(a.y as int, b.w as int, l, l);
            crate::linalg::lemma_mul_bound(a.w as int, b.y as int, l, l);
            crate::linalg::lemma_mul_bound(a.w as int, b.x as int, l, l);
            crate::linalg::lemma_mul_bound(a.x as int, b.w as int, l, l);
            crate::linalg::lemma_mul_bound(a.x as int, b.y as int, l, l);
            crate::linalg::lemma_mul_bound(a.y as int, b.x as int, l, l);
            assert(0x100_0000_0000int * 0x100_0000_0000 == 0x1_0000_0000_0000_0000_0000int) by (nonlinear_arith);
            assert(l * l == 0x1_0000_0000_0000_0000_0000int);
        }
        let c0 = a.y * b.w - a.w * b.y;
        let c1 = a.w * b.x - a.x * b.w;
        let c2 = a.x * b.y - a.y * b.x;
        let line = vec![c0, c1, c2];
        proof {
            assert(vec_of(&line) =~= edge_lines(p@)[i as int]);
        }
        r.push(line);
        i = i + 1;
    }
    proof {
        assert(mat_of(&r) =~= edge_lines(p@));
    }
    r
}

fn reverse_loop(l: &Vec<Point>) -> (r: Vec<Point>)
    ensures
        r@ == reversed(l@),
{
    let mut r: Vec<Point> = Vec::new();
    let mut k: usize = l.len();
    while k > 0
        invariant
            k <= l@.len(),
            r@.len() == l@.len() - k,
            forall|q: int| 0 <= q < r@.len() ==> #[trigger] r@[q] == l@[l@.len() - 1 - q],
        decreases k,
    {
        k = k - 1;
        r.push(l[k]);
    }
    proof {
        assert(r@ =~= reversed(l@));
    }
    r
}

impl Texture {
    /// The triangles that draw this texture: for each boundary loop of its
    /// shape, turned counterclockwise, the fan from its first point over each
    /// two consecutive later points. A triangle is negated when its own area
    /// is negative, which is only right for shapes without holes.
    pub fn get_triangles(self) -> (r: Vec<Triangle>)
        requires
            screen_embedding_ok(mat_of(&self.embedding)),
            forall|k: int| 0 <= k < self.poly@.len() ==> loop_ok((#[trigger] self.poly@[k])@),
        ensures
            is_triangulation(self, r@),
    {
        let ghost loops = self.loops();
        let ghost e = mat_of(&self.embedding);
        let mut out: Vec<Triangle> = Vec::new();
        let mut li: usize = 0;
        while li < self.poly.len()
            invariant
                loops == self.loops(),
                e == mat_of(&self.embedding),
                screen_embedding_ok(e),
                forall|k: int| 0 <= k < self.poly@.len() ==> loop_ok((#[trigger] self.poly@[k])@),
                li <= self.poly@.len(),
                out@.len() == fan_keys(loops, li as int).len(),
                forall|q: int| 0 <= q < out@.len() ==> {
                    let key = #[trigger] fan_keys(loops, li as int)[q];
                    is_fan_triangle(out@[q], self.poly@[key.0]@, key.1, e)
                },
            decreases self.poly@.len() - li,
        {
            let polygon = &self.poly[li];
            let ghost l = polygon@;
            proof {
                assert(loop_ok(l));
                assert(loops[li as int] == l);
            }
            let a = area(polygon.as_slice());
            let o: Vec<Point> = if a < 0 { reverse_loop(polygon) } else { reverse_loop(&reverse_loop(polygon)) };
            proof {
                if a >= 0 {
                    assert(reversed(reversed(l)) =~= l);
                }
                assert(o@ == oriented(l));
            }
            let ghost before = fan_keys(loops, li as int);
            let ghost added = Seq::new(fan_size(l.len() as int) as nat, |k: int| (li as int, k));
            proof {
                assert(fan_keys(loops, li as int + 1) == before + added);
            }
            if o.len() >= 3 {
                let v1 = o[0];
                let mut k: usize = 0;
                while k < o.len() - 2
                    invariant
                        li < self.poly@.len(),
                        e == mat_of(&self.embedding),
                        screen_embedding_ok(e),
                        loop_ok(l),
                        l == self.poly@[li as int]@,
                        o@ == oriented(l),
                        o@.len() == l.len(),
                        o@.len() >= 3,
                        v1 == o@[0],
                        k + 2 <= o@.len(),
                        added == Seq::new(fan_size(l.len() as int) as nat, |q: int| (li as int, q)),
                        out@.len() == before.len() + k,
                        forall|q: int| 0 <= q < out@.len() ==> {
                            let key = #[trigger] (before + added)[q];
                            is_fan_triangle(out@[q], self.poly@[key.0]@, key.1, e)
                        },
                    decreases o@.len() - k,
                {
                    let v2 = o[k + 1];
                    let v3 = o[k + 2];
                    proof {
                        assert(forall|q: int| 0 <= q < o@.len() ==> #[trigger] o@[q] == l[q] || o@[q] == l[l.len() - 1 - q]);
                        assert(point_ok(v1) && point_ok(v2) && point_ok(v3));
                        assert(v1.w == l[0].w && v2.w == l[0].w && v3.w == l[0].w);
                    }
                    let tri = vec![v1, v2, v3];
                    proof {
                        assert(tri@ =~= seq![v1, v2, v3]);
                    }
                    let t = Triangle {
                        negated: area(tri.as_slice()) < 0,
                        vertices: [Vertex::new(v1, &self.embedding), Vertex::new(v2, &self.embedding), Vertex::new(v3, &self.embedding)],
                    };
                    let ghost old_out = out@;
                    out.push(t);
                    proof {
                        assert forall|q: int| 0 <= q < out@.len() implies {
                            let key = #[trigger] (before + added)[q];
                            is_fan_triangle(out@[q], self.poly@[key.0]@, key.1, e)
                        } by {
                            if q < old_out.len() {
                                assert(out@[q] == old_out[q]);
                            } else {
                                assert((before + added)[q] == added[k as int]);
                            }
                        }
                    }
                    k = k + 1;
                }
            } else {
                proof {
                    assert(added =~= Seq::<(int, int)>::empty());
                    assert(before + added =~= before);
                }
            }
            li = li + 1;
        }
        out
    }
}

} // verus!
