use vstd::prelude::*;
use crate::linalg::{
    det4, det4_of, is_mat, mat_bounded, mat_mul, mat_mul_mat, mat_of, vec_bounded, vec_mat,
    vec_mul_mat, vec_of, copy_vec, lemma_quartic_bound,
};
use crate::pruning::{boxes_meet, boxes_overlap, points_ok};
use crate::texture::{Texture, region_boundaries, region_to_polygon};
use crate::projective::{
    adjugate, adjugate_of, faces_camera, forget_depth, hyperplane, matrix_forget_depth,
    region_behind,
};

verus! {

/// Largest magnitude of an entry of a camera, an embedding or a boundary
/// constraint given to this library.
pub const COORD_LIMIT: i128 = 256;

/// Bound on the entries of a camera times a cell embedding.
pub open spec fn cell_bound() -> int {
    327680
}

/// Bound on the entries of a cell's map into screen coordinates.
pub open spec fn screen_bound() -> int {
    1638400
}

/// Bound on the entries of the map from screen-with-depth coordinates back
/// into a cell's own frame.
pub open spec fn back_bound() -> int {
    105553116266496000000
}

/// Bound on the entries of the adjugate of a cell's map into screen
/// coordinates.
pub open spec fn adjugate_bound() -> int {
    26388279066624000000
}

/// Bound on the coefficients of an occluder constraint in its cell's frame.
pub open spec fn occluder_bound() -> int {
    276701161105643274240000
}

/// How the bounds above follow from one another.
proof fn lemma_bounds()
    ensures
        5 * (256 * 256) == cell_bound(),
        5 * (1 * cell_bound()) == screen_bound(),
        6 * (screen_bound() * (screen_bound() * screen_bound())) == adjugate_bound(),
        4 * (adjugate_bound() * 1) == back_bound(),
        4 * (256 * back_bound()) <= occluder_bound(),
        24 * (cell_bound() * (cell_bound() * (cell_bound() * cell_bound()))) == occluder_bound(),
{
    assert(5 * (256 * 256) == 327680int) by (nonlinear_arith);
    assert(5 * (1 * 327680) == 1638400int) by (nonlinear_arith);
    assert(6 * (1638400 * (1638400 * 1638400)) == 26388279066624000000int) by (nonlinear_arith);
    assert(4 * (26388279066624000000 * 1) == 105553116266496000000int) by (nonlinear_arith);
    assert(4 * (256 * 105553116266496000000) <= 276701161105643274240000int) by (nonlinear_arith);
    assert(24 * (327680 * (327680 * (327680 * 327680))) == 276701161105643274240000int) by (nonlinear_arith);
}

/// Every row of `a` has `c` entries in `[-b, b]`.
pub open spec fn rows_ok(a: Seq<Seq<int>>, c: nat, b: int) -> bool {
    is_mat(a, a.len(), c) && mat_bounded(a, b)
}

/// The integer values of a list of matrices.
pub open spec fn mats_of(v: &Vec<Vec<Vec<i128>>>) -> Seq<Seq<Seq<int>>> {
    v@.map_values(|m: Vec<Vec<i128>>| mat_of(&m))
}

/// `a` with every entry negated.
pub open spec fn negate(a: Seq<Seq<int>>) -> Seq<Seq<int>> {
    a.map_values(|r: Seq<int>| r.map_values(|x: int| -x))
}

/// The adjugate of `a` with the sign of the determinant of `a`: the inverse
/// of `a` times the absolute value of its determinant. It describes the same
/// half-spaces as the inverse does.
pub open spec fn positive_inverse(a: Seq<Seq<int>>) -> Seq<Seq<int>> {
    if det4(a) < 0 {
        negate(adjugate(a))
    } else {
        adjugate(a)
    }
}

/// The map from a cell's frame into screen-with-depth coordinates.
pub open spec fn to_screen_depth(p: Seq<Seq<int>>, e: Seq<Seq<int>>) -> Seq<Seq<int>> {
    mat_mul(p, e, 4)
}

/// The map from a cell's frame into screen coordinates.
pub open spec fn to_screen(p: Seq<Seq<int>>, e: Seq<Seq<int>>) -> Seq<Seq<int>> {
    mat_mul(forget_depth(), to_screen_depth(p, e), 4)
}

/// The cell's map into screen coordinates is singular.
pub open spec fn is_singular(p: Seq<Seq<int>>, e: Seq<Seq<int>>) -> bool {
    det4(to_screen(p, e)) == 0
}

/// The map from screen-with-depth coordinates back into the cell's frame.
pub open spec fn screen_depth_to_local(p: Seq<Seq<int>>, e: Seq<Seq<int>>) -> Seq<Seq<int>> {
    mat_mul(positive_inverse(to_screen(p, e)), forget_depth(), 5)
}

/// One boundary region of a cell, as constraints in screen-with-depth
/// coordinates, with the cell's own outward hyperplane appended.
pub open spec fn occluder_region(p: Seq<Seq<int>>, e: Seq<Seq<int>>, region: Seq<Seq<int>>) -> Seq<Seq<int>> {
    region.map_values(|h: Seq<int>| vec_mat(h, screen_depth_to_local(p, e), 5)).push(
        hyperplane(to_screen_depth(p, e)),
    )
}

/// The occluder regions that a cell with embedding `e` and boundary regions
/// `regions` casts under the camera `p`: none when its map into screen
/// coordinates is singular or when it faces away from the camera.
pub open spec fn occluder_regions(p: Seq<Seq<int>>, e: Seq<Seq<int>>, regions: Seq<Seq<Seq<int>>>) -> Seq<Seq<Seq<int>>> {
    if is_singular(p, e) || !faces_camera(to_screen_depth(p, e)) {
        Seq::empty()
    } else {
        regions.map_values(|r: Seq<Seq<int>>| occluder_region(p, e, r))
    }
}

/// A valid camera: a 5 by 5 matrix with entries in `[-256, 256]`.
pub open spec fn camera_ok(p: Seq<Seq<int>>) -> bool {
    is_mat(p, 5, 5) && mat_bounded(p, COORD_LIMIT as int)
}

fn negate_mat(a: &Vec<Vec<i128>>, b: Ghost<int>) -> (r: Vec<Vec<i128>>)
    requires
        rows_ok(mat_of(a), 4, b@),
        0 <= b@ <= i128::MAX,
    ensures
        mat_of(&r) == negate(mat_of(a)),
        rows_ok(mat_of(&r), 4, b@),
        r@.len() == a@.len(),
{
    let ghost m = mat_of(a);
    let mut r: Vec<Vec<i128>> = Vec::new();
    let mut i: usize = 0;
    while i < a.len()
        invariant
            i <= a@.len(),
            m == mat_of(a),
            rows_ok(m, 4, b@),
            0 <= b@ <= i128::MAX,
            r@.len() == i,
            forall|t: int| 0 <= t < i ==> vec_of(&#[trigger] r@[t]) == negate(m)[t],
        decreases a@.len() - i,
    {
        let ghost mi = m[i as int];
        proof {
            assert(m[i as int] == vec_of(&a@[i as int]));
            assert(vec_bounded(mi, b@));
        }
        let mut row: Vec<i128> = Vec::new();
        let mut j: usize = 0;
        while j < a[i].len()
            invariant
                i < a@.len(),
                j <= a@[i as int]@.len(),
                mi == vec_of(&a@[i as int]),
                vec_bounded(mi, b@),
                0 <= b@ <= i128::MAX,
                row@.len() == j,
                forall|t: int| 0 <= t < j ==> (#[trigger] row@[t]) as int == -mi[t],
            decreases a@[i as int]@.len() - j,
        {
            proof {
                assert(mi[j as int] == a@[i as int]@[j as int] as int);
            }
            row.push(-a[i][j]);
            j = j + 1;
        }
        proof {
            assert(vec_of(&row) =~= negate(m)[i as int]);
        }
        r.push(row);
        i = i + 1;
    }
    proof {
        assert(mat_of(&r) =~= negate(m));
        assert forall|t: int| 0 <= t < r@.len() implies #[trigger] mat_of(&r)[t].len() == 4 && vec_bounded(mat_of(&r)[t], b@) by {
            assert(mat_of(&r)[t] == negate(m)[t]);
            assert(vec_bounded(m[t], b@));
        }
    }
    r
}


/// A three-dimensional cell of the boundary of a four-dimensional mesh.
pub struct Facet {
    /// The map from the cell's frame (4 coordinates) into the mesh's space
    /// (5 coordinates).
    pub embedding: Vec<Vec<i128>>,
    /// Convex regions of the cell's boundary, each a list of half-space
    /// constraints (4 coefficients each) in the cell's frame.
    pub regions: Vec<Vec<Vec<i128>>>,
    /// The patches that cover the cell.
    pub texture: Vec<Texture>,
    /// Vertices of the cell in its frame (4 coordinates each), used to bound
    /// its image on screen; may be empty.
    pub convex_hull: Vec<Vec<i128>>,
}

impl Facet {
    /// The embedding's integer values.
    pub open spec fn embedding_view(&self) -> Seq<Seq<int>> {
        mat_of(&self.embedding)
    }

    /// The boundary regions' integer values.
    pub open spec fn regions_view(&self) -> Seq<Seq<Seq<int>>> {
        mats_of(&self.regions)
    }

    /// The embedding is 5 by 4, and every entry of it and of the boundary
    /// constraints lies in `[-256, 256]`.
    pub open spec fn wf(&self) -> bool {
        &&& is_mat(self.embedding_view(), 5, 4)
        &&& mat_bounded(self.embedding_view(), COORD_LIMIT as int)
        &&& forall|k: int| 0 <= k < self.regions@.len() ==> rows_ok(#[trigger] self.regions_view()[k], 4, COORD_LIMIT as int)
        &&& forall|k: int| 0 <= k < self.texture@.len() ==> (#[trigger] self.texture@[k]).wf()
        &&& rows_ok(mat_of(&self.convex_hull), 4, COORD_LIMIT as int)
    }

    /// The occluder regions this cell casts under the camera `p`, each a
    /// list of constraints in screen-with-depth coordinates.
    pub fn to_screen_depth_space(&self, p: &Vec<Vec<i128>>) -> (r: Vec<Vec<Vec<i128>>>)
        requires
            self.wf(),
            camera_ok(mat_of(p)),
        ensures
            mats_of(&r) == occluder_regions(mat_of(p), self.embedding_view(), self.regions_view()),
            forall|k: int| 0 <= k < r@.len() ==> rows_ok(#[trigger] mats_of(&r)[k], 5, occluder_bound()),
    {
        let ghost pm = mat_of(p);
        let ghost e = self.embedding_view();
        proof {
            lemma_bounds();
        }
        let m0 = mat_mul_mat(p, &self.embedding, 5, 4, Ghost(256), Ghost(256));
        let m1 = matrix_forget_depth();
        let m2 = mat_mul_mat(&m1, &m0, 5, 4, Ghost(1), Ghost(cell_bound()));
        proof {
            lemma_quartic_bound(screen_bound());
        }
        let det = det4_of(&m2, Ghost(screen_bound()));
        if det == 0 {
            return Vec::new();
        }
        let adj = adjugate_of(&m2, Ghost(screen_bound()));
        let m3 = if det < 0 {
            negate_mat(&adj, Ghost(adjugate_bound()))
        } else {
            adj
        };
        proof {
            assert(mat_of(&m3) == positive_inverse(mat_of(&m2)));
        }
        let m4 = mat_mul_mat(&m3, &m1, 4, 5, Ghost(adjugate_bound()), Ghost(1));
        let ghost back = mat_of(&m4);
        proof {
            lemma_quartic_bound(cell_bound());
        }
        let r = match region_behind(&m0) {
            Some(x) => x,
            None => {
                return Vec::new();
            },
        };
        let ghost rv = vec_of(&r);
        proof {
            assert(rv.len() == r@.len());
        }
        let ghost regs = self.regions_view();
        let mut out: Vec<Vec<Vec<i128>>> = Vec::new();
        let mut k: usize = 0;
        while k < self.regions.len()
            invariant
                self.wf(),
                regs == self.regions_view(),
                k <= self.regions@.len(),
                back == mat_of(&m4),
                back == screen_depth_to_local(pm, e),
                is_mat(back, 4, 5),
                mat_bounded(back, back_bound()),
                rv == vec_of(&r),
                rv == hyperplane(to_screen_depth(pm, e)),
                vec_bounded(rv, occluder_bound()),
                r@.len() == 5,
                out@.len() == k,
                forall|t: int| 0 <= t < k ==> #[trigger] mats_of(&out)[t] == occluder_region(pm, e, regs[t]),
                forall|t: int| 0 <= t < k ==> rows_ok(#[trigger] mats_of(&out)[t], 5, occluder_bound()),
            decreases self.regions@.len() - k,
        {
            let region = &self.regions[k];
            let ghost rg = regs[k as int];
            proof {
                assert(rg == mat_of(region));
                assert(rows_ok(rg, 4, 256));
            }
            let mut rows: Vec<Vec<i128>> = Vec::new();
            let mut t: usize = 0;
            while t < region.len()
                invariant
                    t <= region@.len(),
                    rg == mat_of(region),
                    rows_ok(rg, 4, 256),
                    back == mat_of(&m4),
                    back == screen_depth_to_local(pm, e),
                    is_mat(back, 4, 5),
                    mat_bounded(back, back_bound()),
                    rows@.len() == t,
                    forall|q: int| 0 <= q < t ==> vec_of(&#[trigger] rows@[q]) == vec_mat(rg[q], back, 5),
                    forall|q: int| 0 <= q < t ==> vec_bounded(vec_of(&#[trigger] rows@[q]), occluder_bound()),
                decreases region@.len() - t,
            {
                proof {
                    assert(rg[t as int] == vec_of(&region@[t as int]));
                    assert(vec_bounded(rg[t as int], 256));
                    assert(region@[t as int]@.len() == 4);

                }
                let h = vec_mul_mat(&region[t], &m4, 5, Ghost(256), Ghost(back_bound()));
                proof {
                    assert forall|q: int| 0 <= q < vec_of(&h).len() implies -occluder_bound() <= #[trigger] vec_of(&h)[q] <= occluder_bound() by {
                        assert(vec_bounded(vec_of(&h), 4 * (256 * back_bound())));
                    }
                }
                rows.push(h);
                t = t + 1;
            }
            rows.push(copy_vec(&r));
            proof {
                assert(mat_of(&rows) =~= occluder_region(pm, e, rg)) by {
                    assert(vec_of(&rows@[t as int]) =~= rv);
                }
                assert forall|q: int| 0 <= q < rows@.len() implies #[trigger] mat_of(&rows)[q].len() == 5 && vec_bounded(mat_of(&rows)[q], occluder_bound()) by {
                    assert(mat_of(&rows)[q] == vec_of(&rows@[q]));
                    if q < t {
                        assert(vec_mat(rg[q], back, 5).len() == 5);
                    } else {
                        assert(vec_of(&rows@[q]) =~= rv);
                    }
                }
            }
            let ghost before = mats_of(&out);
            let ghost added = mat_of(&rows);
            out.push(rows);
            proof {
                assert(mats_of(&out) =~= before.push(added));
            }
            k = k + 1;
        }
        proof {
            assert(mats_of(&out) =~= occluder_regions(pm, e, regs));
        }
        out
    }
}


/// `a` with rows and columns exchanged (4 by 4).
pub open spec fn transpose(a: Seq<Seq<int>>) -> Seq<Seq<int>> {
    Seq::new(4, |i: int| Seq::new(4, |j: int| a[j][i]))
}

/// The hull vertices of cell `f` in screen coordinates: each vertex `v`
/// becomes `s v`, for the cell's map `s` into screen coordinates.
pub open spec fn screen_hull(p: Seq<Seq<int>>, f: Facet) -> Seq<Seq<int>> {
    mat_mul(mat_of(&f.convex_hull), transpose(to_screen(p, f.embedding_view())), 4)
}

/// The screen points `ps` have a bounding box: there is at least one, and
/// all lie in front of the camera (positive weight).
pub open spec fn has_box(ps: Seq<Seq<int>>) -> bool {
    ps.len() > 0 && forall|k: int| 0 <= k < ps.len() ==> (#[trigger] ps[k])[3] > 0
}

/// Cells `i` and `j` may overlap on screen: one of them has no bounding box,
/// or their boxes overlap.
pub open spec fn may_overlap(fs: Seq<Facet>, p: Seq<Seq<int>>, i: int, j: int) -> bool {
    let hi = screen_hull(p, fs[i]);
    let hj = screen_hull(p, fs[j]);
    !(has_box(hi) && has_box(hj)) || boxes_meet(hi, hj)
}

/// The cell with embedding `e` is drawn under the camera `p`: its map into
/// screen coordinates is regular and it faces the camera.
pub open spec fn visible(p: Seq<Seq<int>>, e: Seq<Seq<int>>) -> bool {
    !is_singular(p, e) && faces_camera(to_screen_depth(p, e))
}

/// The occluder regions of cell `j` of `fs`.
pub open spec fn occluders_of(fs: Seq<Facet>, p: Seq<Seq<int>>, j: int) -> Seq<Seq<Seq<int>>> {
    occluder_regions(p, fs[j].embedding_view(), fs[j].regions_view())
}

/// The polygons, as boundary lists, that cells `0..m` other than `i` whose
/// boxes may overlap that of `i` cut out of the plane of a texture of cell `i` with embedding `t`.
pub open spec fn cuts_upto(fs: Seq<Facet>, p: Seq<Seq<int>>, i: int, t: Seq<Seq<int>>, m: int) -> Seq<Seq<Seq<int>>>
    decreases m,
{
    if m <= 0 {
        Seq::empty()
    } else {
        let prev = cuts_upto(fs, p, i, t, m - 1);
        if m - 1 == i || !may_overlap(fs, p, i, m - 1) {
            prev
        } else {
            prev + occluders_of(fs, p, m - 1).map_values(
                |reg: Seq<Seq<int>>| region_boundaries(reg, to_screen_depth(p, fs[i].embedding_view()), t),
            )
        }
    }
}

/// What is cut out of texture `k` of cell `i`: the occluder regions of every
/// other cell that may overlap it on screen, as polygons of the texture's
/// plane.
pub open spec fn patch_cuts(fs: Seq<Facet>, p: Seq<Seq<int>>, i: int, k: int) -> Seq<Seq<Seq<int>>> {
    cuts_upto(fs, p, i, mat_of(&fs[i].texture@[k].embedding), fs.len() as int)
}

/// The embedding of texture `k` of cell `i` once moved into screen
/// coordinates.
pub open spec fn patch_embedding(fs: Seq<Facet>, p: Seq<Seq<int>>, i: int, k: int) -> Seq<Seq<int>> {
    mat_mul(to_screen(p, fs[i].embedding_view()), mat_of(&fs[i].texture@[k].embedding), 3)
}

/// The (cell, texture) pairs that cells `0..n` of `fs` draw, in order: every
/// texture of each visible cell.
pub open spec fn patch_keys(fs: Seq<Facet>, p: Seq<Seq<int>>, n: int) -> Seq<(int, int)>
    decreases n,
{
    if n <= 0 {
        Seq::empty()
    } else {
        patch_keys(fs, p, n - 1) + if visible(p, fs[n - 1].embedding_view()) {
            Seq::new(fs[n - 1].texture@.len(), |k: int| (n - 1, k))
        } else {
            Seq::empty()
        }
    }
}

/// All cells are well formed.
pub open spec fn all_wf(fs: Seq<Facet>) -> bool {
    forall|j: int| 0 <= j < fs.len() ==> (#[trigger] fs[j]).wf()
}

/// A texture of a drawn cell, with what occludes it: the polygons to be
/// subtracted from its shape, and its embedding in screen coordinates.
pub struct Occlusion {
    /// The index of the cell.
    pub facet: usize,
    /// The index of the texture in its cell.
    pub texture: usize,
    /// The polygons to subtract, each a list of lines `(a, b, c)` of the
    /// half-planes `a x + b y + c w >= 0` whose intersection it is.
    pub cuts: Vec<Vec<Vec<i128>>>,
    /// The texture's embedding, in screen coordinates (4 by 3).
    pub embedding: Vec<Vec<i128>>,
}

/// `r` is what the occlusion engine owes for the cells `fs` under the camera
/// `p`: one entry for each texture of each drawn cell, in order, with its
/// cuts and its embedding in screen coordinates.
pub open spec fn is_occlusion_result(fs: Seq<Facet>, p: Seq<Seq<int>>, r: Seq<Occlusion>) -> bool {
    &&& r.len() == patch_keys(fs, p, fs.len() as int).len()
    &&& forall|k: int| 0 <= k < r.len() ==> {
        let key = #[trigger] patch_keys(fs, p, fs.len() as int)[k];
        &&& r[k].facet == key.0
        &&& r[k].texture == key.1
        &&& mats_of(&r[k].cuts) == patch_cuts(fs, p, key.0, key.1)
        &&& mat_of(&r[k].embedding) == patch_embedding(fs, p, key.0, key.1)
    }
}

/// The hulls of every cell in screen coordinates, and which have a box.
pub open spec fn hulls_ok(fs: Seq<Facet>, p: Seq<Seq<int>>, hulls: Seq<Vec<Vec<i128>>>, boxed: Seq<bool>) -> bool {
    &&& hulls.len() == fs.len()
    &&& boxed.len() == fs.len()
    &&& forall|j: int| 0 <= j < hulls.len() ==> mat_of(&#[trigger] hulls[j]) == screen_hull(p, fs[j])
    &&& forall|j: int| 0 <= j < hulls.len() ==> #[trigger] boxed[j] == has_box(screen_hull(p, fs[j]))
    &&& forall|j: int| 0 <= j < hulls.len() ==> #[trigger] boxed[j] ==> points_ok(mat_of(&hulls[j])) && hulls[j]@.len() > 0
}

/// The occluder regions of every cell, in order.
pub open spec fn occluders_ok(fs: Seq<Facet>, p: Seq<Seq<int>>, occ: Seq<Vec<Vec<Vec<i128>>>>) -> bool {
    &&& occ.len() == fs.len()
    &&& forall|j: int| 0 <= j < occ.len() ==> mats_of(&#[trigger] occ[j]) == occluders_of(fs, p, j)
    &&& forall|j: int, q: int| 0 <= j < occ.len() && 0 <= q < occ[j]@.len() ==> rows_ok(#[trigger] mats_of(&occ[j])[q], 5, occluder_bound())
}

fn patch_cuts_of(
    facets: &[Facet],
    p: Ghost<Seq<Seq<int>>>,
    occ: &Vec<Vec<Vec<Vec<i128>>>>,
    hulls: &Vec<Vec<Vec<i128>>>,
    boxed: &Vec<bool>,
    i: usize,
    m: &Vec<Vec<i128>>,
    t: &Vec<Vec<i128>>,
) -> (r: Vec<Vec<Vec<i128>>>)
    requires
        all_wf(facets@),
        occluders_ok(facets@, p@, occ@),
        hulls_ok(facets@, p@, hulls@, boxed@),
        i < facets@.len(),
        mat_of(m) == to_screen_depth(p@, facets@[i as int].embedding_view()),
        is_mat(mat_of(m), 5, 4),
        mat_bounded(mat_of(m), 327680),
        is_mat(mat_of(t), 4, 3),
        mat_bounded(mat_of(t), 256),
    ensures
        mats_of(&r) == cuts_upto(facets@, p@, i as int, mat_of(t), facets@.len() as int),
{
    let ghost fs = facets@;
    let ghost tt = mat_of(t);
    let ghost mm = mat_of(m);
    let mut r: Vec<Vec<Vec<i128>>> = Vec::new();
    let mut j: usize = 0;
    while j < facets.len()
        invariant
            all_wf(fs),
            fs == facets@,
            occluders_ok(fs, p@, occ@),
            hulls_ok(fs, p@, hulls@, boxed@),
            i < fs.len(),
            j <= fs.len(),
            mm == mat_of(m),
            tt == mat_of(t),
            mm == to_screen_depth(p@, fs[i as int].embedding_view()),
            is_mat(mm, 5, 4),
            mat_bounded(mm, 327680),
            is_mat(tt, 4, 3),
            mat_bounded(tt, 256),
            mats_of(&r) == cuts_upto(fs, p@, i as int, tt, j as int),
        decreases fs.len() - j,
    {
        let apart = j != i && boxed[i] && boxed[j] && !boxes_overlap(&hulls[i], &hulls[j]);
        proof {
            if j != i && boxed@[i as int] && boxed@[j as int] {
                assert(mat_of(&hulls@[i as int]) == screen_hull(p@, fs[i as int]));
                assert(mat_of(&hulls@[j as int]) == screen_hull(p@, fs[j as int]));
            }
            assert(apart == (j != i && !may_overlap(fs, p@, i as int, j as int)));
        }
        if j != i && !apart {
            let regs = &occ[j];
            let ghost base = mats_of(&r);
            let ghost mapped = occluders_of(fs, p@, j as int).map_values(
                |reg: Seq<Seq<int>>| region_boundaries(reg, mm, tt),
            );
            let mut q: usize = 0;
            proof {
                assert(mats_of(regs) == occluders_of(fs, p@, j as int));
                assert(mats_of(regs).len() == regs@.len());
                assert(mats_of(&r) =~= base + mapped.take(0));
            }
            while q < regs.len()
                invariant
                    occluders_ok(fs, p@, occ@),
                    j < fs.len(),
                    regs == occ@[j as int],
                    mats_of(regs) == occluders_of(fs, p@, j as int),
                    mapped == occluders_of(fs, p@, j as int).map_values(
                        |reg: Seq<Seq<int>>| region_boundaries(reg, mm, tt),
                    ),
                    q <= regs@.len(),
                    mm == mat_of(m),
                    tt == mat_of(t),
                    is_mat(mm, 5, 4),
                    mat_bounded(mm, 327680),
                    is_mat(tt, 4, 3),
                    mat_bounded(tt, 256),
                    mats_of(&r) == base + mapped.take(q as int),
                decreases regs@.len() - q,
            {
                proof {
                    assert(rows_ok(mats_of(regs)[q as int], 5, occluder_bound()));
                    assert(mats_of(regs)[q as int] == mat_of(&regs@[q as int]));
                    assert(mat_of(&regs@[q as int]).len() == regs@[q as int]@.len());
                }
                let c = region_to_polygon(&regs[q], m, t);
                let ghost before = mats_of(&r);
                r.push(c);
                proof {
                    assert(mats_of(&r) =~= before.push(mat_of(&c)));
                    assert(base + mapped.take(q as int + 1) =~= (base + mapped.take(q as int)).push(mapped[q as int]));
                }
                q = q + 1;
            }
            proof {
                assert(mapped.take(q as int) =~= mapped);
            }
        }
        j = j + 1;
    }
    r
}

fn transpose_of(a: &Vec<Vec<i128>>, b: Ghost<int>) -> (r: Vec<Vec<i128>>)
    requires
        is_mat(mat_of(a), 4, 4),
        mat_bounded(mat_of(a), b@),
    ensures
        mat_of(&r) == transpose(mat_of(a)),
        is_mat(mat_of(&r), 4, 4),
        mat_bounded(mat_of(&r), b@),
{
    let ghost m = mat_of(a);
    let mut r: Vec<Vec<i128>> = Vec::new();
    let mut i: usize = 0;
    proof {
        assert forall|t: int| 0 <= t < 4 implies (#[trigger] a@[t])@.len() == 4 && vec_of(&a@[t]) == m[t] by {
            assert(m[t] == vec_of(&a@[t]));
        }
    }
    while i < 4
        invariant
            i <= 4,
            m == mat_of(a),
            is_mat(m, 4, 4),
            mat_bounded(m, b@),
            a@.len() == 4,
            forall|t: int| 0 <= t < 4 ==> (#[trigger] a@[t])@.len() == 4 && vec_of(&a@[t]) == m[t],
            r@.len() == i,
            forall|t: int| 0 <= t < i ==> vec_of(&#[trigger] r@[t]) == transpose(m)[t],
        decreases 4 - i,
    {
        let mut row: Vec<i128> = Vec::new();
        let mut j: usize = 0;
        while j < 4
            invariant
                i < 4,
                j <= 4,
                a@.len() == 4,
                forall|t: int| 0 <= t < 4 ==> (#[trigger] a@[t])@.len() == 4 && vec_of(&a@[t]) == m[t],
                row@.len() == j,
                forall|t: int| 0 <= t < j ==> (#[trigger] row@[t]) as int == m[t][i as int],
            decreases 4 - j,
        {
            proof {
                assert(vec_of(&a@[j as int])[i as int] == a@[j as int]@[i as int] as int);
            }
            row.push(a[j][i]);
            j = j + 1;
        }
        proof {
            assert(vec_of(&row) =~= transpose(m)[i as int]);
        }
        r.push(row);
        i = i + 1;
    }
    proof {
        assert(mat_of(&r) =~= transpose(m));
        assert forall|t: int| 0 <= t < 4 implies #[trigger] mat_of(&r)[t].len() == 4 && vec_bounded(mat_of(&r)[t], b@) by {
            assert(mat_of(&r)[t] == transpose(m)[t]);
            assert forall|q: int| 0 <= q < 4 implies -b@ <= #[trigger] transpose(m)[t][q] <= b@ by {
                assert(vec_bounded(m[q], b@));
            }
        }
    }
    r
}

/// The hull of `f` in screen coordinates, and whether it has a box.
fn hull_on_screen(f: &Facet, p: &Vec<Vec<i128>>) -> (r: (Vec<Vec<i128>>, bool))
    requires
        f.wf(),
        camera_ok(mat_of(p)),
    ensures
        mat_of(&r.0) == screen_hull(mat_of(p), *f),
        r.1 == has_box(screen_hull(mat_of(p), *f)),
        r.1 ==> points_ok(mat_of(&r.0)) && r.0@.len() > 0,
{
    proof {
        lemma_bounds();
    }
    let m = mat_mul_mat(p, &f.embedding, 5, 4, Ghost(256), Ghost(256));
    let fd = matrix_forget_depth();
    let s = mat_mul_mat(&fd, &m, 5, 4, Ghost(1), Ghost(cell_bound()));
    let st = transpose_of(&s, Ghost(screen_bound()));
    let h = mat_mul_mat(&f.convex_hull, &st, 4, 4, Ghost(256), Ghost(screen_bound()));
    let ghost hm = mat_of(&h);
    proof {
        assert(4 * (256 * screen_bound()) <= 0x8000_0000);
        assert(hm.len() == h@.len());
    }
    if h.len() == 0 {
        return (h, false);
    }
    let mut k: usize = 0;
    while k < h.len()
        invariant
            hm == mat_of(&h),
            hm == screen_hull(mat_of(p), *f),
            is_mat(hm, h@.len() as nat, 4),
            k <= h@.len(),
            forall|q: int| 0 <= q < k ==> (#[trigger] hm[q])[3] > 0,
        decreases h@.len() - k,
    {
        proof {
            assert(hm[k as int] == vec_of(&h@[k as int]));
            assert(vec_of(&h@[k as int])[3] == h@[k as int]@[3] as int);
        }
        if h[k][3] <= 0 {
            return (h, false);
        }
        k = k + 1;
    }
    (h, true)
}

impl Facet {
    /// For every texture of every cell that is drawn under the camera `p`,
    /// in order, the polygons that the other cells cut out of it and its
    /// embedding in screen coordinates.
    pub fn do_all_occlusions(facets: &[Facet], p: &Vec<Vec<i128>>) -> (r: Vec<Occlusion>)
        requires
            all_wf(facets@),
            camera_ok(mat_of(p)),
        ensures
            is_occlusion_result(facets@, mat_of(p), r@),
    {
        let ghost fs = facets@;
        let ghost pm = mat_of(p);
        let mut occ: Vec<Vec<Vec<Vec<i128>>>> = Vec::new();
        let mut j: usize = 0;
        while j < facets.len()
            invariant
                all_wf(fs),
                fs == facets@,
                pm == mat_of(p),
                camera_ok(pm),
                j <= fs.len(),
                occ@.len() == j,
                forall|q: int| 0 <= q < j ==> mats_of(&#[trigger] occ@[q]) == occluders_of(fs, pm, q),
                forall|q: int, u: int| 0 <= q < j && 0 <= u < occ@[q]@.len() ==> rows_ok(#[trigger] mats_of(&occ@[q])[u], 5, occluder_bound()),
            decreases fs.len() - j,
        {
            let o = facets[j].to_screen_depth_space(p);
            proof {
                assert(fs[j as int].wf());
                assert(mats_of(&o).len() == o@.len());
            }
            occ.push(o);
            j = j + 1;
        }
        let mut hulls: Vec<Vec<Vec<i128>>> = Vec::new();
        let mut boxed: Vec<bool> = Vec::new();
        let mut j: usize = 0;
        while j < facets.len()
            invariant
                all_wf(fs),
                fs == facets@,
                pm == mat_of(p),
                camera_ok(pm),
                j <= fs.len(),
                hulls@.len() == j,
                boxed@.len() == j,
                forall|q: int| 0 <= q < j ==> mat_of(&#[trigger] hulls@[q]) == screen_hull(pm, fs[q]),
                forall|q: int| 0 <= q < j ==> #[trigger] boxed@[q] == has_box(screen_hull(pm, fs[q])),
                forall|q: int| 0 <= q < j ==> #[trigger] boxed@[q] ==> points_ok(mat_of(&hulls@[q])) && hulls@[q]@.len() > 0,
            decreases fs.len() - j,
        {
            proof {
                assert(fs[j as int].wf());
            }
            let (h, b) = hull_on_screen(&facets[j], p);
            hulls.push(h);
            boxed.push(b);
            j = j + 1;
        }
        proof {
            lemma_bounds();
        }
        let mut out: Vec<Occlusion> = Vec::new();
        let mut i: usize = 0;
        while i < facets.len()
            invariant
                all_wf(fs),
                fs == facets@,
                pm == mat_of(p),
                camera_ok(pm),
                occluders_ok(fs, pm, occ@),
                hulls_ok(fs, pm, hulls@, boxed@),
                i <= fs.len(),
                5 * (256 * 256) == cell_bound(),
                5 * (1 * cell_bound()) == screen_bound(),
                out@.len() == patch_keys(fs, pm, i as int).len(),
                forall|k: int| 0 <= k < out@.len() ==> {
                    let key = #[trigger] patch_keys(fs, pm, i as int)[k];
                    &&& out@[k].facet == key.0
                    &&& out@[k].texture == key.1
                    &&& mats_of(&out@[k].cuts) == patch_cuts(fs, pm, key.0, key.1)
                    &&& mat_of(&out@[k].embedding) == patch_embedding(fs, pm, key.0, key.1)
                },
            decreases fs.len() - i,
        {
            let f = &facets[i];
            proof {
                assert(fs[i as int].wf());
            }
            let m = mat_mul_mat(p, &f.embedding, 5, 4, Ghost(256), Ghost(256));
            let fd = matrix_forget_depth();
            let s = mat_mul_mat(&fd, &m, 5, 4, Ghost(1), Ghost(cell_bound()));
            proof {
                lemma_quartic_bound(screen_bound());
                lemma_quartic_bound(cell_bound());
            }
            let det = det4_of(&s, Ghost(screen_bound()));
            let front = region_behind(&m);
            let ghost keys_before = patch_keys(fs, pm, i as int);
            let ghost added: Seq<(int, int)> = if visible(pm, fs[i as int].embedding_view()) {
                Seq::new(fs[i as int].texture@.len(), |k: int| (i as int, k))
            } else {
                Seq::empty()
            };
            proof {
                assert(patch_keys(fs, pm, i as int + 1) == keys_before + added);
            }
            if det != 0 && front.is_some() {
                let base_len = out.len();
                let mut k: usize = 0;
                while k < f.texture.len()
                    invariant
                        all_wf(fs),
                        fs == facets@,
                        pm == mat_of(p),
                        occluders_ok(fs, pm, occ@),
                        hulls_ok(fs, pm, hulls@, boxed@),
                        i < fs.len(),
                        f == fs[i as int],
                        mat_of(&m) == to_screen_depth(pm, f.embedding_view()),
                        is_mat(mat_of(&m), 5, 4),
                        mat_bounded(mat_of(&m), 327680),
                        mat_of(&s) == to_screen(pm, f.embedding_view()),
                        is_mat(mat_of(&s), 4, 4),
                        mat_bounded(mat_of(&s), 1638400),
                        visible(pm, f.embedding_view()),
                        added == Seq::new(fs[i as int].texture@.len(), |q: int| (i as int, q)),
                        base_len == keys_before.len(),
                        k <= f.texture@.len(),
                        out@.len() == base_len + k,
                        forall|q: int| 0 <= q < out@.len() ==> {
                            let key = #[trigger] (keys_before + added)[q];
                            &&& out@[q].facet == key.0
                            &&& out@[q].texture == key.1
                            &&& mats_of(&out@[q].cuts) == patch_cuts(fs, pm, key.0, key.1)
                            &&& mat_of(&out@[q].embedding) == patch_embedding(fs, pm, key.0, key.1)
                        },
                    decreases f.texture@.len() - k,
                {
                    let tex = &f.texture[k];
                    proof {
                        assert(f.texture@[k as int].wf());
                    }
                    let cuts = patch_cuts_of(facets, Ghost(pm), &occ, &hulls, &boxed, i, &m, &tex.embedding);
                    let emb = mat_mul_mat(&s, &tex.embedding, 4, 3, Ghost(1638400), Ghost(256));
                    let ghost old_out = out@;
                    out.push(Occlusion { facet: i, texture: k, cuts, embedding: emb });
                    proof {
                        assert forall|q: int| 0 <= q < out@.len() implies {
                            let key = #[trigger] (keys_before + added)[q];
                            &&& out@[q].facet == key.0
                            &&& out@[q].texture == key.1
                            &&& mats_of(&out@[q].cuts) == patch_cuts(fs, pm, key.0, key.1)
                            &&& mat_of(&out@[q].embedding) == patch_embedding(fs, pm, key.0, key.1)
                        } by {
                            if q < old_out.len() {
                                assert(out@[q] == old_out[q]);
                            } else {
                                assert((keys_before + added)[q] == added[k as int]);
                            }
                        }
                    }
                    k = k + 1;
                }
                proof {
                    assert(keys_before + added == patch_keys(fs, pm, i as int + 1));
                }
            } else {
                proof {
                    assert(added =~= Seq::<(int, int)>::empty());
                    assert(keys_before + added =~= keys_before);
                }
            }
            i = i + 1;
        }
        out
    }
}


/// Every (cell, texture) pair drawn names a visible cell and one of its
/// textures.
pub proof fn lemma_patch_keys_visible(fs: Seq<Facet>, p: Seq<Seq<int>>, n: int)
    requires
        0 <= n <= fs.len(),
    ensures
        forall|k: int| 0 <= k < patch_keys(fs, p, n).len() ==> {
            let key = #[trigger] patch_keys(fs, p, n)[k];
            &&& 0 <= key.0 < n
            &&& visible(p, fs[key.0].embedding_view())
            &&& 0 <= key.1 < fs[key.0].texture@.len()
        },
    decreases n,
{
    if n > 0 {
        lemma_patch_keys_visible(fs, p, n - 1);
        let prev = patch_keys(fs, p, n - 1);
        let added: Seq<(int, int)> = if visible(p, fs[n - 1].embedding_view()) {
            Seq::new(fs[n - 1].texture@.len(), |k: int| (n - 1, k))
        } else {
            Seq::empty()
        };
        assert(patch_keys(fs, p, n) == prev + added);
        assert forall|k: int| 0 <= k < patch_keys(fs, p, n).len() implies {
            let key = #[trigger] patch_keys(fs, p, n)[k];
            &&& 0 <= key.0 < n
            &&& visible(p, fs[key.0].embedding_view())
            &&& 0 <= key.1 < fs[key.0].texture@.len()
        } by {
            if k < prev.len() {
                assert(patch_keys(fs, p, n)[k] == prev[k]);
            } else {
                assert(patch_keys(fs, p, n)[k] == added[k - prev.len()]);
            }
        }
    }
}

/// A cell that faces away from the camera draws no texture and casts no
/// occluder region, whatever the other cells are.
pub proof fn back_facing_cell_is_culled(fs: Seq<Facet>, p: Seq<Seq<int>>, i: int)
    requires
        0 <= i < fs.len(),
        !faces_camera(to_screen_depth(p, fs[i].embedding_view())),
    ensures
        forall|k: int| 0 <= k < patch_keys(fs, p, fs.len() as int).len() ==> (#[trigger] patch_keys(fs, p, fs.len() as int)[k]).0 != i,
        occluders_of(fs, p, i).len() == 0,
{
    lemma_patch_keys_visible(fs, p, fs.len() as int);
}

/// A cell whose map into screen coordinates is singular draws no texture and
/// casts no occluder region.
pub proof fn singular_cell_is_skipped(fs: Seq<Facet>, p: Seq<Seq<int>>, i: int)
    requires
        0 <= i < fs.len(),
        is_singular(p, fs[i].embedding_view()),
    ensures
        forall|k: int| 0 <= k < patch_keys(fs, p, fs.len() as int).len() ==> (#[trigger] patch_keys(fs, p, fs.len() as int)[k]).0 != i,
        occluders_of(fs, p, i).len() == 0,
{
    lemma_patch_keys_visible(fs, p, fs.len() as int);
}

proof fn lemma_cuts_upto_empty(fs: Seq<Facet>, p: Seq<Seq<int>>, i: int, t: Seq<Seq<int>>, m: int)
    requires
        0 <= i < fs.len(),
        m <= fs.len(),
        forall|j: int| 0 <= j < fs.len() && j != i ==> !may_overlap(fs, p, i, j) || #[trigger] occluders_of(fs, p, j).len() == 0,
    ensures
        cuts_upto(fs, p, i, t, m).len() == 0,
    decreases m,
{
    if m > 0 {
        lemma_cuts_upto_empty(fs, p, i, t, m - 1);
        if m - 1 != i && may_overlap(fs, p, i, m - 1) {
            assert(occluders_of(fs, p, m - 1).len() == 0);
        }
    }
}

/// A texture on which no other cell casts an occluder region that may
/// overlap it on screen has nothing cut out of it: its shape, and so its
/// triangles, stay as they were. A cell alone in its scene is one case.
pub proof fn unoccluded_texture_is_not_cut(fs: Seq<Facet>, p: Seq<Seq<int>>, i: int, k: int)
    requires
        0 <= i < fs.len(),
        forall|j: int| 0 <= j < fs.len() && j != i ==> !may_overlap(fs, p, i, j) || #[trigger] occluders_of(fs, p, j).len() == 0,
    ensures
        patch_cuts(fs, p, i, k).len() == 0,
{
    lemma_cuts_upto_empty(fs, p, i, mat_of(&fs[i].texture@[k].embedding), fs.len() as int);
}

/// The index in `fs` of cell `j` of `fs` without its cell `k`.
pub open spec fn unshift(j: int, k: int) -> int {
    if j < k {
        j
    } else {
        j + 1
    }
}

proof fn lemma_cuts_without(fs: Seq<Facet>, p: Seq<Seq<int>>, k: int, i: int, t: Seq<Seq<int>>, m: int)
    requires
        0 <= k < fs.len(),
        !visible(p, fs[k].embedding_view()),
        0 <= i < fs.len() - 1,
        0 <= m <= fs.len() - 1,
    ensures
        cuts_upto(fs.remove(k), p, i, t, m) == cuts_upto(fs, p, unshift(i, k), t, if m <= k { m } else { m + 1 }),
    decreases m,
{
    let gs = fs.remove(k);
    let ui = unshift(i, k);
    assert(gs[i] == fs[ui]);
    if m > 0 {
        lemma_cuts_without(fs, p, k, i, t, m - 1);
        let j = m - 1;
        let uj = unshift(j, k);
        assert(gs[j] == fs[uj]);
        assert(occluders_of(gs, p, j) == occluders_of(fs, p, uj));
        assert(may_overlap(gs, p, i, j) == may_overlap(fs, p, ui, uj));
        assert((j == i) == (uj == ui));
        if m == k + 1 {
            assert(occluders_of(fs, p, k).len() == 0);
            assert(cuts_upto(fs, p, ui, t, k + 1) =~= cuts_upto(fs, p, ui, t, k)) by {
                if k != ui && may_overlap(fs, p, ui, k) {
                    assert(occluders_of(fs, p, k).map_values(
                        |reg: Seq<Seq<int>>| region_boundaries(reg, to_screen_depth(p, fs[ui].embedding_view()), t),
                    ) =~= Seq::empty());
                }
            }
        }
    }
}

/// Taking a cell that is not drawn (it faces away from the camera, or its
/// map into screen coordinates is singular) out of the scene changes no
/// other texture's cuts: cell `i` of the smaller scene is cell `unshift(i, k)`
/// of the full one, and its textures lose nothing more and nothing less.
pub proof fn hidden_cell_casts_nothing(fs: Seq<Facet>, p: Seq<Seq<int>>, k: int, i: int, t: int)
    requires
        0 <= k < fs.len(),
        !visible(p, fs[k].embedding_view()),
        0 <= i < fs.len() - 1,
    ensures
        patch_cuts(fs.remove(k), p, i, t) == patch_cuts(fs, p, unshift(i, k), t),
{
    let gs = fs.remove(k);
    assert(gs[i] == fs[unshift(i, k)]);
    let tt = mat_of(&fs[unshift(i, k)].texture@[t].embedding);
    lemma_cuts_without(fs, p, k, i, tt, fs.len() - 1);
    if k == fs.len() - 1 {
        assert(occluders_of(fs, p, k).len() == 0);
        let ui = unshift(i, k);
        assert(cuts_upto(fs, p, ui, tt, k + 1) =~= cuts_upto(fs, p, ui, tt, k)) by {
            if k != ui && may_overlap(fs, p, ui, k) {
                assert(occluders_of(fs, p, k).map_values(
                    |reg: Seq<Seq<int>>| region_boundaries(reg, to_screen_depth(p, fs[ui].embedding_view()), tt),
                ) =~= Seq::empty());
            }
        }
    }
}

/// The (cell, texture) pairs of a scene without cell `k`, renumbered as
/// cells of the full scene.
pub open spec fn keys_unshifted(keys: Seq<(int, int)>, k: int) -> Seq<(int, int)> {
    keys.map_values(|key: (int, int)| (unshift(key.0, k), key.1))
}

proof fn lemma_keys_without(fs: Seq<Facet>, p: Seq<Seq<int>>, k: int, m: int)
    requires
        0 <= k < fs.len(),
        !visible(p, fs[k].embedding_view()),
        0 <= m <= fs.len() - 1,
    ensures
        keys_unshifted(patch_keys(fs.remove(k), p, m), k) == patch_keys(fs, p, if m < k { m } else { m + 1 }),
    decreases m,
{
    let gs = fs.remove(k);
    if m == 0 {
        if k == 0 {
            assert(patch_keys(fs, p, 1) =~= patch_keys(fs, p, 0));
        }
        assert(keys_unshifted(patch_keys(gs, p, 0), k) =~= Seq::empty());
    } else {
        lemma_keys_without(fs, p, k, m - 1);
        let j = m - 1;
        let uj = unshift(j, k);
        assert(gs[j] == fs[uj]);
        let prev = patch_keys(gs, p, j);
        let added: Seq<(int, int)> = if visible(p, gs[j].embedding_view()) {
            Seq::new(gs[j].texture@.len(), |q: int| (j, q))
        } else {
            Seq::empty()
        };
        let fadded: Seq<(int, int)> = if visible(p, fs[uj].embedding_view()) {
            Seq::new(fs[uj].texture@.len(), |q: int| (uj, q))
        } else {
            Seq::empty()
        };
        assert(patch_keys(gs, p, m) == prev + added);
        assert(keys_unshifted(prev + added, k) =~= keys_unshifted(prev, k) + fadded);
        assert(patch_keys(fs, p, uj + 1) == patch_keys(fs, p, uj) + fadded);
        if m == k {
            assert(patch_keys(fs, p, k + 1) =~= patch_keys(fs, p, k));
        }
    }
}

/// Taking a cell that is not drawn out of the scene leaves the list of drawn
/// (cell, texture) pairs as it was, once the cells after it are numbered as
/// in the full scene.
pub proof fn hidden_cell_draws_nothing(fs: Seq<Facet>, p: Seq<Seq<int>>, k: int)
    requires
        0 <= k < fs.len(),
        !visible(p, fs[k].embedding_view()),
    ensures
        keys_unshifted(patch_keys(fs.remove(k), p, fs.len() - 1), k) == patch_keys(fs, p, fs.len() as int),
{
    lemma_keys_without(fs, p, k, fs.len() - 1);
    if k == fs.len() - 1 {
        assert(patch_keys(fs, p, k + 1) =~= patch_keys(fs, p, k));
    }
}

/// A cell that is not drawn (it faces away from the camera, or its map into
/// screen coordinates is singular) changes nothing: the engine's result for
/// the scene is, record by record, its result for the scene without that
/// cell, with the later cells numbered as in the full scene.
pub proof fn hidden_cell_changes_nothing(
    fs: Seq<Facet>,
    p: Seq<Seq<int>>,
    k: int,
    r: Seq<Occlusion>,
    r2: Seq<Occlusion>,
)
    requires
        0 <= k < fs.len(),
        !visible(p, fs[k].embedding_view()),
        is_occlusion_result(fs, p, r),
        is_occlusion_result(fs.remove(k), p, r2),
    ensures
        r.len() == r2.len(),
        forall|q: int| 0 <= q < r.len() ==> {
            &&& (#[trigger] r[q]).facet == unshift(r2[q].facet as int, k)
            &&& r[q].texture == r2[q].texture
            &&& mats_of(&r[q].cuts) == mats_of(&r2[q].cuts)
            &&& mat_of(&r[q].embedding) == mat_of(&r2[q].embedding)
        },
{
    let gs = fs.remove(k);
    hidden_cell_draws_nothing(fs, p, k);
    lemma_patch_keys_visible(gs, p, gs.len() as int);
    let keys = patch_keys(fs, p, fs.len() as int);
    let keys2 = patch_keys(gs, p, gs.len() as int);
    assert(keys_unshifted(keys2, k) == keys);
    assert forall|q: int| 0 <= q < r.len() implies {
        &&& (#[trigger] r[q]).facet == unshift(r2[q].facet as int, k)
        &&& r[q].texture == r2[q].texture
        &&& mats_of(&r[q].cuts) == mats_of(&r2[q].cuts)
        &&& mat_of(&r[q].embedding) == mat_of(&r2[q].embedding)
    } by {
        let key2 = keys2[q];
        assert(keys[q] == (unshift(key2.0, k), key2.1));
        assert(0 <= key2.0 < gs.len());
        hidden_cell_casts_nothing(fs, p, k, key2.0, key2.1);
        assert(gs[key2.0] == fs[unshift(key2.0, k)]);
    }
}

/// Two runs of the occlusion engine on the same cells and camera give the
/// same textures, in the same order, with the same cuts and embeddings.
pub proof fn occlusion_is_deterministic(fs: Seq<Facet>, p: Seq<Seq<int>>, r1: Seq<Occlusion>, r2: Seq<Occlusion>)
    requires
        is_occlusion_result(fs, p, r1),
        is_occlusion_result(fs, p, r2),
    ensures
        r1.len() == r2.len(),
        forall|k: int| 0 <= k < r1.len() ==> {
            &&& (#[trigger] r1[k]).facet == r2[k].facet
            &&& r1[k].texture == r2[k].texture
            &&& mats_of(&r1[k].cuts) == mats_of(&r2[k].cuts)
            &&& mat_of(&r1[k].embedding) == mat_of(&r2[k].embedding)
        },
{
    assert forall|k: int| 0 <= k < r1.len() implies {
        &&& (#[trigger] r1[k]).facet == r2[k].facet
        &&& r1[k].texture == r2[k].texture
        &&& mats_of(&r1[k].cuts) == mats_of(&r2[k].cuts)
        &&& mat_of(&r1[k].embedding) == mat_of(&r2[k].embedding)
    } by {
        let key = patch_keys(fs, p, fs.len() as int)[k];
    }
}

} // verus!
