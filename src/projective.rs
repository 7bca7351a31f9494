use vstd::prelude::*;
use crate::linalg::{
    alt, det3, det3_of, det4, det4_of, drop_row, is_mat, mat_bounded, mat_of, minor, vec_bounded,
    vec_of, remove_row_col, remove_row, lemma_minor_bounded, lemma_quartic_bound,
};

verus! {

/// The map from screen-with-depth coordinates `(x, y, z, depth, w)` to
/// screen coordinates `(x, y, z, w)`.
pub open spec fn forget_depth() -> Seq<Seq<int>> {
    seq![
        seq![1int, 0, 0, 0, 0],
        seq![0int, 1, 0, 0, 0],
        seq![0int, 0, 1, 0, 0],
        seq![0int, 0, 0, 0, 1],
    ]
}

/// The hyperplane through the image of a 5 by 4 embedding: its coefficient
/// `i` is the determinant of the embedding without row `i`, with alternating
/// signs.
pub open spec fn hyperplane(e: Seq<Seq<int>>) -> Seq<int> {
    Seq::new(5, |i: int| alt(i) * det4(drop_row(e, i)))
}

/// The cell with this embedding faces the camera: the depth coefficient of
/// its hyperplane is not negative.
pub open spec fn faces_camera(e: Seq<Seq<int>>) -> bool {
    hyperplane(e)[3] >= 0
}

/// The adjugate of a 4 by 4 matrix: its determinant times its inverse.
pub open spec fn adjugate(a: Seq<Seq<int>>) -> Seq<Seq<int>> {
    Seq::new(4, |i: int| Seq::new(4, |j: int| alt(i + j) * det3(minor(a, j, i))))
}

/// The matrix that drops the depth coordinate.
pub fn matrix_forget_depth() -> (r: Vec<Vec<i128>>)
    ensures
        mat_of(&r) == forget_depth(),
        is_mat(mat_of(&r), 4, 5),
        mat_bounded(mat_of(&r), 1),
{
    let r = vec![
        vec![1i128, 0, 0, 0, 0],
        vec![0i128, 1, 0, 0, 0],
        vec![0i128, 0, 1, 0, 0],
        vec![0i128, 0, 0, 0, 1],
    ];
    proof {
        assert(mat_of(&r) =~= forget_depth()) by {
            assert(vec_of(&r@[0]) =~= forget_depth()[0]);
            assert(vec_of(&r@[1]) =~= forget_depth()[1]);
            assert(vec_of(&r@[2]) =~= forget_depth()[2]);
            assert(vec_of(&r@[3]) =~= forget_depth()[3]);
        }
    }
    r
}

/// The outward hyperplane of a cell mapped into screen-with-depth
/// coordinates by `e`, or `None` when the cell faces away from the camera.
pub fn region_behind(e: &Vec<Vec<i128>>) -> (r: Option<Vec<i128>>)
    requires
        is_mat(mat_of(e), 5, 4),
        mat_bounded(mat_of(e), 327680),
    ensures
        r is None <==> !faces_camera(mat_of(e)),
        r matches Some(h) ==> vec_of(&h) == hyperplane(mat_of(e)),
        r matches Some(h) ==> vec_bounded(vec_of(&h), 24 * (327680 * (327680 * (327680 * 327680int)))),
{
    let b: Ghost<int> = Ghost(327680);
    let ghost m = mat_of(e);
    let mut h: Vec<i128> = Vec::new();
    let mut i: usize = 0;
    while i < 5
        invariant
            i <= 5,
            m == mat_of(e),
            is_mat(m, 5, 4),
            mat_bounded(m, b@),
            0 <= b@ <= 0x100_0000,
            h@.len() == i,
            forall|t: int| 0 <= t < i ==> (#[trigger] h@[t]) as int == hyperplane(m)[t],
            forall|t: int| 0 <= t < i ==> -24 * (b@ * (b@ * (b@ * b@))) <= #[trigger] h@[t] <= 24 * (b@ * (b@ * (b@ * b@))),
        decreases 5 - i,
    {
        let rows = remove_row(e, i);
        proof {
            lemma_minor_bounded(m, 5, 4, i as int, 0, b@);
            lemma_quartic_bound(b@);
            assert(mat_of(&rows).len() == 4);
            assert forall|t: int| 0 <= t < 4 implies #[trigger] mat_of(&rows)[t].len() == 4 by {
                assert(m[crate::linalg::skip(t, i as int)].len() == 4);
            }
        }
        let d = det4_of(&rows, b);
        if i % 2 == 0 {
            h.push(d);
        } else {
            h.push(-d);
        }
        i = i + 1;
    }
    proof {
        assert(vec_of(&h) =~= hyperplane(m));
    }
    if h[3] < 0 {
        None
    } else {
        Some(h)
    }
}

/// The adjugate of a 4 by 4 matrix whose entries lie in `[-b, b]`.
pub fn adjugate_of(a: &Vec<Vec<i128>>, b: Ghost<int>) -> (r: Vec<Vec<i128>>)
    requires
        is_mat(mat_of(a), 4, 4),
        mat_bounded(mat_of(a), b@),
        0 <= b@ <= 0x100_0000,
    ensures
        mat_of(&r) == adjugate(mat_of(a)),
        is_mat(mat_of(&r), 4, 4),
        mat_bounded(mat_of(&r), 6 * (b@ * (b@ * b@))),
{
    let ghost m = mat_of(a);
    let mut r: Vec<Vec<i128>> = Vec::new();
    let mut i: usize = 0;
    while i < 4
        invariant
            i <= 4,
            m == mat_of(a),
            is_mat(m, 4, 4),
            mat_bounded(m, b@),
            0 <= b@ <= 0x100_0000,
            r@.len() == i,
            forall|t: int| 0 <= t < i ==> vec_of(&#[trigger] r@[t]) == adjugate(m)[t],
            forall|t: int| 0 <= t < i ==> vec_bounded(vec_of(&#[trigger] r@[t]), 6 * (b@ * (b@ * b@))),
        decreases 4 - i,
    {
        let mut row: Vec<i128> = Vec::new();
        let mut j: usize = 0;
        while j < 4
            invariant
                i < 4,
                j <= 4,
                m == mat_of(a),
                is_mat(m, 4, 4),
                mat_bounded(m, b@),
                0 <= b@ <= 0x100_0000,
                row@.len() == j,
                forall|t: int| 0 <= t < j ==> (#[trigger] row@[t]) as int == adjugate(m)[i as int][t],
                forall|t: int| 0 <= t < j ==> -(6 * (b@ * (b@ * b@))) <= #[trigger] row@[t] <= 6 * (b@ * (b@ * b@)),
            decreases 4 - j,
        {
            proof {
                lemma_minor_bounded(m, 4, 4, j as int, i as int, b@);
                lemma_quartic_bound(b@);
            }
            let mm = remove_row_col(a, j, i, Ghost(4));
            let d = det3_of(&mm, b);
            if (i + j) % 2 == 0 {
                row.push(d);
            } else {
                row.push(-d);
            }
            j = j + 1;
        }
        proof {
            assert(vec_of(&row) =~= adjugate(m)[i as int]);
        }
        r.push(row);
        i = i + 1;
    }
    proof {
        assert(mat_of(&r) =~= adjugate(m));
        assert forall|t: int| 0 <= t < 4 implies vec_bounded(#[trigger] mat_of(&r)[t], 6 * (b@ * (b@ * b@))) by {
            assert(mat_of(&r)[t] == vec_of(&r@[t]));
        }
    }
    r
}

} // verus!
