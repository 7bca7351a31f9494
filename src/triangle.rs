use vstd::prelude::*;
use crate::linalg::{col, dot, dot_col, is_mat, mat_bounded, mat_of, vec_bounded, vec_of};
use crate::texture::Point;

verus! {

/// A vertex of a triangle in the render.
#[derive(Clone, Copy, Debug)]
pub struct Vertex {
    /// The position, in homogeneous coordinates.
    pub position: [i128; 4],
    /// The location in the texture, in homogeneous coordinates.
    pub texcoord: [i128; 3],
}

/// A triangle in the render.
#[derive(Clone, Copy, Debug)]
pub struct Triangle {
    /// The vertices of the triangle.
    pub vertices: [Vertex; 3],
    /// The triangle is to be subtracted from the picture rather than added.
    pub negated: bool,
}

/// The homogeneous coordinates of a point as a sequence.
pub open spec fn point_seq(p: Point) -> Seq<int> {
    seq![p.x as int, p.y as int, p.w as int]
}

/// The matrix `e` times the column vector `v`.
pub open spec fn mat_vec(e: Seq<Seq<int>>, v: Seq<int>) -> Seq<int> {
    Seq::new(e.len(), |i: int| dot(e[i], v))
}

/// Largest magnitude of a coordinate of a point of a texture's shape.
pub open spec fn point_limit() -> int {
    0x100_0000_0000
}

/// Largest magnitude of an entry of a texture's embedding in screen
/// coordinates.
pub open spec fn screen_embedding_limit() -> int {
    0x8000_0000
}

/// The three homogeneous coordinates of `p` lie in `[-2^40, 2^40]`.
pub open spec fn coords_ok(p: Point) -> bool {
    -point_limit() <= p.x <= point_limit() && -point_limit() <= p.y <= point_limit() && -point_limit() <= p.w <= point_limit()
}

/// The coordinates of `p` lie in `[-2^40, 2^40]` and its weight is positive.
pub open spec fn point_ok(p: Point) -> bool {
    coords_ok(p) && 0 < p.w
}

/// `e` is a 4 by 3 matrix with entries in `[-2^31, 2^31]`.
pub open spec fn screen_embedding_ok(e: Seq<Seq<int>>) -> bool {
    is_mat(e, 4, 3) && mat_bounded(e, screen_embedding_limit())
}

impl Vertex {
    /// This vertex is the point `p` of a texture with embedding `e`.
    pub open spec fn is_point(&self, p: Point, e: Seq<Seq<int>>) -> bool {
        &&& self.position@.map_values(|x: i128| x as int) == mat_vec(e, point_seq(p))
        &&& self.texcoord@ == seq![p.x, p.y, p.w]
    }

    /// The vertex at the point `point` of a texture with embedding `embedding`.
    pub fn new(point: Point, embedding: &Vec<Vec<i128>>) -> (r: Vertex)
        requires
            coords_ok(point),
            screen_embedding_ok(mat_of(embedding)),
        ensures
            r.is_point(point, mat_of(embedding)),
    {
        let column = vec![vec![point.x], vec![point.y], vec![point.w]];
        let ghost pt = point_seq(point);
        let ghost em = mat_of(embedding);
        proof {
            assert(col(mat_of(&column), 0) =~= pt) by {
                assert(mat_of(&column)[0] == vec_of(&column@[0]));
                assert(mat_of(&column)[1] == vec_of(&column@[1]));
                assert(mat_of(&column)[2] == vec_of(&column@[2]));
            }
            assert(is_mat(mat_of(&column), 3, 1)) by {
                assert(mat_of(&column)[0] == vec_of(&column@[0]));
                assert(mat_of(&column)[1] == vec_of(&column@[1]));
                assert(mat_of(&column)[2] == vec_of(&column@[2]));
            }
            assert(mat_bounded(mat_of(&column), point_limit())) by {
                assert(mat_of(&column)[0] == vec_of(&column@[0]));
                assert(mat_of(&column)[1] == vec_of(&column@[1]));
                assert(mat_of(&column)[2] == vec_of(&column@[2]));
                assert(vec_bounded(mat_of(&column)[0], point_limit()));
                assert(vec_bounded(mat_of(&column)[1], point_limit()));
                assert(vec_bounded(mat_of(&column)[2], point_limit()));
            }
            assert(3 * (screen_embedding_limit() * point_limit()) <= i128::MAX) by (nonlinear_arith);
            assert forall|i: int| 0 <= i < 4 implies (#[trigger] embedding@[i])@.len() == 3 && vec_bounded(vec_of(&embedding@[i]), screen_embedding_limit()) && vec_of(&embedding@[i]) == em[i] by {
                assert(em[i] == vec_of(&embedding@[i]));
                assert(vec_bounded(em[i], screen_embedding_limit()));
            }
        }
        let p0 = dot_col(&embedding[0], &column, 0, Ghost(screen_embedding_limit()), Ghost(point_limit()));
        let p1 = dot_col(&embedding[1], &column, 0, Ghost(screen_embedding_limit()), Ghost(point_limit()));
        let p2 = dot_col(&embedding[2], &column, 0, Ghost(screen_embedding_limit()), Ghost(point_limit()));
        let p3 = dot_col(&embedding[3], &column, 0, Ghost(screen_embedding_limit()), Ghost(point_limit()));
        let r = Vertex { position: [p0, p1, p2, p3], texcoord: [point.x, point.y, point.w] };
        proof {
            assert(r.position@.map_values(|x: i128| x as int) =~= mat_vec(em, pt));
            assert(r.texcoord@ =~= seq![point.x, point.y, point.w]);
        }
        r
    }
}

} // verus!
