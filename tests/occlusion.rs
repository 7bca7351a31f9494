use occlusion4d::facet::{Facet, COORD_LIMIT};
use occlusion4d::mesh::Mesh;
use occlusion4d::pruning::boxes_overlap;
use occlusion4d::projective::{matrix_forget_depth, region_behind};
use occlusion4d::texture::{area, giant_square, loop_boundaries, region_to_polygon, Point, Texture};
use occlusion4d::triangle::{Triangle, Vertex};

fn mat(rows: &[&[i128]]) -> Vec<Vec<i128>> {
    rows.iter().map(|r| r.to_vec()).collect()
}

fn pt(x: i128, y: i128, w: i128) -> Point {
    Point { x, y, w }
}

fn square() -> Vec<Point> {
    vec![pt(-1, -1, 1), pt(1, -1, 1), pt(1, 1, 1), pt(-1, 1, 1)]
}

/// The face of the cube `[-1, 1]^3` where coordinate `axis` equals `sign`.
fn face(axis: usize, sign: i128) -> Texture {
    let mut e = vec![vec![0i128; 3]; 4];
    let others: Vec<usize> = (0..3).filter(|a| *a != axis).collect();
    e[others[0]][0] = 1;
    e[others[1]][1] = 1;
    e[axis][2] = sign;
    e[3][2] = 1;
    Texture { embedding: e, poly: vec![square()] }
}

fn cube_regions() -> Vec<Vec<Vec<i128>>> {
    vec![mat(&[
        &[1, 0, 0, 1],
        &[-1, 0, 0, 1],
        &[0, 1, 0, 1],
        &[0, -1, 0, 1],
        &[0, 0, 1, 1],
        &[0, 0, -1, 1],
    ])]
}

fn cube_hull() -> Vec<Vec<i128>> {
    let mut h = Vec::new();
    for x in [-1i128, 1] {
        for y in [-1i128, 1] {
            for z in [-1i128, 1] {
                h.push(vec![x, y, z, 1]);
            }
        }
    }
    h
}

/// A cubical cell at depth `depth`; `x_sign` sets its orientation.
fn cube(x_sign: i128, depth: i128) -> Facet {
    shifted_cube(x_sign, depth, 0)
}

/// A cubical cell at depth `depth`, moved by `shift` along x.
fn shifted_cube(x_sign: i128, depth: i128, shift: i128) -> Facet {
    let mut texture = Vec::new();
    for axis in 0..3 {
        texture.push(face(axis, 1));
        texture.push(face(axis, -1));
    }
    Facet {
        embedding: mat(&[&[x_sign, 0, 0, shift], &[0, 1, 0, 0], &[0, 0, 1, 0], &[0, 0, 0, depth], &[0, 0, 0, 1]]),
        regions: cube_regions(),
        texture,
        convex_hull: cube_hull(),
    }
}

/// Identity, except that the weight also takes the depth: a simple
/// perspective.
fn camera() -> Vec<Vec<i128>> {
    mat(&[
        &[1, 0, 0, 0, 0],
        &[0, 1, 0, 0, 0],
        &[0, 0, 1, 0, 0],
        &[0, 0, 0, 1, 0],
        &[0, 0, 0, 1, 1],
    ])
}

fn triangles_of(mesh: &Mesh, p: &Vec<Vec<i128>>) -> Vec<Triangle> {
    let mut out = Vec::new();
    for o in mesh.project(p) {
        assert!(o.cuts.is_empty());
        let poly = mesh.facets[o.facet].texture[o.texture].poly.clone();
        out.extend(Texture { embedding: o.embedding, poly }.get_triangles());
    }
    out
}

#[test]
fn lone_cube_gives_twelve_triangles() {
    let mesh = Mesh { facets: vec![cube(-1, 3)] };
    let tris = triangles_of(&mesh, &camera());
    assert_eq!(tris.len(), 12);
    assert!(tris.iter().all(|t| !t.negated));
}

#[test]
fn lone_cube_patches_land_in_screen_space() {
    let mesh = Mesh { facets: vec![cube(-1, 3)] };
    let out = mesh.project(&camera());
    assert_eq!(out.len(), 6);
    for (k, o) in out.iter().enumerate() {
        assert_eq!(o.facet, 0);
        assert_eq!(o.texture, k);
    }
    // Face z = 1: (u, v, w) -> (-u, v, w, 4 w).
    assert_eq!(out[4].embedding, mat(&[&[-1, 0, 0], &[0, 1, 0], &[0, 0, 1], &[0, 0, 4]]));
}

#[test]
fn back_facing_cube_is_culled() {
    let mesh = Mesh { facets: vec![cube(1, 3)] };
    assert!(mesh.project(&camera()).is_empty());
    assert!(mesh.facets[0].to_screen_depth_space(&camera()).is_empty());
}

#[test]
fn back_facing_cube_is_culled_beside_another() {
    let mesh = Mesh { facets: vec![cube(1, 3), cube(-1, 5)] };
    let out = mesh.project(&camera());
    assert_eq!(out.len(), 6);
    assert!(out.iter().all(|o| o.facet == 1));
    // The back-facing cube casts no region on the other one.
    assert!(out.iter().all(|o| o.cuts.is_empty()));
}

#[test]
fn singular_cell_contributes_nothing() {
    let mut f = cube(-1, 3);
    f.embedding = mat(&[&[-1, 0, 0, 0], &[0, 1, 0, 0], &[0, 0, 0, 0], &[0, 0, 0, 3], &[0, 0, 0, 1]]);
    assert!(f.to_screen_depth_space(&camera()).is_empty());
    let mesh = Mesh { facets: vec![f, cube(-1, 5)] };
    let out = mesh.project(&camera());
    assert_eq!(out.len(), 6);
    assert!(out.iter().all(|o| o.facet == 1 && o.cuts.is_empty()));
}

#[test]
fn nearer_cube_cuts_every_face_of_farther_one() {
    let mesh = Mesh { facets: vec![cube(-1, 3), cube(-1, 5)] };
    let out = mesh.project(&camera());
    assert_eq!(out.len(), 12);
    for o in out.iter() {
        // One region of the other cube, bounded by the giant square.
        assert_eq!(o.cuts.len(), 1);
        let c = &o.cuts[0];
        assert!(c.len() >= 4);
        assert_eq!(c[c.len() - 4..].to_vec(), giant_square());
    }
}

#[test]
fn occlusion_is_repeatable() {
    let mesh = Mesh { facets: vec![cube(-1, 3), cube(-1, 5), cube(1, 4)] };
    let a = mesh.project(&camera());
    let b = mesh.project(&camera());
    assert_eq!(a.len(), b.len());
    for (x, y) in a.iter().zip(b.iter()) {
        assert_eq!((x.facet, x.texture), (y.facet, y.texture));
        assert_eq!(x.cuts, y.cuts);
        assert_eq!(x.embedding, y.embedding);
    }
}

#[test]
fn occluder_regions_of_a_cube() {
    let f = cube(-1, 3);
    let r = f.to_screen_depth_space(&camera());
    assert_eq!(r.len(), 1);
    assert_eq!(r[0].len(), 7);
    // The outward hyperplane comes last.
    assert_eq!(r[0][6], vec![0, 0, 0, 4, -3]);
    // x + w >= 0 in the cell maps to -4 x + w >= 0 on screen with depth,
    // scaled by the determinant's magnitude.
    assert_eq!(r[0][0], vec![-4, 0, 0, 0, 1]);
}

#[test]
fn outward_hyperplane_and_its_sign() {
    let e = mat(&[&[-1, 0, 0, 0], &[0, 1, 0, 0], &[0, 0, 1, 0], &[0, 0, 0, 3], &[0, 0, 0, 4]]);
    assert_eq!(region_behind(&e), Some(vec![0, 0, 0, 4, -3]));
    let f = mat(&[&[1, 0, 0, 0], &[0, 1, 0, 0], &[0, 0, 1, 0], &[0, 0, 0, 3], &[0, 0, 0, 4]]);
    assert_eq!(region_behind(&f), None);
}

#[test]
fn forget_depth_drops_the_fourth_coordinate() {
    let m = matrix_forget_depth();
    assert_eq!(m, mat(&[&[1, 0, 0, 0, 0], &[0, 1, 0, 0, 0], &[0, 0, 1, 0, 0], &[0, 0, 0, 0, 1]]));
}

#[test]
fn shoelace_area() {
    let sq = vec![pt(0, 0, 1), pt(2, 0, 1), pt(2, 2, 1), pt(0, 2, 1)];
    assert_eq!(area(&sq), 1);
    let mut rev = sq.clone();
    rev.reverse();
    assert_eq!(area(&rev), -1);
    let flat = vec![pt(0, 0, 1), pt(1, 1, 1), pt(2, 2, 1)];
    assert_eq!(area(&flat), 0);
}

#[test]
fn area_does_not_depend_on_the_weight() {
    let unit = vec![pt(0, 0, 1), pt(1, 0, 1), pt(0, 1, 1)];
    let halves = vec![pt(0, 0, 2), pt(2, 0, 2), pt(0, 2, 2)];
    assert_eq!(area(&unit), 1);
    assert_eq!(area(&halves), 1);
    let clockwise = vec![pt(0, 0, 3), pt(0, 3, 3), pt(3, 0, 3)];
    assert_eq!(area(&clockwise), -1);
}

#[test]
fn clockwise_loop_is_turned() {
    let mut loop_ = square();
    loop_.reverse();
    let t = Texture { embedding: mat(&[&[1, 0, 0], &[0, 1, 0], &[0, 0, 0], &[0, 0, 1]]), poly: vec![loop_] };
    let tris = t.get_triangles();
    assert_eq!(tris.len(), 2);
    assert!(tris.iter().all(|t| !t.negated));
    // Turned back: (-1, -1), (1, -1), (1, 1), (-1, 1).
    assert_eq!(tris[0].vertices[0].texcoord, [-1, -1, 1]);
    assert_eq!(tris[0].vertices[1].texcoord, [1, -1, 1]);
    assert_eq!(tris[0].vertices[2].texcoord, [1, 1, 1]);
    assert_eq!(tris[1].vertices[2].texcoord, [-1, 1, 1]);
    assert_eq!(tris[0].vertices[1].position, [1, -1, 0, 1]);
}

#[test]
fn reflex_fan_triangle_is_negated() {
    // A counterclockwise loop whose fan from its first point has one
    // clockwise triangle.
    let l = vec![pt(0, 0, 1), pt(4, 0, 1), pt(1, 1, 1), pt(0, 4, 1)];
    let t = Texture { embedding: mat(&[&[1, 0, 0], &[0, 1, 0], &[0, 0, 0], &[0, 0, 1]]), poly: vec![l] };
    let tris = t.get_triangles();
    assert_eq!(tris.len(), 2);
    assert!(!tris[0].negated);
    assert!(!tris[1].negated);
    let l2 = vec![pt(0, 4, 1), pt(0, 0, 1), pt(4, 0, 1), pt(1, 1, 1)];
    let t2 = Texture { embedding: mat(&[&[1, 0, 0], &[0, 1, 0], &[0, 0, 0], &[0, 0, 1]]), poly: vec![l2] };
    let tris2 = t2.get_triangles();
    assert_eq!(tris2.len(), 2);
    assert!(!tris2[0].negated);
    assert!(tris2[1].negated);
}

#[test]
fn short_loops_give_no_triangles() {
    let t = Texture { embedding: mat(&[&[1, 0, 0], &[0, 1, 0], &[0, 0, 0], &[0, 0, 1]]), poly: vec![vec![], vec![pt(0, 0, 1), pt(1, 0, 1)]] };
    assert!(t.get_triangles().is_empty());
}

#[test]
fn vertex_maps_point_through_embedding() {
    let e = mat(&[&[1, 2, 0], &[0, 1, 3], &[1, 0, 0], &[0, 0, 5]]);
    let v = Vertex::new(pt(2, -1, 1), &e);
    assert_eq!(v.position, [0, 2, 2, 5]);
    assert_eq!(v.texcoord, [2, -1, 1]);
    // A point at infinity is mapped too.
    let far = Vertex::new(pt(1, 0, 0), &e);
    assert_eq!(far.position, [1, 0, 1, 0]);
}

#[test]
fn region_lines_in_texture_plane() {
    // Cell map: identity on (x, y, z) and weight, depth ignored.
    let m = mat(&[&[1, 0, 0, 0], &[0, 1, 0, 0], &[0, 0, 1, 0], &[0, 0, 0, 0], &[0, 0, 0, 1]]);
    // Texture: the plane z = w.
    let t = mat(&[&[1, 0, 0], &[0, 1, 0], &[0, 0, 1], &[0, 0, 1]]);
    let region = mat(&[&[1, 0, 0, 0, 2], &[0, 0, 1, 0, -1], &[0, 0, 0, 5, 0]]);
    let r = region_to_polygon(&region, &m, &t);
    // x + 2 w >= 0 stays; z - w >= 0 becomes 0 >= 0 and is dropped, as is
    // the depth-only constraint.
    let mut expected = vec![vec![1, 0, 2]];
    expected.extend(giant_square());
    assert_eq!(r, expected);
}

#[test]
fn input_limit() {
    assert_eq!(COORD_LIMIT, 256);
}

#[test]
fn cells_far_apart_on_screen_are_pruned() {
    let mesh = Mesh { facets: vec![cube(-1, 3), shifted_cube(-1, 5, 10)] };
    let out = mesh.project(&camera());
    assert_eq!(out.len(), 12);
    assert!(out.iter().all(|o| o.cuts.is_empty()));
}

#[test]
fn cells_without_hull_are_never_pruned() {
    let mut far = shifted_cube(-1, 5, 10);
    far.convex_hull = Vec::new();
    let mesh = Mesh { facets: vec![cube(-1, 3), far] };
    let out = mesh.project(&camera());
    assert_eq!(out.len(), 12);
    assert!(out.iter().all(|o| o.cuts.len() == 1));
}

#[test]
fn touching_boxes_overlap() {
    // x in [0, 1] and x in [1, 2], the second written with weight 2.
    let a = mat(&[&[0, 0, 0, 1], &[1, 1, 1, 1]]);
    let b = mat(&[&[2, 0, 0, 2], &[4, 2, 2, 2]]);
    assert!(boxes_overlap(&a, &b));
    assert!(boxes_overlap(&b, &a));
}

#[test]
fn separate_boxes_do_not_overlap() {
    let a = mat(&[&[0, 0, 0, 1], &[1, 1, 1, 1]]);
    let b = mat(&[&[3, 0, 0, 2], &[4, 2, 2, 2]]);
    assert!(!boxes_overlap(&a, &b));
    // Apart on the third axis only.
    let c = mat(&[&[0, 0, 3, 1], &[1, 1, 4, 1]]);
    assert!(!boxes_overlap(&a, &c));
}

#[test]
fn square_boundaries_bound_the_square() {
    let lines = loop_boundaries(&square());
    // y >= -1, x <= 1, y <= 1, x >= -1, each scaled by 2.
    assert_eq!(lines, mat(&[&[0, 2, 2], &[-2, 0, 2], &[0, -2, 2], &[2, 0, 2]]));
}

#[test]
fn hidden_cell_can_be_left_out() {
    let with = Mesh { facets: vec![cube(-1, 3), cube(1, 4), cube(-1, 5)] };
    let without = Mesh { facets: vec![cube(-1, 3), cube(-1, 5)] };
    let a = with.project(&camera());
    let b = without.project(&camera());
    assert_eq!(a.len(), b.len());
    for (x, y) in a.iter().zip(b.iter()) {
        let renumbered = if y.facet < 1 { y.facet } else { y.facet + 1 };
        assert_eq!(x.facet, renumbered);
        assert_eq!(x.texture, y.texture);
        assert_eq!(x.cuts, y.cuts);
        assert_eq!(x.embedding, y.embedding);
    }
}
