use slicing::direction::NormalizeLocation;
use slicing::error::Error;
use slicing::mesh::{furthest_vertex, Mesh, Triangle};

#[test]
fn triangle_corners_follow_the_indices() {
    let mesh = Mesh {
        vertices: vec![(0, 0, 0), (1, 0, 0), (0, 1, 0)],
        triangles: vec![Triangle { v1: 2, v2: 0, v3: 1 }, Triangle { v1: 1, v2: 1, v3: 0 }],
    };
    assert!(mesh.is_well_formed());
    assert_eq!(mesh.num_vertices(), 3);
    assert_eq!(mesh.num_triangles(), 2);
    let c = mesh.triangle_corners();
    assert_eq!(c.len(), 2);
    assert_eq!(c[0], ((0, 1, 0), (0, 0, 0), (1, 0, 0)));
    assert_eq!(c[1], ((1, 0, 0), (1, 0, 0), (0, 0, 0)));
}

#[test]
fn mesh_with_index_past_the_end_is_not_well_formed() {
    let mesh = Mesh {
        vertices: vec![(0, 0, 0), (1, 0, 0), (0, 1, 0)],
        triangles: vec![Triangle { v1: 0, v2: 1, v3: 3 }],
    };
    assert!(!mesh.is_well_formed());
    assert!(!Triangle { v1: 0, v2: 1, v3: 3 }.fits(3));
    assert!(Triangle { v1: 0, v2: 1, v3: 3 }.fits(4));
}

#[test]
fn empty_mesh_has_no_corners() {
    let mesh: Mesh<(i32, i32, i32)> = Mesh { vertices: vec![], triangles: vec![] };
    assert!(mesh.is_well_formed());
    assert!(mesh.triangle_corners().is_empty());
}

#[test]
fn corner_directions() {
    let c = NormalizeLocation::lower_left_back();
    assert_eq!((c.x, c.y, c.z), (-1, -1, -1));
    let c = NormalizeLocation::upper_right_front();
    assert_eq!((c.x, c.y, c.z), (1, 1, 1));
    let c = NormalizeLocation::lower_right_back();
    assert_eq!((c.x, c.y, c.z), (-1, 1, -1));
    let c = NormalizeLocation::upper_left_front();
    assert_eq!((c.x, c.y, c.z), (1, -1, 1));
    let c = NormalizeLocation::upper_left_back();
    assert_eq!((c.x, c.y, c.z), (-1, -1, 1));
    let c = NormalizeLocation::upper_right_back();
    assert_eq!((c.x, c.y, c.z), (-1, 1, 1));
    let c = NormalizeLocation::lower_left_front();
    assert_eq!((c.x, c.y, c.z), (1, -1, -1));
    let c = NormalizeLocation::lower_right_front();
    assert_eq!((c.x, c.y, c.z), (1, 1, -1));
}

fn at_least(d: f64, best: f64) -> bool {
    d >= best
}

#[test]
fn furthest_vertex_takes_the_last_of_equal_maxima() {
    assert_eq!(furthest_vertex(&vec![1.0, 3.0, 3.0, 2.0], at_least), Some(2));
    assert_eq!(furthest_vertex(&vec![5.0, 3.0, 1.0], at_least), Some(0));
}

#[test]
fn furthest_vertex_starts_at_the_first_vertex() {
    assert_eq!(furthest_vertex(&vec![-1.0, -0.5], at_least), Some(1));
    assert_eq!(furthest_vertex(&vec![-0.5, -1.0], at_least), Some(0));
    assert_eq!(furthest_vertex(&vec![-2.0, -2.0], at_least), Some(1));
    assert_eq!(furthest_vertex(&Vec::<f64>::new(), at_least), None);
    assert_eq!(furthest_vertex(&vec![-1.0, 0.0, -2.0], at_least), Some(1));
}

#[test]
fn furthest_vertex_of_a_cube_corner() {
    // Distances along (-1, -1, -1) of the corners of [0, 2]^3: the origin corner is furthest.
    let mut dists = Vec::new();
    for i in 0..8 {
        let p = [(i & 1) as f64 * 2.0, ((i >> 1) & 1) as f64 * 2.0, ((i >> 2) & 1) as f64 * 2.0];
        dists.push(-p[0] - p[1] - p[2]);
    }
    assert_eq!(furthest_vertex(&dists, at_least), Some(0));
}

fn add3(s: [f64; 3], v: [f64; 3]) -> [f64; 3] {
    [s[0] + v[0], s[1] + v[1], s[2] + v[2]]
}

fn div3(s: [f64; 3], n: usize) -> [f64; 3] {
    [s[0] / n as f64, s[1] / n as f64, s[2] / n as f64]
}

#[test]
fn centroid_of_a_centered_cube_is_the_origin() {
    let mut vertices = Vec::new();
    for i in 0..8 {
        let c = |b: usize| if (i >> b) & 1 == 1 { 1.0 } else { -1.0 };
        vertices.push([c(0), c(1), c(2)]);
    }
    let mesh = Mesh { vertices, triangles: vec![] };
    assert_eq!(mesh.centroid([0.0; 3], add3, div3).ok(), Some([0.0, 0.0, 0.0]));
}

#[test]
fn centroid_is_the_mean() {
    let mesh = Mesh {
        vertices: vec![[0.0, 0.0, 0.0], [2.0, 0.0, 4.0], [4.0, 3.0, 2.0]],
        triangles: vec![Triangle { v1: 0, v2: 1, v3: 2 }],
    };
    assert_eq!(mesh.centroid([0.0; 3], add3, div3).ok(), Some([2.0, 1.0, 2.0]));
}

#[test]
fn centroid_of_an_empty_mesh_is_an_error() {
    let mesh: Mesh<[f64; 3]> = Mesh { vertices: vec![], triangles: vec![] };
    assert!(matches!(mesh.centroid([0.0; 3], add3, div3), Err(Error::EmptyMesh)));
}

fn corner_mesh(offset: f64) -> Mesh<[f64; 3]> {
    let mut vertices = Vec::new();
    for i in 0..8 {
        let c = |b: usize| if (i >> b) & 1 == 1 { offset + 2.0 } else { offset };
        vertices.push([c(0), c(1), c(2)]);
    }
    Mesh { vertices, triangles: vec![Triangle { v1: 0, v2: 1, v3: 2 }] }
}

fn anchor_along(mesh: &mut Mesh<[f64; 3]>, dir: [f64; 3]) {
    mesh.normalize(
        |p: [f64; 3]| p[0] * dir[0] + p[1] * dir[1] + p[2] * dir[2],
        at_least,
        |p: [f64; 3], a: [f64; 3]| [p[0] - a[0], p[1] - a[1], p[2] - a[2]],
    )
}

#[test]
fn normalize_moves_the_furthest_vertex_to_the_origin() {
    let c = NormalizeLocation::upper_right_front();
    let dir = [c.x as f64, c.y as f64, c.z as f64];
    let mut mesh = corner_mesh(1.0);
    anchor_along(&mut mesh, dir);
    assert_eq!(mesh.vertices[7], [0.0, 0.0, 0.0]);
    assert_eq!(mesh.vertices[0], [-2.0, -2.0, -2.0]);
    assert_eq!(mesh.triangles, vec![Triangle { v1: 0, v2: 1, v3: 2 }]);
}

#[test]
fn normalize_twice_moves_nothing_the_second_time() {
    let c = NormalizeLocation::lower_left_back();
    let dir = [c.x as f64, c.y as f64, c.z as f64];
    let mut mesh = corner_mesh(-3.0);
    anchor_along(&mut mesh, dir);
    assert_eq!(mesh.vertices[0], [0.0, 0.0, 0.0]);
    let once = mesh.vertices.clone();
    anchor_along(&mut mesh, dir);
    assert_eq!(mesh.vertices, once);
}

#[test]
fn normalize_moves_a_mesh_behind_the_origin_too() {
    // Every vertex lies behind the origin along the direction: the furthest still moves there.
    let c = NormalizeLocation::lower_left_back();
    let dir = [c.x as f64, c.y as f64, c.z as f64];
    let mut mesh = corner_mesh(1.0);
    anchor_along(&mut mesh, dir);
    assert_eq!(mesh.vertices[0], [0.0, 0.0, 0.0]);
    assert_eq!(mesh.vertices[7], [2.0, 2.0, 2.0]);
}

#[test]
fn normalize_of_two_vertices_behind_the_origin() {
    let mut mesh = Mesh { vertices: vec![[-1.0, -1.0, -1.0], [-2.0, -2.0, -2.0]], triangles: vec![] };
    anchor_along(&mut mesh, [1.0, 1.0, 1.0]);
    assert_eq!(mesh.vertices, vec![[0.0, 0.0, 0.0], [-1.0, -1.0, -1.0]]);
}

#[test]
fn normalize_of_an_empty_mesh_does_nothing() {
    let mut mesh: Mesh<[f64; 3]> = Mesh { vertices: vec![], triangles: vec![] };
    anchor_along(&mut mesh, [1.0, 1.0, 1.0]);
    assert!(mesh.vertices.is_empty());
}
