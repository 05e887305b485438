use rust_rt::content::{tuples2, tuples3};
use rust_rt::geom::{Point3, AABB};
use rust_rt::mesh::OctreeMesh;

fn lattice(x: i32, y: i32, z: i32) -> Point3 {
    Point3 { x, y, z }
}

/// A strip of `count` triangles along the x axis, each on a slice of its own.
fn strip(count: usize) -> (Vec<Point3>, Vec<(u32, u32, u32)>) {
    let mut coordinates = Vec::new();
    let mut indices = Vec::new();
    for i in 0..count {
        let x = 10 * i as i32;
        let base = coordinates.len() as u32;
        coordinates.push(lattice(x, 0, 0));
        coordinates.push(lattice(x, 5, 0));
        coordinates.push(lattice(x, 0, 5));
        indices.push((base, base + 1, base + 2));
    }
    (coordinates, indices)
}

/// A ray along the x axis from `x = from`, at height `y` and depth `z`; it
/// hits a triangle of the strip where it passes through the slice within
/// the triangle.
fn crosses(from: i32, y: i32, z: i32, b: AABB) -> bool {
    b.max.x >= from && b.min.y <= y && y <= b.max.y && b.min.z <= z && z <= b.max.z
}

fn hit(mesh: &OctreeMesh, from: i32, y: i32, z: i32, t: usize) -> Option<(u64, (i32, i32))> {
    let (a, _, _) = mesh.triangle(t);
    if a.x >= from && y >= 0 && z >= 0 && y + z <= 5 {
        Some(((a.x - from) as u64, (y, z)))
    } else {
        None
    }
}

#[test]
fn grouping_in_threes_drops_the_rest() {
    assert_eq!(tuples3(&vec![1, 2, 3, 4, 5, 6, 7, 8]), vec![(1, 2, 3), (4, 5, 6)]);
    assert_eq!(tuples3(&vec![1, 2]), Vec::<(i32, i32, i32)>::new());
    assert_eq!(tuples3(&Vec::<u8>::new()), Vec::<(u8, u8, u8)>::new());
    assert_eq!(tuples3(&vec![0.5f32, 1.5, 2.5]), vec![(0.5, 1.5, 2.5)]);
}

#[test]
fn grouping_in_twos_drops_the_rest() {
    assert_eq!(tuples2(&vec![1, 2, 3, 4, 5]), vec![(1, 2), (3, 4)]);
    assert_eq!(tuples2(&vec![1]), Vec::<(i32, i32)>::new());
}

#[test]
fn mesh_keeps_what_it_was_given() {
    let (coordinates, indices) = strip(3);
    let mesh = OctreeMesh::new("strip".to_string(), coordinates.clone(), indices.clone(), 4);
    assert_eq!(mesh.name(), "strip");
    assert_eq!(mesh.material_index(), 4);
    assert_eq!(mesh.len(), 3);
    assert_eq!(mesh.triangle(1), (lattice(10, 0, 0), lattice(10, 5, 0), lattice(10, 0, 5)));
    assert_eq!(*mesh.bounds(), AABB { min: lattice(0, 0, 0), max: lattice(20, 5, 5) });
}

#[test]
fn mesh_bounds_take_in_every_coordinate() {
    let coordinates = vec![lattice(0, 0, 0), lattice(1, 0, 0), lattice(0, 1, 0), lattice(-50, 7, 9)];
    let mesh = OctreeMesh::new(String::new(), coordinates, vec![(0, 1, 2)], 0);
    assert_eq!(*mesh.bounds(), AABB { min: lattice(-50, 0, 0), max: lattice(1, 7, 9) });
}

#[test]
fn nearest_triangle_is_returned_with_its_corners() {
    let (coordinates, indices) = strip(40);
    let mesh = OctreeMesh::new("strip".to_string(), coordinates, indices, 2);
    let best = mesh.intersects(|b| crosses(95, 1, 1, b), |t| hit(&mesh, 95, 1, 1, t)).unwrap();
    assert_eq!(best.triangle, 10);
    assert_eq!(best.indices, (30, 31, 32));
    assert_eq!(best.distance, 5);
    assert_eq!(best.material_index, 2);
    assert_eq!(best.detail, (1, 1));
    assert!(mesh.intersects(|b| crosses(95, 4, 4, b), |t| hit(&mesh, 95, 4, 4, t)).is_none());
    assert!(mesh.intersects(|b| crosses(1000, 1, 1, b), |t| hit(&mesh, 1000, 1, 1, t)).is_none());
}

#[test]
fn a_large_mesh_agrees_with_testing_every_triangle() {
    let (coordinates, indices) = strip(1500);
    let mesh = OctreeMesh::new("strip".to_string(), coordinates, indices, 0);
    for from in [-5, 0, 1, 4999, 5000, 7777, 14990, 14991] {
        let indexed = mesh.intersects(|b| crosses(from, 2, 2, b), |t| hit(&mesh, from, 2, 2, t));
        let scanned = (0..mesh.len()).filter_map(|t| hit(&mesh, from, 2, 2, t).map(|h| (h.0, t))).min();
        match (indexed, scanned) {
            (Some(found), Some((distance, triangle))) => {
                assert_eq!(found.distance, distance);
                assert_eq!(found.triangle, triangle);
            }
            (None, None) => {}
            _ => panic!("the index and the scan disagree on whether the ray hits"),
        }
    }
}

#[test]
fn a_large_mesh_is_not_searched_in_full() {
    let (coordinates, indices) = strip(1500);
    let mesh = OctreeMesh::new("strip".to_string(), coordinates, indices, 0);
    let tested = std::cell::RefCell::new(vec![false; 1500]);
    let best = mesh.intersects(
        |b| b.min.x <= 20 && 20 <= b.max.x,
        |t| {
            tested.borrow_mut()[t] = true;
            hit(&mesh, 0, 1, 1, t)
        },
    );
    assert_eq!(best.unwrap().triangle, 0);
    let distinct = tested.borrow().iter().filter(|&&seen| seen).count();
    assert!(distinct > 0);
    assert!(distinct < 1500);
    assert!(tested.borrow()[2]);
    assert!(!tested.borrow()[1499]);
}

#[test]
fn a_mesh_is_cut_once_it_holds_five_hundred_triangles() {
    let (coordinates, indices) = strip(499);
    assert_eq!(OctreeMesh::new("strip".to_string(), coordinates, indices, 0).octants(), 1);
    let (coordinates, indices) = strip(500);
    assert_eq!(OctreeMesh::new("strip".to_string(), coordinates, indices, 0).octants(), 9);
}
