use annulus_mesh::adjacency::AdjacencyTable;
use annulus_mesh::error::MeshError;

fn table(faces: Vec<Vec<usize>>, n: usize) -> AdjacencyTable {
    match AdjacencyTable::build(&faces, n) {
        Ok(t) => t,
        Err(e) => panic!("the faces were refused: {:?}", e),
    }
}

fn lists(t: &AdjacencyTable) -> Vec<Vec<usize>> {
    let mut all = Vec::new();
    for v in 0..t.len() {
        all.push(t.neighbours(v).clone());
    }
    all
}

#[test]
fn single_triangle_has_the_other_two() {
    let t = table(vec![vec![0, 1, 2]], 3);
    assert_eq!(lists(&t), vec![vec![1, 2], vec![0, 2], vec![0, 1]]);
}

#[test]
fn single_triangle_rotated_once() {
    let t = table(vec![vec![1, 2, 0]], 3);
    assert_eq!(lists(&t), vec![vec![1, 2], vec![0, 2], vec![0, 1]]);
}

#[test]
fn single_triangle_rotated_twice() {
    let t = table(vec![vec![2, 0, 1]], 3);
    assert_eq!(lists(&t), vec![vec![1, 2], vec![0, 2], vec![0, 1]]);
}

#[test]
fn single_triangle_reversed() {
    let t = table(vec![vec![2, 1, 0]], 3);
    assert_eq!(lists(&t), vec![vec![1, 2], vec![0, 2], vec![0, 1]]);
}

#[test]
fn shared_edge_is_listed_once() {
    // the edge 1-2 belongs to both faces
    let t = table(vec![vec![0, 1, 2], vec![2, 1, 3]], 4);
    assert_eq!(lists(&t), vec![vec![1, 2], vec![0, 2, 3], vec![0, 1, 3], vec![1, 2]]);
}

#[test]
fn lists_come_out_in_increasing_order() {
    // vertex 0 meets 4, then 2, then 3, then 1
    let t = table(vec![vec![0, 4, 2], vec![0, 3, 1]], 5);
    assert_eq!(t.neighbours(0), &vec![1, 2, 3, 4]);
    assert_eq!(t.neighbours(4), &vec![0, 2]);
}

#[test]
fn order_of_faces_does_not_matter() {
    let a = table(vec![vec![0, 1, 2], vec![2, 1, 3], vec![3, 1, 4]], 5);
    let b = table(vec![vec![3, 1, 4], vec![0, 1, 2], vec![2, 1, 3]], 5);
    assert_eq!(lists(&a), lists(&b));
}

#[test]
fn a_face_may_have_more_than_three_vertices() {
    let t = table(vec![vec![0, 1, 2, 3]], 4);
    assert_eq!(lists(&t), vec![vec![1, 3], vec![0, 2], vec![1, 3], vec![0, 2]]);
}

#[test]
fn neighbourhood_is_mutual() {
    let t = table(vec![vec![0, 1, 2], vec![2, 1, 3], vec![3, 1, 4], vec![0, 2, 5]], 6);
    for a in 0..t.len() {
        for &b in t.neighbours(a) {
            assert!(t.neighbours(b).contains(&a), "{} lists {} but not the reverse", a, b);
        }
    }
}

#[test]
fn every_vertex_of_a_face_has_a_neighbour() {
    let faces = vec![vec![0, 1, 2], vec![2, 1, 3], vec![5, 3, 1]];
    let t = table(faces.clone(), 7);
    for face in &faces {
        for &v in face {
            assert!(!t.neighbours(v).is_empty());
        }
    }
}

#[test]
fn no_faces_give_empty_lists() {
    let t = table(vec![], 3);
    assert_eq!(t.len(), 3);
    assert_eq!(lists(&t), vec![vec![], vec![], vec![]]);
}

#[test]
fn no_points_and_no_faces() {
    let t = table(vec![], 0);
    assert_eq!(t.len(), 0);
    assert_eq!(t.first_isolated(0), None);
}

#[test]
fn a_vertex_on_no_face_is_found() {
    let t = table(vec![vec![0, 1, 2]], 5);
    assert_eq!(t.first_isolated(0), Some(3));
    assert_eq!(t.first_isolated(3), Some(3));
    assert_eq!(t.first_isolated(4), Some(4));
    assert_eq!(t.first_isolated(5), None);
    assert_eq!(t.first_isolated(9), None);
}

#[test]
fn no_vertex_is_isolated_in_a_full_fan() {
    let t = table(vec![vec![0, 1, 2], vec![0, 2, 3], vec![0, 3, 1]], 4);
    assert_eq!(t.first_isolated(0), None);
}

#[test]
fn a_face_of_two_vertices_is_refused() {
    let r = AdjacencyTable::build(&vec![vec![0, 1, 2], vec![0, 1]], 3);
    assert_eq!(r.err(), Some(MeshError::OracleFailure));
}

#[test]
fn an_empty_face_is_refused() {
    let r = AdjacencyTable::build(&vec![vec![]], 3);
    assert_eq!(r.err(), Some(MeshError::OracleFailure));
}

#[test]
fn a_vertex_out_of_range_is_refused() {
    let r = AdjacencyTable::build(&vec![vec![0, 1, 3]], 3);
    assert_eq!(r.err(), Some(MeshError::OracleFailure));
}

#[test]
fn the_last_vertex_is_in_range() {
    let t = table(vec![vec![0, 1, 2]], 3);
    assert_eq!(t.neighbours(2), &vec![0, 1]);
}

#[test]
fn a_vertex_twice_on_a_face_is_its_own_neighbour() {
    let t = table(vec![vec![0, 0, 1]], 2);
    assert_eq!(lists(&t), vec![vec![0, 1], vec![0]]);
}
