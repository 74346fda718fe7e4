use annulus_mesh::grid::SpatialGrid;
use annulus_mesh::sampler::Sampler;

fn grid(columns: usize, rows: usize) -> SpatialGrid {
    match SpatialGrid::new(columns, rows) {
        Some(g) => g,
        None => panic!("no grid of {} by {}", columns, rows),
    }
}

fn sampler(columns: usize, rows: usize) -> Sampler {
    match Sampler::new(columns, rows) {
        Some(s) => s,
        None => panic!("no sampler of {} by {}", columns, rows),
    }
}

#[test]
fn new_grid_is_empty() {
    let g = grid(4, 3);
    assert_eq!(g.column_count(), 4);
    assert_eq!(g.row_count(), 3);
    for r in 0..3 {
        for c in 0..4 {
            assert!(g.is_vacant(c, r));
            assert!(g.occupants(c, r).is_empty());
        }
    }
}

#[test]
fn too_many_cells() {
    assert!(SpatialGrid::new(usize::MAX, 2).is_none());
    assert!(SpatialGrid::new(usize::MAX / 2 + 1, 2).is_none());
    assert!(Sampler::new(usize::MAX, usize::MAX).is_none());
}

#[test]
fn a_grid_without_cells() {
    let g = grid(0, 5);
    assert_eq!(g.column_count(), 0);
    assert_eq!(g.row_count(), 5);
    assert!(SpatialGrid::new(usize::MAX, 0).is_some());
}

#[test]
fn insert_keeps_the_order_within_a_cell() {
    let mut g = grid(3, 3);
    g.insert(1, 2, 7);
    g.insert(1, 2, 3);
    g.insert(1, 2, 9);
    assert_eq!(g.occupants(1, 2), &vec![7, 3, 9]);
    assert!(!g.is_vacant(1, 2));
    assert!(g.is_vacant(2, 1));
    assert!(g.is_vacant(1, 1));
    assert!(g.is_vacant(0, 2));
}

#[test]
fn columns_and_rows_are_not_mixed_up() {
    let mut g = grid(2, 5);
    g.insert(1, 4, 0);
    g.insert(0, 3, 1);
    assert_eq!(g.occupants(1, 4), &vec![0]);
    assert_eq!(g.occupants(0, 3), &vec![1]);
    assert!(g.is_vacant(1, 3));
    assert!(g.is_vacant(0, 4));
}

#[test]
fn block_goes_row_by_row() {
    let mut g = grid(7, 7);
    // one index per cell, numbered against the order of the cells
    let mut index = 100;
    for r in 0..7 {
        for c in 0..7 {
            index -= 1;
            g.insert(c, r, index);
        }
    }
    let found = g.query_block(3, 3, 1);
    // rows 2..=4, columns 2..=4; the cell (c, r) holds 99 - (7 r + c)
    assert_eq!(found, vec![83, 82, 81, 76, 75, 74, 69, 68, 67]);
}

#[test]
fn block_of_reach_two_has_twenty_five_cells() {
    let mut g = grid(9, 9);
    for r in 0..9 {
        for c in 0..9 {
            g.insert(c, r, 9 * r + c);
        }
    }
    let found = g.query_block(4, 4, 2);
    assert_eq!(found.len(), 25);
    let mut expected = Vec::new();
    for r in 2..7 {
        for c in 2..7 {
            expected.push(9 * r + c);
        }
    }
    assert_eq!(found, expected);
}

#[test]
fn block_is_cut_at_the_edges() {
    let mut g = grid(4, 4);
    for r in 0..4 {
        for c in 0..4 {
            g.insert(c, r, 4 * r + c);
        }
    }
    assert_eq!(g.query_block(0, 0, 1), vec![0, 1, 4, 5]);
    assert_eq!(g.query_block(3, 3, 1), vec![10, 11, 14, 15]);
    assert_eq!(g.query_block(3, 0, 2), vec![1, 2, 3, 5, 6, 7, 9, 10, 11]);
    assert_eq!(g.query_block(1, 2, 0), vec![9]);
    assert_eq!(g.query_block(2, 1, 100).len(), 16);
    assert_eq!(g.query_block(2, 1, usize::MAX).len(), 16);
}

#[test]
fn block_skips_cells_out_of_reach() {
    let mut g = grid(8, 8);
    g.insert(0, 0, 1);
    g.insert(3, 0, 2);
    g.insert(2, 2, 3);
    g.insert(0, 3, 4);
    g.insert(2, 2, 5);
    assert_eq!(g.query_block(0, 0, 2), vec![1, 3, 5]);
}

#[test]
fn sampler_numbers_the_points() {
    let mut s = sampler(5, 5);
    assert_eq!(s.len(), 0);
    assert_eq!(s.active_count(), 0);
    assert_eq!(s.accept(2, 3), 0);
    assert_eq!(s.accept(0, 0), 1);
    assert_eq!(s.accept(2, 3), 2);
    assert_eq!(s.len(), 3);
    assert_eq!(s.cell(0), (2, 3));
    assert_eq!(s.cell(1), (0, 0));
    assert_eq!(s.cell(2), (2, 3));
    assert_eq!(s.column_count(), 5);
    assert_eq!(s.row_count(), 5);
}

#[test]
fn sampler_knows_which_cells_are_taken() {
    let mut s = sampler(5, 5);
    s.accept(2, 3);
    assert!(!s.is_vacant(2, 3));
    assert!(s.is_vacant(3, 2));
    assert!(s.is_vacant(2, 2));
}

#[test]
fn accepted_points_are_active_in_their_order() {
    let mut s = sampler(5, 5);
    s.accept(0, 0);
    s.accept(1, 1);
    s.accept(2, 2);
    assert_eq!(s.active_count(), 3);
    assert_eq!(s.pick(0), 0);
    assert_eq!(s.pick(1), 1);
    assert_eq!(s.pick(2), 2);
}

#[test]
fn retiring_keeps_the_others_in_order() {
    let mut s = sampler(5, 5);
    s.accept(0, 0);
    s.accept(1, 1);
    s.accept(2, 2);
    s.accept(3, 3);
    s.retire(1);
    assert_eq!(s.active_count(), 3);
    assert_eq!(s.pick(0), 0);
    assert_eq!(s.pick(1), 2);
    assert_eq!(s.pick(2), 3);
    s.retire(2);
    s.retire(0);
    assert_eq!(s.active_count(), 1);
    assert_eq!(s.pick(0), 2);
    // a retired point is still a point
    assert_eq!(s.len(), 4);
    assert!(!s.is_vacant(1, 1));
}

#[test]
fn neighbours_are_the_points_at_most_two_cells_away() {
    let mut s = sampler(10, 10);
    s.accept(5, 5); // 0
    s.accept(7, 7); // 1: two away both ways
    s.accept(8, 5); // 2: three columns away
    s.accept(5, 2); // 3: three rows away
    s.accept(3, 6); // 4
    s.accept(5, 5); // 5: same cell
    let mut found = s.neighbours(5, 5);
    found.sort();
    assert_eq!(found, vec![0, 1, 4, 5]);
}

#[test]
fn neighbours_come_in_a_fixed_order() {
    let mut s = sampler(10, 10);
    s.accept(6, 6);
    s.accept(4, 4);
    s.accept(5, 5);
    s.accept(4, 4);
    // row by row, then column by column, then oldest first
    assert_eq!(s.neighbours(5, 5), vec![1, 3, 2, 0]);
    assert_eq!(s.into_cells(), vec![(6, 6), (4, 4), (5, 5), (4, 4)]);
}
