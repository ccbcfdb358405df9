use strata::layout::{solve_layout, PairwiseOffset};
use strata::raster::Vector;

fn edge(first: usize, second: usize, x: i64, y: i64, cost: u64) -> PairwiseOffset {
    PairwiseOffset { first, second, offset: Vector::new(x, y), cost }
}

#[test]
fn closed_loop_is_satisfied_exactly() {
    let matches = vec![edge(0, 1, 10, 0, 5), edge(1, 2, 3, 4, 1), edge(0, 2, 13, 4, 9)];
    let p = solve_layout(3, &matches);
    assert_eq!(p[1].x - p[0].x, 10);
    assert_eq!(p[1].y - p[0].y, 0);
    assert_eq!(p[2].x - p[1].x, 3);
    assert_eq!(p[2].y - p[1].y, 4);
    assert_eq!(p[2].x - p[0].x, 13);
    assert_eq!(p[2].y - p[0].y, 4);
}

#[test]
fn cheapest_offsets_win_over_a_contradicting_one() {
    // The offset 0 -> 2 contradicts the other two and costs the most: it is
    // skipped, since 0 and 2 are already joined when it comes.
    let matches = vec![edge(0, 2, 99, 99, 30), edge(0, 1, 10, 0, 20), edge(1, 2, 0, 5, 10)];
    let p = solve_layout(3, &matches);
    assert_eq!(p, vec![Vector::new(0, 0), Vector::new(10, 0), Vector::new(10, 5)]);
}

#[test]
fn cost_order_decides_which_offset_is_kept() {
    let cheap_last = vec![edge(0, 1, 7, 0, 3), edge(0, 1, 4, 0, 2)];
    let p = solve_layout(2, &cheap_last);
    assert_eq!(p, vec![Vector::new(0, 0), Vector::new(4, 0)]);
}

#[test]
fn whole_set_moves_with_its_member() {
    let matches = vec![edge(1, 2, 0, 5, 1), edge(0, 1, -3, 2, 2)];
    let p = solve_layout(3, &matches);
    assert_eq!(p, vec![Vector::new(0, 0), Vector::new(-3, 2), Vector::new(-3, 7)]);
}

#[test]
fn unreached_layer_stays_at_origin() {
    let matches = vec![edge(0, 1, 6, -2, 1)];
    let p = solve_layout(3, &matches);
    assert_eq!(p, vec![Vector::new(0, 0), Vector::new(6, -2), Vector::new(0, 0)]);
}

#[test]
fn no_layers_no_positions() {
    assert_eq!(solve_layout(0, &vec![]), vec![]);
    assert_eq!(solve_layout(1, &vec![]), vec![Vector::new(0, 0)]);
}

#[test]
fn solving_is_repeatable() {
    let matches = vec![edge(0, 1, 1, 1, 4), edge(1, 2, 2, -1, 4), edge(0, 2, 5, 5, 4), edge(2, 3, -7, 0, 1)];
    assert_eq!(solve_layout(4, &matches), solve_layout(4, &matches));
}
