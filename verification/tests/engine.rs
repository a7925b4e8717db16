use conways::world::World;

fn board_with(width: u16, height: u16, cells: Vec<(u16, u16)>) -> World {
    let mut w = World::create(width, height);
    w.replace_alive(cells);
    w
}

fn sorted_alive(w: &World) -> Vec<(u16, u16)> {
    let mut v = w.alive.clone();
    v.sort();
    v
}

#[test]
fn dead_board_stays_dead() {
    let next = World::create(40, 20).advance();
    assert!(next.alive.is_empty());
    assert_eq!(next.width, 40);
    assert_eq!(next.height, 20);
}

#[test]
fn block_is_a_still_life() {
    let w = board_with(6, 6, vec![(2, 2), (2, 3), (3, 2), (3, 3)]);
    let next = w.advance();
    assert_eq!(sorted_alive(&next), sorted_alive(&w));
}

#[test]
fn blinker_flips_then_returns() {
    let w = board_with(9, 9, vec![(5, 4), (5, 5), (5, 6)]);
    let one = w.advance();
    assert_eq!(sorted_alive(&one), vec![(4, 5), (5, 5), (6, 5)]);
    let two = one.advance();
    assert_eq!(sorted_alive(&two), vec![(5, 4), (5, 5), (5, 6)]);
}

#[test]
fn dead_cell_with_three_neighbors_is_born() {
    let w = board_with(3, 3, vec![(0, 0), (0, 1), (1, 0)]);
    let next = w.advance();
    assert!(next.is_alive(1, 1));
}

#[test]
fn dead_cell_with_two_neighbors_stays_dead() {
    let w = board_with(5, 5, vec![(1, 1), (1, 3)]);
    let next = w.advance();
    assert!(!next.is_alive(1, 2));
}

#[test]
fn dead_cell_with_four_neighbors_stays_dead() {
    let w = board_with(5, 5, vec![(1, 1), (1, 3), (3, 1), (3, 3)]);
    let next = w.advance();
    assert!(!next.is_alive(2, 2));
}

#[test]
fn live_cell_with_one_neighbor_dies() {
    let w = board_with(5, 5, vec![(2, 2), (2, 3)]);
    let next = w.advance();
    assert!(!next.is_alive(2, 2));
}

#[test]
fn live_cell_with_two_neighbors_survives() {
    let w = board_with(5, 5, vec![(2, 1), (2, 2), (2, 3)]);
    let next = w.advance();
    assert!(next.is_alive(2, 2));
}

#[test]
fn live_cell_with_three_neighbors_survives() {
    let w = board_with(5, 5, vec![(1, 2), (2, 1), (2, 2), (2, 3)]);
    let next = w.advance();
    assert!(next.is_alive(2, 2));
}

#[test]
fn live_cell_with_four_neighbors_dies() {
    let w = board_with(5, 5, vec![(1, 2), (2, 1), (2, 2), (2, 3), (3, 2)]);
    let next = w.advance();
    assert!(!next.is_alive(2, 2));
}

#[test]
fn corner_cell_counts_no_wrapped_neighbors() {
    // Only (0, 1) is adjacent to the corner; the far-edge cells would count
    // solely if the board wrapped around, so the corner must die of
    // loneliness.
    let w = board_with(5, 5, vec![(0, 0), (0, 1), (4, 0), (0, 4), (4, 4)]);
    let next = w.advance();
    assert!(!next.is_alive(0, 0));
}

#[test]
fn corner_cell_survives_with_its_true_neighbors() {
    let w = board_with(5, 5, vec![(0, 0), (0, 1), (1, 0)]);
    let next = w.advance();
    assert!(next.is_alive(0, 0));
    assert!(next.is_alive(1, 1));
}

#[test]
fn out_of_range_live_cells_do_not_reach_the_board() {
    // A live cell beyond the bounds is neither counted as a neighbor nor
    // kept by the transition.
    let w = board_with(3, 3, vec![(1, 1), (1, 2), (3, 1), (5, 5)]);
    let next = w.advance();
    assert!(!next.is_alive(5, 5));
    assert!(!next.is_alive(3, 1));
    // (1, 1) has only one in-bounds neighbor, so it dies.
    assert!(!next.is_alive(1, 1));
}

#[test]
fn advance_does_not_mutate_its_input() {
    let w = board_with(9, 9, vec![(5, 4), (5, 5), (5, 6)]);
    let before = sorted_alive(&w);
    let _ = w.advance();
    assert_eq!(sorted_alive(&w), before);
}
