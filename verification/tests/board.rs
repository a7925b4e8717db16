use conways::world::World;

fn sorted_alive(w: &World) -> Vec<(u16, u16)> {
    let mut v = w.alive.clone();
    v.sort();
    v
}

#[test]
fn create_is_empty() {
    let w = World::create(7, 5);
    assert_eq!(w.width, 7);
    assert_eq!(w.height, 5);
    assert!(w.alive.is_empty());
    assert!(!w.is_alive(0, 0));
}

#[test]
fn default_board_is_empty_42_by_22() {
    let w = World::default();
    assert_eq!(w.width, 42);
    assert_eq!(w.height, 22);
    assert!(w.alive.is_empty());
}

#[test]
fn pulsar_has_48_cells() {
    let w = World::pulsar();
    assert_eq!(w.width, 42);
    assert_eq!(w.height, 22);
    assert_eq!(w.alive.len(), 48);
    assert!(w.is_alive(9, 18));
    assert!(w.is_alive(14, 26));
    assert!(!w.is_alive(10, 18));
}

#[test]
fn pulsar_oscillates_with_period_three() {
    let start = World::pulsar();
    let one = start.advance();
    let two = one.advance();
    let three = two.advance();
    assert_ne!(sorted_alive(&one), sorted_alive(&start));
    assert_ne!(sorted_alive(&two), sorted_alive(&start));
    assert_eq!(sorted_alive(&three), sorted_alive(&start));
}

#[test]
fn is_alive_out_of_range_is_false() {
    let mut w = World::create(5, 5);
    w.toggle(2, 2);
    assert!(w.is_alive(2, 2));
    assert!(!w.is_alive(5, 5));
    assert!(!w.is_alive(60000, 60000));
}

#[test]
fn toggle_inserts_then_removes() {
    let mut w = World::create(5, 5);
    assert!(!w.is_alive(3, 3));
    w.toggle(3, 3);
    assert!(w.is_alive(3, 3));
    w.toggle(3, 3);
    assert!(!w.is_alive(3, 3));
}

#[test]
fn toggle_twice_leaves_everything_as_it_was() {
    let mut w = World::create(8, 8);
    w.toggle(1, 1);
    w.toggle(2, 5);
    w.toggle(7, 0);
    let before = sorted_alive(&w);
    w.toggle(4, 4);
    w.toggle(4, 4);
    assert_eq!(sorted_alive(&w), before);
    w.toggle(2, 5);
    w.toggle(2, 5);
    assert_eq!(sorted_alive(&w), before);
}

#[test]
fn clear_empties_the_board() {
    let mut w = World::pulsar();
    w.clear();
    assert!(w.alive.is_empty());
    assert_eq!(w.width, 42);
    assert_eq!(w.height, 22);
}

#[test]
fn replace_alive_collapses_duplicates() {
    let mut w = World::create(5, 5);
    w.replace_alive(vec![(1, 1), (2, 2), (1, 1)]);
    assert!(w.is_alive(1, 1));
    assert!(w.is_alive(2, 2));
    assert_eq!(w.alive.len(), 2);
}

#[test]
fn replace_alive_keeps_out_of_range_cells() {
    let mut w = World::create(3, 3);
    w.replace_alive(vec![(10, 10), (1, 1)]);
    assert!(w.is_alive(10, 10));
    assert!(w.is_alive(1, 1));
}

#[test]
fn dimension_builders_keep_cells() {
    let mut w = World::default();
    w.toggle(1, 2);
    let w = w.width(10).height(9);
    assert_eq!(w.width, 10);
    assert_eq!(w.height, 9);
    assert!(w.is_alive(1, 2));
}

#[test]
fn with_dimensions_keeps_cells_even_out_of_range() {
    let mut w = World::default();
    w.toggle(20, 30);
    let w = w.with_dimensions(5, 5);
    assert_eq!(w.width, 5);
    assert_eq!(w.height, 5);
    assert!(w.is_alive(20, 30));
    let w = w.with_dimensions(42, 22);
    assert!(w.is_alive(20, 30));
}
