use conways::render::Glyph;
use conways::render::Mode;
use conways::render::click_target;
use conways::world::World;

fn board_with(width: u16, height: u16, cells: Vec<(u16, u16)>) -> World {
    let mut w = World::create(width, height);
    w.replace_alive(cells);
    w
}

#[test]
fn grid_has_exactly_the_viewport_size() {
    let w = World::pulsar();
    let grid = w.get_grid(&Mode::Play, 5, 4);
    assert_eq!(grid.len(), 5);
    for row in &grid {
        assert_eq!(row.len(), 4);
    }
}

#[test]
fn grid_clips_a_larger_board() {
    let w = board_with(42, 22, vec![(1, 1), (10, 10)]);
    let grid = w.get_grid(&Mode::Insert, 3, 3);
    assert_eq!(grid[1][1], Glyph::Alive);
    assert_eq!(grid[0][0], Glyph::Dead);
    assert_eq!(grid.len(), 3);
}

#[test]
fn grid_beyond_the_board_is_dead() {
    let w = board_with(2, 2, vec![(0, 0), (1, 1)]);
    let grid = w.get_grid(&Mode::Insert, 4, 4);
    assert_eq!(grid[0][0], Glyph::Alive);
    assert_eq!(grid[1][1], Glyph::Alive);
    assert_eq!(grid[2][2], Glyph::Dead);
    assert_eq!(grid[3][0], Glyph::Dead);
    assert_eq!(grid[0][3], Glyph::Dead);
}

#[test]
fn out_of_range_live_cells_are_never_rendered() {
    let w = board_with(2, 2, vec![(3, 3)]);
    let grid = w.get_grid(&Mode::Insert, 6, 6);
    for row in &grid {
        for g in row {
            assert_eq!(*g, Glyph::Dead);
        }
    }
}

#[test]
fn mode_does_not_change_the_grid() {
    let w = World::pulsar();
    let editing = w.get_grid(&Mode::Insert, 22, 42);
    let running = w.get_grid(&Mode::Play, 22, 42);
    assert_eq!(editing, running);
}

#[test]
fn glyph_symbols() {
    assert_eq!(Glyph::Alive.symbol(), '#');
    assert_eq!(Glyph::Dead.symbol(), ' ');
}

#[test]
fn click_on_the_border_is_rejected() {
    assert_eq!(click_target(0, 3, 10, 10), None);
    assert_eq!(click_target(3, 0, 10, 10), None);
    assert_eq!(click_target(9, 3, 10, 10), None);
    assert_eq!(click_target(3, 9, 10, 10), None);
}

#[test]
fn click_inside_maps_past_the_border() {
    assert_eq!(click_target(1, 1, 10, 10), Some((0, 0)));
    assert_eq!(click_target(5, 7, 10, 10), Some((4, 6)));
    assert_eq!(click_target(8, 8, 10, 10), Some((7, 7)));
}

#[test]
fn click_on_a_degenerate_frame_is_rejected() {
    assert_eq!(click_target(0, 0, 0, 0), None);
    assert_eq!(click_target(1, 1, 2, 2), None);
}
