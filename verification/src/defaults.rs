use vstd::prelude::*;

use crate::world::World;
use crate::world::cell_set;

verus! {

/// The cells of the built-in pulsar pattern, a period-three oscillator,
/// centred for the default 42 x 22 board.
pub open spec fn pulsar_pairs() -> Seq<(u16, u16)> {
    seq![
        (9u16, 18u16),
        (9u16, 17u16),
        (9u16, 16u16),
        (9u16, 22u16),
        (9u16, 23u16),
        (9u16, 24u16),
        (11u16, 18u16),
        (11u16, 17u16),
        (11u16, 16u16),
        (11u16, 22u16),
        (11u16, 23u16),
        (11u16, 24u16),
        (8u16, 19u16),
        (7u16, 19u16),
        (6u16, 19u16),
        (12u16, 19u16),
        (13u16, 19u16),
        (14u16, 19u16),
        (8u16, 21u16),
        (7u16, 21u16),
        (6u16, 21u16),
        (12u16, 21u16),
        (13u16, 21u16),
        (14u16, 21u16),
        (4u16, 16u16),
        (4u16, 17u16),
        (4u16, 18u16),
        (4u16, 22u16),
        (4u16, 23u16),
        (4u16, 24u16),
        (16u16, 16u16),
        (16u16, 17u16),
        (16u16, 18u16),
        (16u16, 22u16),
        (16u16, 23u16),
        (16u16, 24u16),
        (8u16, 14u16),
        (7u16, 14u16),
        (6u16, 14u16),
        (12u16, 14u16),
        (13u16, 14u16),
        (14u16, 14u16),
        (8u16, 26u16),
        (7u16, 26u16),
        (6u16, 26u16),
        (12u16, 26u16),
        (13u16, 26u16),
        (14u16, 26u16),
    ]
}

/// The live-cell set of the built-in pulsar pattern.
pub open spec fn pulsar_cells() -> Set<(int, int)> {
    cell_set(pulsar_pairs())
}

impl World {
    /// The empty starting board, sized for a typical terminal.
    pub fn default() -> (w: World)
        ensures
            w.width == 42,
            w.height == 22,
            w.live() == Set::<(int, int)>::empty(),
            w.wf(),
    {
        World::create(42, 22)
    }

    /// A board holding the built-in pulsar pattern.
    pub fn pulsar() -> (w: World)
        ensures
            w.width == 42,
            w.height == 22,
            w.live() == pulsar_cells(),
            w.wf(),
    {
        let mut cells: Vec<(u16, u16)> = Vec::new();
        cells.push((9, 18));
        cells.push((9, 17));
        cells.push((9, 16));
        cells.push((9, 22));
        cells.push((9, 23));
        cells.push((9, 24));
        cells.push((11, 18));
        cells.push((11, 17));
        cells.push((11, 16));
        cells.push((11, 22));
        cells.push((11, 23));
        cells.push((11, 24));
        cells.push((8, 19));
        cells.push((7, 19));
        cells.push((6, 19));
        cells.push((12, 19));
        cells.push((13, 19));
        cells.push((14, 19));
        cells.push((8, 21));
        cells.push((7, 21));
        cells.push((6, 21));
        cells.push((12, 21));
        cells.push((13, 21));
        cells.push((14, 21));
        cells.push((4, 16));
        cells.push((4, 17));
        cells.push((4, 18));
        cells.push((4, 22));
        cells.push((4, 23));
        cells.push((4, 24));
        cells.push((16, 16));
        cells.push((16, 17));
        cells.push((16, 18));
        cells.push((16, 22));
        cells.push((16, 23));
        cells.push((16, 24));
        cells.push((8, 14));
        cells.push((7, 14));
        cells.push((6, 14));
        cells.push((12, 14));
        cells.push((13, 14));
        cells.push((14, 14));
        cells.push((8, 26));
        cells.push((7, 26));
        cells.push((6, 26));
        cells.push((12, 26));
        cells.push((13, 26));
        cells.push((14, 26));
        proof {
            assert(cells@ =~= pulsar_pairs());
        }
        let mut w = World::create(42, 22);
        w.replace_alive(cells);
        w
    }
}

} // verus!
