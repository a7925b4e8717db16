use vstd::prelude::*;

use crate::world::World;

verus! {

/// What the user is doing: editing the board, watching it run, or working
/// with the save/load screens. The renderer accepts the mode but the grid it
/// produces is the same in every mode; only the surrounding chrome differs.
#[derive(PartialEq, Eq, Structural)]
pub enum Mode {
    Insert,
    Play,
    Load,
    Save,
}

/// One display cell of the rendered grid.
#[derive(Clone, Copy, Debug, PartialEq, Eq, Structural)]
pub enum Glyph {
    Dead,
    Alive,
}

impl Glyph {
    /// The character drawn for this cell.
    pub fn symbol(&self) -> (c: char)
        ensures
            c == (if self is Alive {
                '#'
            } else {
                ' '
            }),
    {
        match self {
            Glyph::Alive => '#',
            Glyph::Dead => ' ',
        }
    }
}

/// Maps a click at terminal position `(row, col)` to a board coordinate,
/// given the framed viewport's total size. The frame's one-cell border is not
/// part of the board: clicks on or outside it are rejected, and a click on
/// the interior lands on the cell one up and one left of it.
pub fn click_target(row: u16, col: u16, frame_height: u16, frame_width: u16) -> (r: Option<
    (u16, u16),
>)
    ensures
        match r {
            Some(p) => 1 <= row && row + 1 < frame_height && 1 <= col && col + 1 < frame_width
                && p.0 == row - 1 && p.1 == col - 1,
            None => !(1 <= row && row + 1 < frame_height && 1 <= col && col + 1 < frame_width),
        },
{
    if 1 <= row && frame_height > 1 && row < frame_height - 1 && 1 <= col && frame_width > 1
        && col < frame_width - 1 {
        Some((row - 1, col - 1))
    } else {
        None
    }
}

impl World {
    /// Project the board into a `view_height x view_width` grid of glyphs.
    /// Exactly that many glyphs are produced whatever the board's own size:
    /// a larger board is clipped, and viewport cells beyond the board's
    /// bounds, or over dead cells, are rendered dead.
    #[verifier::loop_isolation(false)]
    pub fn get_grid(&self, mode: &Mode, view_height: u16, view_width: u16) -> (grid: Vec<
        Vec<Glyph>,
    >)
        ensures
            grid@.len() == view_height as int,
            forall|r: int| 0 <= r < view_height ==> (#[trigger] grid@[r])@.len()
                == view_width as int,
            forall|r: int, c: int|
                0 <= r < view_height && 0 <= c < view_width ==> ((#[trigger] grid@[r]@[c])
                    is Alive <==> (r < self.height && c < self.width && self.live().contains(
                    (r, c),
                ))),
    {
        let mut grid: Vec<Vec<Glyph>> = Vec::new();
        let mut row: u16 = 0;
        while row < view_height
            invariant
                0 <= row <= view_height,
                grid@.len() == row as int,
                forall|r: int| 0 <= r < row ==> (#[trigger] grid@[r])@.len() == view_width as int,
                forall|r: int, c: int|
                    0 <= r < row && 0 <= c < view_width ==> ((#[trigger] grid@[r]@[c]) is Alive
                        <==> (r < self.height && c < self.width && self.live().contains((r, c)))),
            decreases view_height - row,
        {
            let mut line: Vec<Glyph> = Vec::new();
            let mut col: u16 = 0;
            while col < view_width
                invariant
                    0 <= col <= view_width,
                    line@.len() == col as int,
                    forall|c: int|
                        0 <= c < col ==> ((#[trigger] line@[c]) is Alive <==> (row < self.height
                            && c < self.width && self.live().contains((row as int, c)))),
                decreases view_width - col,
            {
                let g = if row < self.height && col < self.width && self.is_alive(row, col) {
                    Glyph::Alive
                } else {
                    Glyph::Dead
                };
                line.push(g);
                col += 1;
            }
            grid.push(line);
            row += 1;
        }
        grid
    }
}

} // verus!
