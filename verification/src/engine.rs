use vstd::prelude::*;

use crate::world::World;
use crate::world::cell_set;
use crate::world::lemma_cell_set_push;

verus! {

/// 1 if `(r, c)` exists on the `height x width` board and is live in `s`,
/// else 0. Coordinates outside the board never count: the board is bounded
/// and does not wrap.
pub open spec fn occ(s: Set<(int, int)>, width: int, height: int, r: int, c: int) -> int {
    if 0 <= r < height && 0 <= c < width && s.contains((r, c)) {
        1
    } else {
        0
    }
}

/// The number of live cells among the eight Moore neighbors of `(r, c)` that
/// exist on the bounded board.
pub open spec fn live_neighbors(
    s: Set<(int, int)>,
    width: int,
    height: int,
    r: int,
    c: int,
) -> int {
    occ(s, width, height, r - 1, c - 1) + occ(s, width, height, r - 1, c) + occ(
        s,
        width,
        height,
        r - 1,
        c + 1,
    ) + occ(s, width, height, r, c - 1) + occ(s, width, height, r, c + 1) + occ(
        s,
        width,
        height,
        r + 1,
        c - 1,
    ) + occ(s, width, height, r + 1, c) + occ(s, width, height, r + 1, c + 1)
}

/// Conway's rule for one cell of the bounded board: a live cell survives with
/// two or three live neighbors, a dead cell is born with exactly three, and
/// nothing outside the board is ever live in the next generation.
pub open spec fn lives_next(
    s: Set<(int, int)>,
    width: int,
    height: int,
    r: int,
    c: int,
) -> bool {
    0 <= r < height && 0 <= c < width && {
        let n = live_neighbors(s, width, height, r, c);
        if s.contains((r, c)) {
            n == 2 || n == 3
        } else {
            n == 3
        }
    }
}

/// The successor generation of the live-cell set `s` on a `height x width`
/// board.
pub open spec fn next_gen(s: Set<(int, int)>, width: int, height: int) -> Set<(int, int)> {
    Set::new(|p: (int, int)| lives_next(s, width, height, p.0, p.1))
}

/// The all-dead board is a fixed point: advancing a board with no live cell
/// yields a board with no live cell, whatever the dimensions.
pub proof fn lemma_dead_board_stable(width: int, height: int)
    ensures
        next_gen(Set::<(int, int)>::empty(), width, height) == Set::<(int, int)>::empty(),
{
    assert(next_gen(Set::<(int, int)>::empty(), width, height) =~= Set::<(int, int)>::empty());
}

/// Birth rule: an in-bounds dead cell is live in the next generation exactly
/// when it has three live neighbors.
pub proof fn lemma_birth_rule(s: Set<(int, int)>, width: int, height: int, r: int, c: int)
    requires
        0 <= r < height,
        0 <= c < width,
        !s.contains((r, c)),
    ensures
        next_gen(s, width, height).contains((r, c)) <==> live_neighbors(s, width, height, r, c)
            == 3,
{
}

/// Survival rule: an in-bounds live cell stays live in the next generation
/// exactly when it has two or three live neighbors; with fewer or more it
/// dies.
pub proof fn lemma_survival_rule(s: Set<(int, int)>, width: int, height: int, r: int, c: int)
    requires
        0 <= r < height,
        0 <= c < width,
        s.contains((r, c)),
    ensures
        next_gen(s, width, height).contains((r, c)) <==> (live_neighbors(s, width, height, r, c)
            == 2 || live_neighbors(s, width, height, r, c) == 3),
{
}

/// No wraparound: the corner cell `(0, 0)` has only three neighbors that
/// exist. Its count is the sum of exactly those three; coordinates at `-1`,
/// or at `width` or `height`, are never counted.
pub proof fn lemma_no_wraparound(s: Set<(int, int)>, width: int, height: int)
    ensures
        live_neighbors(s, width, height, 0, 0) == occ(s, width, height, 0, 1) + occ(
            s,
            width,
            height,
            1,
            0,
        ) + occ(s, width, height, 1, 1),
{
}

/// The four cells of a two-by-two block anchored at `(r, c)`.
pub open spec fn block_cells(r: int, c: int) -> Set<(int, int)> {
    set![(r, c), (r, c + 1), (r + 1, c), (r + 1, c + 1)]
}

/// Still life: a two-by-two block of live cells, alone on the board, is a
/// fixed point of the transition.
pub proof fn lemma_block_still_life(width: int, height: int, r: int, c: int)
    requires
        0 <= r,
        r + 1 < height,
        0 <= c,
        c + 1 < width,
    ensures
        next_gen(block_cells(r, c), width, height) == block_cells(r, c),
{
    let b = block_cells(r, c);
    assert forall|p: (int, int)| #[trigger] next_gen(b, width, height).contains(p) implies
        b.contains(p) by {
        if !b.contains(p) {
            assert(live_neighbors(b, width, height, p.0, p.1) == 3);
        }
    }
    assert forall|p: (int, int)| #[trigger] b.contains(p) implies next_gen(
        b,
        width,
        height,
    ).contains(p) by {
        assert(live_neighbors(b, width, height, p.0, p.1) == 3);
    }
    assert(next_gen(b, width, height) =~= b);
}

/// The three cells of a horizontal blinker centred at `(r, c)`.
pub open spec fn blinker_row(r: int, c: int) -> Set<(int, int)> {
    set![(r, c - 1), (r, c), (r, c + 1)]
}

/// The three cells of a vertical blinker centred at `(r, c)`.
pub open spec fn blinker_col(r: int, c: int) -> Set<(int, int)> {
    set![(r - 1, c), (r, c), (r + 1, c)]
}

/// Oscillator: a horizontal blinker with a free margin becomes the vertical
/// blinker on the same centre, and the vertical one becomes the horizontal
/// one again, so the pattern has period two.
pub proof fn lemma_blinker_oscillates(width: int, height: int, r: int, c: int)
    requires
        1 <= r,
        r + 1 < height,
        1 <= c,
        c + 1 < width,
    ensures
        next_gen(blinker_row(r, c), width, height) == blinker_col(r, c),
        next_gen(blinker_col(r, c), width, height) == blinker_row(r, c),
{
    let row = blinker_row(r, c);
    let col = blinker_col(r, c);
    assert forall|p: (int, int)| #[trigger] next_gen(row, width, height).contains(p) implies
        col.contains(p) by {
        if !col.contains(p) {
            if row.contains(p) {
                assert(live_neighbors(row, width, height, p.0, p.1) == 1);
            } else {
                assert(live_neighbors(row, width, height, p.0, p.1) == 3);
            }
        }
    }
    assert forall|p: (int, int)| #[trigger] col.contains(p) implies next_gen(
        row,
        width,
        height,
    ).contains(p) by {
        assert(0 <= p.0 < height && 0 <= p.1 < width);
        assert(live_neighbors(row, width, height, p.0, p.1) == 3 || (row.contains(p)
            && live_neighbors(row, width, height, p.0, p.1) == 2));
    }
    assert(next_gen(row, width, height) =~= col);
    assert forall|p: (int, int)| #[trigger] next_gen(col, width, height).contains(p) implies
        row.contains(p) by {
        if !row.contains(p) {
            if col.contains(p) {
                assert(live_neighbors(col, width, height, p.0, p.1) == 1);
            } else {
                assert(live_neighbors(col, width, height, p.0, p.1) == 3);
            }
        }
    }
    assert forall|p: (int, int)| #[trigger] row.contains(p) implies next_gen(
        col,
        width,
        height,
    ).contains(p) by {
        assert(0 <= p.0 < height && 0 <= p.1 < width);
        assert(live_neighbors(col, width, height, p.0, p.1) == 3 || (col.contains(p)
            && live_neighbors(col, width, height, p.0, p.1) == 2));
    }
    assert(next_gen(col, width, height) =~= row);
}

impl World {
    /// Whether `(row, col)` exists on this board and is live.
    fn occupied(&self, row: u16, col: u16) -> (b: bool)
        ensures
            b == (occ(
                self.live(),
                self.width as int,
                self.height as int,
                row as int,
                col as int,
            ) == 1),
    {
        row < self.height && col < self.width && self.is_alive(row, col)
    }

    /// The live-neighbor count of an in-bounds cell.
    fn count_neighbors(&self, row: u16, col: u16) -> (n: u8)
        requires
            row < self.height,
            col < self.width,
        ensures
            n as int == live_neighbors(
                self.live(),
                self.width as int,
                self.height as int,
                row as int,
                col as int,
            ),
    {
        let mut n: u8 = 0;
        if row > 0 {
            if col > 0 && self.occupied(row - 1, col - 1) {
                n += 1;
            }
            if self.occupied(row - 1, col) {
                n += 1;
            }
            if self.occupied(row - 1, col + 1) {
                n += 1;
            }
        }
        if col > 0 && self.occupied(row, col - 1) {
            n += 1;
        }
        if self.occupied(row, col + 1) {
            n += 1;
        }
        if col > 0 && self.occupied(row + 1, col - 1) {
            n += 1;
        }
        if self.occupied(row + 1, col) {
            n += 1;
        }
        if self.occupied(row + 1, col + 1) {
            n += 1;
        }
        n
    }

    /// One generation of the simulation: a pure function from board to board.
    /// The dimensions are kept; the new live-cell set is exactly the cells the
    /// rule keeps or brings to life, evaluated against the prior generation.
    /// Live cells that sat outside the board's bounds are dropped.
    #[verifier::loop_isolation(false)]
    pub fn advance(&self) -> (next: World)
        requires
            self.wf(),
        ensures
            next.width == self.width,
            next.height == self.height,
            next.wf(),
            next.live() == next_gen(self.live(), self.width as int, self.height as int),
    {
        let ghost s = self.live();
        let ghost w = self.width as int;
        let ghost h = self.height as int;
        let mut out: Vec<(u16, u16)> = Vec::new();
        let mut row: u16 = 0;
        while row < self.height
            invariant
                0 <= row <= self.height,
                forall|k: int, l: int| 0 <= k < l < out@.len() ==> out@[k] != out@[l],
                forall|p: (int, int)|
                    #[trigger] cell_set(out@).contains(p) <==> (lives_next(s, w, h, p.0, p.1)
                        && p.0 < row),
            decreases self.height - row,
        {
            let mut col: u16 = 0;
            while col < self.width
                invariant
                    0 <= col <= self.width,
                    row < self.height,
                    forall|k: int, l: int| 0 <= k < l < out@.len() ==> out@[k] != out@[l],
                    forall|p: (int, int)|
                        #[trigger] cell_set(out@).contains(p) <==> (lives_next(s, w, h, p.0, p.1)
                            && (p.0 < row || (p.0 == row && p.1 < col))),
                decreases self.width - col,
            {
                let n = self.count_neighbors(row, col);
                let here = self.is_alive(row, col);
                let stays = if here {
                    n == 2 || n == 3
                } else {
                    n == 3
                };
                proof {
                    assert(stays == lives_next(s, w, h, row as int, col as int));
                }
                if stays {
                    let ghost out0 = out@;
                    proof {
                        assert(!cell_set(out0).contains((row as int, col as int)));
                        assert forall|k: int| 0 <= k < out0.len() implies
                            out0[k] != (row, col) by {
                            if out0[k] == (row, col) {
                                assert(out0[k].0 == row as int && out0[k].1 == col as int);
                                assert(cell_set(out0).contains((row as int, col as int)));
                            }
                        }
                    }
                    out.push((row, col));
                    proof {
                        lemma_cell_set_push(out0, (row, col));
                        assert forall|k: int, l: int| 0 <= k < l < out@.len() implies
                            out@[k] != out@[l] by {
                            if l == out@.len() - 1 {
                                assert(out@[k] == out0[k]);
                            }
                        }
                    }
                }
                col += 1;
            }
            row += 1;
        }
        let next = World { width: self.width, height: self.height, alive: out };
        proof {
            assert forall|p: (int, int)| #[trigger] next_gen(s, w, h).contains(p) implies
                next.live().contains(p) by {
                assert(p.0 < h);
            }
            assert(next.live() =~= next_gen(s, w, h));
        }
        next
    }
}

} // verus!
