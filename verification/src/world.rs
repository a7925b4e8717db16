use vstd::prelude::*;

verus! {

/// The set of coordinates held by a list of `(row, column)` pairs, as a
/// mathematical set of integer pairs.
pub open spec fn cell_set(s: Seq<(u16, u16)>) -> Set<(int, int)> {
    Set::new(|p: (int, int)| exists|i: int| 0 <= i < s.len() && s[i].0 == p.0 && s[i].1 == p.1)
}

/// Appending a pair to a list inserts exactly its coordinate into the list's
/// coordinate set.
pub proof fn lemma_cell_set_push(s: Seq<(u16, u16)>, x: (u16, u16))
    ensures
        cell_set(s.push(x)) == cell_set(s).insert((x.0 as int, x.1 as int)),
{
    let s1 = s.push(x);
    assert forall|q: (int, int)| #[trigger] cell_set(s1).contains(q) implies
        cell_set(s).insert((x.0 as int, x.1 as int)).contains(q) by {
        let k = choose|k: int| 0 <= k < s1.len() && s1[k].0 == q.0 && s1[k].1 == q.1;
        if k < s.len() {
            assert(s[k] == s1[k]);
        } else {
            assert(q == (x.0 as int, x.1 as int));
        }
    }
    assert forall|q: (int, int)|
        #[trigger] cell_set(s).insert((x.0 as int, x.1 as int)).contains(q) implies
        cell_set(s1).contains(q) by {
        if q == (x.0 as int, x.1 as int) {
            assert(s1[s1.len() - 1].0 == q.0 && s1[s1.len() - 1].1 == q.1);
        } else {
            let k = choose|k: int| 0 <= k < s.len() && s[k].0 == q.0 && s[k].1 == q.1;
            assert(s1[k] == s[k]);
        }
    }
    assert(cell_set(s1) =~= cell_set(s).insert((x.0 as int, x.1 as int)));
}

/// A bounded, non-wrapping Game of Life board: the set of live cells plus the
/// board's dimensions. Rows run from `0` to `height - 1`, columns from `0` to
/// `width - 1`. The live-cell list may temporarily hold coordinates outside
/// those bounds (after a bulk load of a fixed-size pattern, say); such cells
/// are ignored by the transition engine and the renderer.
pub struct World {
    pub width: u16,
    pub height: u16,
    pub alive: Vec<(u16, u16)>,
}

impl World {
    /// The live-cell set of this board.
    pub open spec fn live(self) -> Set<(int, int)> {
        cell_set(self.alive@)
    }

    /// Well-formed: the live-cell list holds no duplicate coordinate.
    pub open spec fn wf(self) -> bool {
        forall|i: int, j: int| 0 <= i < j < self.alive@.len() ==> self.alive@[i] != self.alive@[j]
    }

    /// A fresh board of the given dimensions with every cell dead.
    pub fn create(width: u16, height: u16) -> (w: World)
        ensures
            w.width == width,
            w.height == height,
            w.live() == Set::<(int, int)>::empty(),
            w.wf(),
    {
        let w = World { width, height, alive: Vec::new() };
        proof {
            assert(w.live() =~= Set::<(int, int)>::empty());
        }
        w
    }

    /// Membership test; coordinates outside the board simply are not live.
    pub fn is_alive(&self, row: u16, col: u16) -> (b: bool)
        ensures
            b == self.live().contains((row as int, col as int)),
    {
        let n = self.alive.len();
        let mut i: usize = 0;
        while i < n
            invariant
                n == self.alive@.len(),
                0 <= i <= n,
                forall|k: int|
                    0 <= k < i ==> !(self.alive@[k].0 == row && self.alive@[k].1 == col),
            decreases n - i,
        {
            let (r, c) = self.alive[i];
            if r == row && c == col {
                proof {
                    assert(self.alive@[i as int].0 == row && self.alive@[i as int].1 == col);
                }
                return true;
            }
            i += 1;
        }
        proof {
            assert(!self.live().contains((row as int, col as int)));
        }
        false
    }

    /// The same board with both dimensions rebound; the live-cell set is
    /// untouched. Cells that the new bounds exclude stay in the set, unseen
    /// by the engine and the renderer until the board grows back.
    pub fn with_dimensions(self, width: u16, height: u16) -> (w: World)
        ensures
            w.width == width,
            w.height == height,
            w.live() == self.live(),
            w.wf() == self.wf(),
    {
        World { width, height, ..self }
    }

    /// The same board with its width rebound; the live-cell set is untouched.
    pub fn width(self, width: u16) -> (w: World)
        ensures
            w.width == width,
            w.height == self.height,
            w.live() == self.live(),
            w.wf() == self.wf(),
    {
        World { width, ..self }
    }

    /// The same board with its height rebound; the live-cell set is untouched.
    pub fn height(self, height: u16) -> (w: World)
        ensures
            w.width == self.width,
            w.height == height,
            w.live() == self.live(),
            w.wf() == self.wf(),
    {
        World { height, ..self }
    }

    /// What `toggle` does to the live-cell set: remove the coordinate if it is
    /// a member, insert it otherwise.
    pub open spec fn toggled(s: Set<(int, int)>, p: (int, int)) -> Set<(int, int)> {
        if s.contains(p) {
            s.remove(p)
        } else {
            s.insert(p)
        }
    }

    /// Flip the membership of one coordinate and touch no other.
    #[verifier::loop_isolation(false)]
    pub fn toggle(&mut self, row: u16, col: u16)
        requires
            old(self).wf(),
        ensures
            final(self).wf(),
            final(self).width == old(self).width,
            final(self).height == old(self).height,
            final(self).live() == Self::toggled(old(self).live(), (row as int, col as int)),
    {
        let ghost p: (int, int) = (row as int, col as int);
        let n = self.alive.len();
        let mut i: usize = 0;
        while i < n
            invariant
                *self == *old(self),
                n == self.alive@.len(),
                0 <= i <= n,
                forall|k: int|
                    0 <= k < i ==> !(self.alive@[k].0 == row && self.alive@[k].1 == col),
            decreases n - i,
        {
            let (r, c) = self.alive[i];
            if r == row && c == col {
                // The coordinate is live: delete its one occurrence.
                self.alive.remove(i);
                proof {
                    let s0 = old(self).alive@;
                    let s1 = self.alive@;
                    assert(s1 =~= s0.subrange(0, i as int) + s0.subrange(i + 1, s0.len() as int));
                    assert forall|k: int, l: int| 0 <= k < l < s1.len() implies s1[k] != s1[l] by {
                        assert(s1[k] == if k < i { s0[k] } else { s0[k + 1] });
                        assert(s1[l] == if l < i { s0[l] } else { s0[l + 1] });
                    }
                    assert(old(self).live().contains(p));
                    assert forall|q: (int, int)| #[trigger] self.live().contains(q) implies
                        old(self).live().remove(p).contains(q) by {
                        let k = choose|k: int|
                            0 <= k < s1.len() && s1[k].0 == q.0 && s1[k].1 == q.1;
                        let k0: int = if k < i { k } else { k + 1 };
                        assert(s0[k0] == s1[k]);
                        assert(old(self).live().contains(q));
                        assert(s0[i as int].0 == row && s0[i as int].1 == col);
                        assert(k0 != i ==> q != p) by {
                            if k0 != i && q == p {
                                assert(s0[k0] == s0[i as int]);
                            }
                        }
                    }
                    assert forall|q: (int, int)|
                        #[trigger] old(self).live().remove(p).contains(q) implies
                        self.live().contains(q) by {
                        let k0 = choose|k0: int|
                            0 <= k0 < s0.len() && s0[k0].0 == q.0 && s0[k0].1 == q.1;
                        assert(k0 != i) by {
                            if k0 == i {
                                assert(q == p);
                            }
                        }
                        let k: int = if k0 < i { k0 } else { k0 - 1 };
                        assert(s1[k] == s0[k0]);
                    }
                    assert(self.live() =~= old(self).live().remove(p));
                }
                return;
            }
            i += 1;
        }
        // The coordinate is dead: append it.
        proof {
            assert(!old(self).live().contains(p));
        }
        self.alive.push((row, col));
        proof {
            let s0 = old(self).alive@;
            let s1 = self.alive@;
            assert forall|q: (int, int)| #[trigger] self.live().contains(q) implies
                old(self).live().insert(p).contains(q) by {
                let k = choose|k: int| 0 <= k < s1.len() && s1[k].0 == q.0 && s1[k].1 == q.1;
                if k < s0.len() {
                    assert(s0[k] == s1[k]);
                } else {
                    assert(q == p);
                }
            }
            assert forall|q: (int, int)| #[trigger] old(self).live().insert(p).contains(q) implies
                self.live().contains(q) by {
                if q == p {
                    assert(s1[s1.len() - 1].0 == q.0 && s1[s1.len() - 1].1 == q.1);
                } else {
                    let k = choose|k: int| 0 <= k < s0.len() && s0[k].0 == q.0 && s0[k].1 == q.1;
                    assert(s1[k] == s0[k]);
                }
            }
            assert(self.live() =~= old(self).live().insert(p));
            assert forall|k: int, l: int| 0 <= k < l < s1.len() implies s1[k] != s1[l] by {
                if l == s1.len() - 1 {
                    assert(!(s0[k].0 == row && s0[k].1 == col));
                }
            }
        }
    }

    /// Toggling the same coordinate twice restores the original live-cell
    /// set exactly: the coordinate's membership comes back and no other
    /// coordinate is touched.
    pub proof fn lemma_toggle_twice(s: Set<(int, int)>, p: (int, int))
        ensures
            Self::toggled(Self::toggled(s, p), p) == s,
    {
        if s.contains(p) {
            assert(Self::toggled(Self::toggled(s, p), p) =~= s);
        } else {
            assert(Self::toggled(Self::toggled(s, p), p) =~= s);
        }
    }

    /// Kill every cell; used by the "reset board" action.
    pub fn clear(&mut self)
        ensures
            final(self).width == old(self).width,
            final(self).height == old(self).height,
            final(self).live() == Set::<(int, int)>::empty(),
            final(self).wf(),
    {
        self.alive.clear();
        proof {
            assert(self.live() =~= Set::<(int, int)>::empty());
        }
    }

    /// Wholesale replacement of the live-cell set, as when a built-in pattern
    /// or a stored template is loaded. Duplicates in the incoming list are
    /// collapsed; coordinates are not validated against the board's current
    /// dimensions (an oversized pattern keeps its out-of-range cells, which
    /// stay invisible until the board grows back).
    pub fn replace_alive(&mut self, cells: Vec<(u16, u16)>)
        ensures
            final(self).width == old(self).width,
            final(self).height == old(self).height,
            final(self).live() == cell_set(cells@),
            final(self).wf(),
    {
        let mut fresh: Vec<(u16, u16)> = Vec::new();
        let n = cells.len();
        let mut i: usize = 0;
        while i < n
            invariant
                n == cells@.len(),
                0 <= i <= n,
                forall|k: int, l: int| 0 <= k < l < fresh@.len() ==> fresh@[k] != fresh@[l],
                cell_set(fresh@) == cell_set(cells@.subrange(0, i as int)),
            decreases n - i,
        {
            let (r, c) = cells[i];
            let ghost fresh0 = fresh@;
            let mut seen = false;
            let m = fresh.len();
            let mut j: usize = 0;
            while j < m
                invariant
                    m == fresh@.len(),
                    0 <= j <= m,
                    fresh@ == fresh0,
                    seen == exists|k: int|
                        0 <= k < j && fresh@[k].0 == r && fresh@[k].1 == c,
                decreases m - j,
            {
                let (fr, fc) = fresh[j];
                if fr == r && fc == c {
                    seen = true;
                }
                j += 1;
            }
            if !seen {
                fresh.push((r, c));
            }
            proof {
                let pre = cells@.subrange(0, i as int);
                let cur = cells@.subrange(0, i + 1);
                assert(pre == cur.drop_last());
                assert(cur[i as int] == (r, c));
                if seen {
                    assert(cell_set(fresh0).contains((r as int, c as int)));
                    assert(cell_set(fresh@) =~= cell_set(cur)) by {
                        assert forall|q: (int, int)| #[trigger] cell_set(cur).contains(q) implies
                            cell_set(fresh@).contains(q) by {
                            let k = choose|k: int|
                                0 <= k < cur.len() && cur[k].0 == q.0 && cur[k].1 == q.1;
                            if k < i {
                                assert(pre[k] == cur[k]);
                                assert(cell_set(pre).contains(q));
                            } else {
                                assert(q == (r as int, c as int));
                            }
                        }
                        assert forall|q: (int, int)| #[trigger] cell_set(fresh@).contains(q)
                            implies cell_set(cur).contains(q) by {
                            assert(cell_set(pre).contains(q));
                            let k = choose|k: int|
                                0 <= k < pre.len() && pre[k].0 == q.0 && pre[k].1 == q.1;
                            assert(cur[k] == pre[k]);
                        }
                    }
                } else {
                    assert(!cell_set(fresh0).contains((r as int, c as int)));
                    assert forall|k: int, l: int| 0 <= k < l < fresh@.len() implies
                        fresh@[k] != fresh@[l] by {
                        if l == fresh@.len() - 1 {
                            assert(!(fresh0[k].0 == r && fresh0[k].1 == c));
                        }
                    }
                    assert(cell_set(fresh@) =~= cell_set(cur)) by {
                        assert forall|q: (int, int)| #[trigger] cell_set(cur).contains(q) implies
                            cell_set(fresh@).contains(q) by {
                            let k = choose|k: int|
                                0 <= k < cur.len() && cur[k].0 == q.0 && cur[k].1 == q.1;
                            if k < i {
                                assert(pre[k] == cur[k]);
                                assert(cell_set(pre).contains(q));
                                let k2 = choose|k2: int|
                                    0 <= k2 < fresh0.len() && fresh0[k2].0 == q.0
                                        && fresh0[k2].1 == q.1;
                                assert(fresh@[k2] == fresh0[k2]);
                            } else {
                                assert(fresh@[fresh@.len() - 1].0 == q.0
                                    && fresh@[fresh@.len() - 1].1 == q.1);
                            }
                        }
                        assert forall|q: (int, int)| #[trigger] cell_set(fresh@).contains(q)
                            implies cell_set(cur).contains(q) by {
                            let k = choose|k: int|
                                0 <= k < fresh@.len() && fresh@[k].0 == q.0 && fresh@[k].1 == q.1;
                            if k < fresh0.len() {
                                assert(fresh0[k] == fresh@[k]);
                                assert(cell_set(pre).contains(q));
                                let k2 = choose|k2: int|
                                    0 <= k2 < pre.len() && pre[k2].0 == q.0 && pre[k2].1 == q.1;
                                assert(cur[k2] == pre[k2]);
                            } else {
                                assert(q == (r as int, c as int));
                                assert(cur[i as int].0 == q.0 && cur[i as int].1 == q.1);
                            }
                        }
                    }
                }
            }
            i += 1;
        }
        proof {
            assert(cells@.subrange(0, n as int) == cells@);
        }
        self.alive = fresh;
    }
}

} // verus!
