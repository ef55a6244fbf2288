//! Revealing a cell: which cells a reveal uncovers, and the sweep that
//! uncovers them.
//!
//! A reveal of a hidden cell with count zero spreads to the four cells
//! above, below, left and right of it, and from every hidden cell with count
//! zero it reaches it spreads on. Diagonal neighbours are not followed.
//! Flagged and revealed cells stop the spread, and a mine is never
//! uncovered.

use vstd::prelude::*;
use crate::board::{
    hidden_cells, inside, lemma_board_sets_finite, lemma_same_counts_same_mines, mine_total, put,
    same_counts, square,
};
use crate::cell::{Cell, CellState};
use crate::grid::Grid;

verus! {

/// A hidden cell with count zero. The spread of a reveal passes through
/// such cells and through no others.
pub open spec fn open_ground(b: Seq<Seq<Cell>>, r: int, c: int) -> bool {
    inside(b, r, c) && b[r][c].state == CellState::Hidden && b[r][c].mine_count == 0
}

/// A hidden cell that holds no mine: what a reveal can uncover.
pub open spec fn coverable(b: Seq<Seq<Cell>>, r: int, c: int) -> bool {
    inside(b, r, c) && b[r][c].state == CellState::Hidden && !b[r][c].is_mine()
}

/// `(r, c)` can be reached from `from` by at most `steps` moves of one cell
/// up, down, left or right, over open ground from the first cell to the
/// last.
pub open spec fn reach_in(b: Seq<Seq<Cell>>, from: (int, int), r: int, c: int, steps: nat) -> bool
    decreases steps,
{
    open_ground(b, r, c) && ((r == from.0 && c == from.1) || (steps > 0 && (reach_in(
        b,
        from,
        r - 1,
        c,
        (steps - 1) as nat,
    ) || reach_in(b, from, r + 1, c, (steps - 1) as nat) || reach_in(
        b,
        from,
        r,
        c - 1,
        (steps - 1) as nat,
    ) || reach_in(b, from, r, c + 1, (steps - 1) as nat))))
}

/// The spread of a reveal at `from` passes through `(r, c)`.
pub open spec fn cascades_to(b: Seq<Seq<Cell>>, from: (int, int), r: int, c: int) -> bool {
    exists|steps: nat| reach_in(b, from, r, c, steps)
}

/// A reveal at `from` uncovers `(r, c)`: the cell is hidden and no mine, and
/// it is `from` itself or lies next to a cell the spread passes through.
pub open spec fn uncovered_by(b: Seq<Seq<Cell>>, from: (int, int), r: int, c: int) -> bool {
    coverable(b, r, c) && ((r == from.0 && c == from.1) || cascades_to(b, from, r - 1, c)
        || cascades_to(b, from, r + 1, c) || cascades_to(b, from, r, c - 1) || cascades_to(
        b,
        from,
        r,
        c + 1,
    ))
}

/// The board after a reveal at `from`: the uncovered cells are revealed, and
/// nothing else has changed.
pub open spec fn after_reveal(b: Seq<Seq<Cell>>, from: (int, int)) -> Seq<Seq<Cell>> {
    Seq::new(
        b.len(),
        |r: int|
            Seq::new(
                b[r].len(),
                |c: int|
                    if uncovered_by(b, from, r, c) {
                        b[r][c].with_state(CellState::Revealed)
                    } else {
                        b[r][c]
                    },
            ),
    )
}

/// A cell that the spread passes through is open ground, and so is the cell
/// the spread started from.
pub proof fn lemma_reach_open(b: Seq<Seq<Cell>>, from: (int, int), r: int, c: int, steps: nat)
    requires
        reach_in(b, from, r, c, steps),
    ensures
        open_ground(b, r, c),
        open_ground(b, from.0, from.1),
    decreases steps,
{
    if r == from.0 && c == from.1 {
    } else {
        let less = (steps - 1) as nat;
        if reach_in(b, from, r - 1, c, less) {
            lemma_reach_open(b, from, r - 1, c, less);
        } else if reach_in(b, from, r + 1, c, less) {
            lemma_reach_open(b, from, r + 1, c, less);
        } else if reach_in(b, from, r, c - 1, less) {
            lemma_reach_open(b, from, r, c - 1, less);
        } else {
            lemma_reach_open(b, from, r, c + 1, less);
        }
    }
}

/// The spread goes on from a cell it passes through to open ground next to
/// it.
pub proof fn lemma_cascade_step(
    b: Seq<Seq<Cell>>,
    from: (int, int),
    r: int,
    c: int,
    nr: int,
    nc: int,
)
    requires
        cascades_to(b, from, r, c),
        beside(r, c, nr, nc),
        open_ground(b, nr, nc),
    ensures
        cascades_to(b, from, nr, nc),
{
    let steps = choose|steps: nat| reach_in(b, from, r, c, steps);
    assert(reach_in(b, from, nr, nc, steps + 1));
}

/// `(r, c)` and `(nr, nc)` are next to each other in a row or in a column.
pub open spec fn beside(r: int, c: int, nr: int, nc: int) -> bool {
    (nr == r - 1 && nc == c) || (nr == r + 1 && nc == c) || (nr == r && nc == c - 1) || (nr == r
        && nc == c + 1)
}

/// A reveal at a cell that is flagged, revealed or a mine uncovers nothing.
pub proof fn lemma_reveal_blocked(b: Seq<Seq<Cell>>, from: (int, int))
    requires
        square(b),
        !coverable(b, from.0, from.1),
    ensures
        after_reveal(b, from) == b,
{
    assert forall|r: int, c: int| !uncovered_by(b, from, r, c) by {
        if uncovered_by(b, from, r, c) {
            let (nr, nc) = if cascades_to(b, from, r - 1, c) {
                (r - 1, c)
            } else if cascades_to(b, from, r + 1, c) {
                (r + 1, c)
            } else if cascades_to(b, from, r, c - 1) {
                (r, c - 1)
            } else {
                (r, c + 1)
            };
            let steps = choose|steps: nat| reach_in(b, from, nr, nc, steps);
            lemma_reach_open(b, from, nr, nc, steps);
        }
    }
    assert(after_reveal(b, from) =~~= b);
}

/// A reveal at a hidden cell with a count other than zero uncovers that
/// cell and no other.
pub proof fn lemma_reveal_numbered(b: Seq<Seq<Cell>>, from: (int, int))
    requires
        square(b),
        coverable(b, from.0, from.1),
        b[from.0][from.1].mine_count != 0,
    ensures
        after_reveal(b, from) == put(
            b,
            from.0,
            from.1,
            b[from.0][from.1].with_state(CellState::Revealed),
        ),
{
    assert forall|r: int, c: int| uncovered_by(b, from, r, c) == (r == from.0 && c == from.1) by {
        if uncovered_by(b, from, r, c) && !(r == from.0 && c == from.1) {
            let (nr, nc) = if cascades_to(b, from, r - 1, c) {
                (r - 1, c)
            } else if cascades_to(b, from, r + 1, c) {
                (r + 1, c)
            } else if cascades_to(b, from, r, c - 1) {
                (r, c - 1)
            } else {
                (r, c + 1)
            };
            let steps = choose|steps: nat| reach_in(b, from, nr, nc, steps);
            lemma_reach_open(b, from, nr, nc, steps);
        }
    }
    assert(after_reveal(b, from) =~~= put(
        b,
        from.0,
        from.1,
        b[from.0][from.1].with_state(CellState::Revealed),
    ));
}

/// The number of single steps between two positions.
pub open spec fn distance(from: (int, int), r: int, c: int) -> nat {
    ((if r >= from.0 {
        r - from.0
    } else {
        from.0 - r
    }) + (if c >= from.1 {
        c - from.1
    } else {
        from.1 - c
    })) as nat
}

/// Every cell is hidden and has count zero.
pub open spec fn all_open(b: Seq<Seq<Cell>>) -> bool {
    forall|r: int, c: int| inside(b, r, c) ==> #[trigger] open_ground(b, r, c)
}

/// On a board that is open ground all over, the spread reaches every cell
/// from every cell, by the shortest way.
pub proof fn lemma_open_board_reach(b: Seq<Seq<Cell>>, from: (int, int), r: int, c: int)
    requires
        all_open(b),
        inside(b, from.0, from.1),
        inside(b, r, c),
    ensures
        reach_in(b, from, r, c, distance(from, r, c)),
    decreases distance(from, r, c),
{
    assert(open_ground(b, r, c));
    if r == from.0 && c == from.1 {
    } else if r > from.0 {
        lemma_open_board_reach(b, from, r - 1, c);
    } else if r < from.0 {
        lemma_open_board_reach(b, from, r + 1, c);
    } else if c > from.1 {
        lemma_open_board_reach(b, from, r, c - 1);
    } else {
        lemma_open_board_reach(b, from, r, c + 1);
    }
}

/// A reveal anywhere on a board without mines, flags or revealed cells
/// reveals the whole board, up to its edges and no further.
pub proof fn lemma_open_board_fully_revealed(b: Seq<Seq<Cell>>, from: (int, int))
    requires
        square(b),
        all_open(b),
        inside(b, from.0, from.1),
    ensures
        after_reveal(b, from).len() == b.len(),
        square(after_reveal(b, from)),
        forall|r: int, c: int|
            inside(b, r, c) ==> #[trigger] after_reveal(b, from)[r][c] == b[r][c].with_state(
                CellState::Revealed,
            ),
{
    assert forall|r: int, c: int| inside(b, r, c) implies #[trigger] after_reveal(b, from)[r][c]
        == b[r][c].with_state(CellState::Revealed) by {
        assert(b[r].len() == b.len());
        assert(open_ground(b, r, c));
        if r == from.0 && c == from.1 {
        } else {
            let (nr, nc) = if r > from.0 {
                (r - 1, c)
            } else if r < from.0 {
                (r + 1, c)
            } else if c > from.1 {
                (r, c - 1)
            } else {
                (r, c + 1)
            };
            lemma_open_board_reach(b, from, nr, nc);
            assert(cascades_to(b, from, nr, nc));
        }
        assert(uncovered_by(b, from, r, c));
    }
    assert forall|r: int| 0 <= r < after_reveal(b, from).len() implies (#[trigger] after_reveal(
        b,
        from,
    )[r]).len() == after_reveal(b, from).len() by {
        assert(b[r].len() == b.len());
    }
}

/// A reveal changes no count, and the only change it makes to a state is
/// from hidden to revealed.
pub proof fn lemma_reveal_only_uncovers(b: Seq<Seq<Cell>>, from: (int, int))
    requires
        square(b),
    ensures
        square(after_reveal(b, from)),
        same_counts(b, after_reveal(b, from)),
        forall|r: int, c: int|
            inside(b, r, c) ==> (#[trigger] after_reveal(b, from)[r][c]).state == b[r][c].state || (
            b[r][c].state == CellState::Hidden && after_reveal(b, from)[r][c].state
                == CellState::Revealed),
{
    let after = after_reveal(b, from);
    assert forall|r: int| 0 <= r < after.len() implies (#[trigger] after[r]).len()
        == after.len() by {
        assert(b[r].len() == b.len());
    }
    assert forall|r: int, c: int| inside(b, r, c) implies (#[trigger] b[r][c]).mine_count
        == after[r][c].mine_count && (after[r][c].state == b[r][c].state || (b[r][c].state
        == CellState::Hidden && after[r][c].state == CellState::Revealed)) by {
        assert(b[r].len() == b.len());
    }
}

/// A second reveal at the same cell changes nothing.
pub proof fn lemma_reveal_twice(b: Seq<Seq<Cell>>, from: (int, int))
    requires
        square(b),
        inside(b, from.0, from.1),
    ensures
        after_reveal(after_reveal(b, from), from) == after_reveal(b, from),
{
    let after = after_reveal(b, from);
    lemma_reveal_only_uncovers(b, from);
    assert(b[from.0].len() == b.len());
    assert(!coverable(after, from.0, from.1)) by {
        if coverable(b, from.0, from.1) {
            assert(uncovered_by(b, from, from.0, from.1));
        }
    }
    lemma_reveal_blocked(after, from);
}

/// If the cell at `(r, c)` could be uncovered at the start, it is revealed
/// now.
spec fn done(start: Seq<Seq<Cell>>, cur: Seq<Seq<Cell>>, r: int, c: int) -> bool {
    coverable(start, r, c) ==> cur[r][c].state == CellState::Revealed
}

/// The four cells around `(r, c)` are done.
spec fn spread(start: Seq<Seq<Cell>>, cur: Seq<Seq<Cell>>, r: int, c: int) -> bool {
    done(start, cur, r - 1, c) && done(start, cur, r + 1, c) && done(start, cur, r, c - 1) && done(
        start,
        cur,
        r,
        c + 1,
    )
}

/// The cell at `(r, c)` is on the work list, or it is the one in hand.
spec fn waiting(pending: Seq<(usize, usize)>, active: Option<(int, int)>, r: int, c: int) -> bool {
    active == Some((r, c)) || exists|i: int|
        0 <= i < pending.len() && (#[trigger] pending[i]).0 == r && pending[i].1 == c
}

/// A cell is as it was at the start, or the reveal uncovers it and it is
/// revealed now.
spec fn sound_at(
    start: Seq<Seq<Cell>>,
    from: (int, int),
    cur: Seq<Seq<Cell>>,
    r: int,
    c: int,
) -> bool {
    cur[r][c] == start[r][c] || (uncovered_by(start, from, r, c) && cur[r][c]
        == start[r][c].with_state(CellState::Revealed))
}

/// The spread passes through `(r, c)`, and the cell is revealed now.
spec fn swept(
    start: Seq<Seq<Cell>>,
    from: (int, int),
    cur: Seq<Seq<Cell>>,
    r: int,
    c: int,
) -> bool {
    cascades_to(start, from, r, c) && cur[r][c].state == CellState::Revealed
}

/// Open ground that is revealed now and no longer waiting has spread to
/// the cells around it.
spec fn settled(
    start: Seq<Seq<Cell>>,
    cur: Seq<Seq<Cell>>,
    pending: Seq<(usize, usize)>,
    active: Option<(int, int)>,
    r: int,
    c: int,
) -> bool {
    open_ground(start, r, c) && cur[r][c].state == CellState::Revealed && !waiting(
        pending,
        active,
        r,
        c,
    ) ==> spread(start, cur, r, c)
}

/// What holds of the board `cur` while the sweep of a reveal at `from` on
/// the board `start` is under way.
spec fn sweep_ok(
    start: Seq<Seq<Cell>>,
    from: (int, int),
    cur: Seq<Seq<Cell>>,
    pending: Seq<(usize, usize)>,
    active: Option<(int, int)>,
) -> bool {
    &&& square(start)
    &&& square(cur)
    &&& cur.len() == start.len()
    &&& swept(start, from, cur, from.0, from.1)
    &&& forall|r: int, c: int| inside(start, r, c) ==> #[trigger] sound_at(start, from, cur, r, c)
    &&& forall|i: int|
        0 <= i < pending.len() ==> swept(
            start,
            from,
            cur,
            (#[trigger] pending[i]).0 as int,
            pending[i].1 as int,
        )
    &&& active matches Some(p) ==> swept(start, from, cur, p.0, p.1)
    &&& forall|r: int, c: int| #[trigger] settled(start, cur, pending, active, r, c)
}

/// Once nothing is waiting, every cell the spread passes through is
/// revealed.
proof fn lemma_sweep_reaches(
    start: Seq<Seq<Cell>>,
    from: (int, int),
    cur: Seq<Seq<Cell>>,
    r: int,
    c: int,
    steps: nat,
)
    requires
        sweep_ok(start, from, cur, Seq::empty(), None),
        reach_in(start, from, r, c, steps),
    ensures
        cur[r][c].state == CellState::Revealed,
    decreases steps,
{
    if r == from.0 && c == from.1 {
    } else {
        let less = (steps - 1) as nat;
        let (nr, nc) = if reach_in(start, from, r - 1, c, less) {
            (r - 1, c)
        } else if reach_in(start, from, r + 1, c, less) {
            (r + 1, c)
        } else if reach_in(start, from, r, c - 1, less) {
            (r, c - 1)
        } else {
            (r, c + 1)
        };
        lemma_sweep_reaches(start, from, cur, nr, nc, less);
        lemma_reach_open(start, from, nr, nc, less);
        assert(settled(start, cur, Seq::empty(), None, nr, nc));
        assert(done(start, cur, r, c));
    }
}

/// Once nothing is waiting, the board is the one the reveal leaves behind.
proof fn lemma_sweep_complete(start: Seq<Seq<Cell>>, from: (int, int), cur: Seq<Seq<Cell>>)
    requires
        sweep_ok(start, from, cur, Seq::empty(), None),
    ensures
        cur == after_reveal(start, from),
{
    let goal = after_reveal(start, from);
    assert forall|r: int, c: int| inside(start, r, c) implies #[trigger] cur[r][c] == goal[r][c] by {
        assert(start[r].len() == start.len());
        assert(sound_at(start, from, cur, r, c));
        if uncovered_by(start, from, r, c) && !(r == from.0 && c == from.1) {
            let (nr, nc) = if cascades_to(start, from, r - 1, c) {
                (r - 1, c)
            } else if cascades_to(start, from, r + 1, c) {
                (r + 1, c)
            } else if cascades_to(start, from, r, c - 1) {
                (r, c - 1)
            } else {
                (r, c + 1)
            };
            let steps = choose|steps: nat| reach_in(start, from, nr, nc, steps);
            lemma_sweep_reaches(start, from, cur, nr, nc, steps);
            lemma_reach_open(start, from, nr, nc, steps);
            assert(settled(start, cur, Seq::empty(), None, nr, nc));
            assert(done(start, cur, r, c));
        }
    }
    assert forall|r: int| 0 <= r < cur.len() implies #[trigger] cur[r] =~= goal[r] by {
        assert(cur[r].len() == cur.len());
        assert(start[r].len() == start.len());
        assert forall|c: int| 0 <= c < cur[r].len() implies cur[r][c] == goal[r][c] by {
            assert(inside(start, r, c));
        }
    }
    assert(cur =~= goal);
}

impl Grid {
    /// One step of the sweep: looks at the cell at `(row, col)`, which lies
    /// next to the cell in hand. If it is hidden and no mine it is revealed,
    /// and if its count is zero it joins the work list.
    fn uncover(
        &mut self,
        row: usize,
        col: usize,
        pending: &mut Vec<(usize, usize)>,
        Ghost(start): Ghost<Seq<Seq<Cell>>>,
        Ghost(from): Ghost<(int, int)>,
        Ghost(active): Ghost<(int, int)>,
    )
        requires
            old(self).wf(),
            inside(old(self)@, row as int, col as int),
            beside(active.0, active.1, row as int, col as int),
            sweep_ok(start, from, old(self)@, old(pending)@, Some(active)),
        ensures
            final(self).wf(),
            sweep_ok(start, from, final(self)@, final(pending)@, Some(active)),
            done(start, final(self)@, row as int, col as int),
            forall|r: int, c: int|
                done(start, old(self)@, r, c) ==> #[trigger] done(start, final(self)@, r, c),
            hidden_cells(final(self)@).len() <= hidden_cells(old(self)@).len(),
            (final(self)@ == old(self)@ && final(pending)@ == old(pending)@) || hidden_cells(
                final(self)@,
            ).len() < hidden_cells(old(self)@).len(),
    {
        let cell = self.at(row, col);
        let ghost before = self@;
        let ghost r0 = row as int;
        let ghost c0 = col as int;
        proof {
            assert(sound_at(start, from, before, r0, c0));
        }
        if cell.state == CellState::Hidden && !cell.is_mine() {
            self.set_state(row, col, CellState::Revealed);
            if cell.mine_count == 0 {
                pending.push((row, col));
            }
            proof {
                let cur = self@;
                let waits = pending@;
                assert(before[r0][c0] == start[r0][c0]);
                assert(uncovered_by(start, from, r0, c0));
                if cell.mine_count == 0 {
                    lemma_cascade_step(start, from, active.0, active.1, r0, c0);
                    assert(waits[waits.len() - 1] == (row, col));
                }
                assert forall|r: int, c: int| inside(start, r, c) implies #[trigger] sound_at(
                    start,
                    from,
                    cur,
                    r,
                    c,
                ) by {
                    assert(sound_at(start, from, before, r, c));
                }
                assert forall|i: int| 0 <= i < waits.len() implies swept(
                    start,
                    from,
                    cur,
                    (#[trigger] waits[i]).0 as int,
                    waits[i].1 as int,
                ) by {
                    if i < old(pending)@.len() {
                        assert(waits[i] == old(pending)@[i]);
                        assert(swept(
                            start,
                            from,
                            before,
                            old(pending)@[i].0 as int,
                            old(pending)@[i].1 as int,
                        ));
                    }
                }
                assert forall|r: int, c: int| #[trigger]
                    settled(start, cur, waits, Some(active), r, c) by {
                    assert(settled(start, before, old(pending)@, Some(active), r, c));
                    if r == r0 && c == c0 {
                        if cell.mine_count == 0 {
                            assert(waiting(waits, Some(active), r, c));
                        }
                    } else if open_ground(start, r, c) && cur[r][c].state == CellState::Revealed
                        && !waiting(waits, Some(active), r, c) {
                        if waiting(old(pending)@, Some(active), r, c) {
                            if Some(active) != Some((r, c)) {
                                let i = choose|i: int|
                                    0 <= i < old(pending)@.len() && (#[trigger] old(pending)@[i]).0
                                        == r && old(pending)@[i].1 == c;
                                assert(waits[i] == old(pending)@[i]);
                            }
                        }
                    }
                }
                assert forall|r: int, c: int| done(start, before, r, c) implies #[trigger] done(
                    start,
                    cur,
                    r,
                    c,
                ) by {}
                lemma_board_sets_finite(before);
                assert(hidden_cells(cur) =~= hidden_cells(before).remove((r0, c0)));
            }
        }
    }

    /// Reveals the cell at `(row, col)`.
    ///
    /// A hidden cell that is no mine is revealed. If its count is zero, the
    /// reveal spreads: the hidden cells above, below, left and right of it
    /// that are no mines are revealed too, and the spread goes on from each
    /// of them that has count zero. A flagged or revealed cell is left as it
    /// is and stops the spread. A reveal at a mine changes nothing: whether
    /// the player has hit a mine is for the caller to ask first, with
    /// [`Grid::is_mine`].
    pub fn reveal_at(&mut self, row: usize, col: usize)
        requires
            old(self).wf(),
            inside(old(self)@, row as int, col as int),
        ensures
            final(self).wf(),
            final(self)@ == after_reveal(old(self)@, (row as int, col as int)),
            same_counts(old(self)@, final(self)@),
            mine_total(final(self)@) == mine_total(old(self)@),
    {
        let ghost start = self@;
        let ghost from = (row as int, col as int);
        let origin = self.at(row, col);
        if origin.state != CellState::Hidden || origin.is_mine() {
            proof {
                lemma_reveal_blocked(start, from);
                lemma_same_counts_same_mines(start, self@);
            }
            return ;
        }
        self.set_state(row, col, CellState::Revealed);
        if origin.mine_count != 0 {
            proof {
                lemma_reveal_numbered(start, from);
                lemma_same_counts_same_mines(start, self@);
            }
            return ;
        }
        let size = self.size();
        let mut pending: Vec<(usize, usize)> = Vec::new();
        pending.push((row, col));
        proof {
            assert(reach_in(start, from, from.0, from.1, 0));
            assert forall|r: int, c: int| inside(start, r, c) implies #[trigger] sound_at(
                start,
                from,
                self@,
                r,
                c,
            ) by {}
            assert forall|r: int, c: int| #[trigger] settled(start, self@, pending@, None, r, c) by {
                if self@[r][c].state == CellState::Revealed && open_ground(start, r, c) {
                    assert(r == from.0 && c == from.1);
                    assert(pending@[0] == (row, col));
                }
            }
        }
        while pending.len() > 0
            invariant
                self.wf(),
                size == self@.len(),
                sweep_ok(start, from, self@, pending@, None),
            decreases hidden_cells(self@).len(), pending.len(),
        {
            let ghost waits = pending@;
            let ghost grid0 = self@;
            let (r, c) = pending.pop().unwrap();
            let ghost active = (r as int, c as int);
            proof {
                assert(waits[waits.len() - 1] == (r, c));
                assert(swept(start, from, grid0, active.0, active.1));
                assert forall|i: int| 0 <= i < pending@.len() implies swept(
                    start,
                    from,
                    grid0,
                    (#[trigger] pending@[i]).0 as int,
                    pending@[i].1 as int,
                ) by {
                    assert(pending@[i] == waits[i]);
                }
                assert forall|x: int, y: int| #[trigger]
                    settled(start, grid0, pending@, Some(active), x, y) by {
                    assert(settled(start, grid0, waits, None, x, y));
                    if waiting(waits, None, x, y) {
                        let i = choose|i: int|
                            0 <= i < waits.len() && (#[trigger] waits[i]).0 == x && waits[i].1 == y;
                        if i < pending@.len() {
                            assert(pending@[i] == waits[i]);
                        }
                    }
                }
                lemma_reach_open(
                    start,
                    from,
                    active.0,
                    active.1,
                    choose|steps: nat| reach_in(start, from, active.0, active.1, steps),
                );
            }
            if r > 0 {
                self.uncover(r - 1, c, &mut pending, Ghost(start), Ghost(from), Ghost(active));
            }
            if c > 0 {
                self.uncover(r, c - 1, &mut pending, Ghost(start), Ghost(from), Ghost(active));
            }
            if c + 1 < size {
                self.uncover(r, c + 1, &mut pending, Ghost(start), Ghost(from), Ghost(active));
            }
            if r + 1 < size {
                self.uncover(r + 1, c, &mut pending, Ghost(start), Ghost(from), Ghost(active));
            }
            proof {
                assert(spread(start, self@, active.0, active.1));
                assert forall|x: int, y: int| #[trigger]
                    settled(start, self@, pending@, None, x, y) by {
                    assert(settled(start, self@, pending@, Some(active), x, y));
                }
            }
        }
        proof {
            assert(pending@ =~= Seq::empty());
            lemma_sweep_complete(start, from, self@);
            assert(same_counts(start, self@)) by {
                assert forall|x: int, y: int| inside(start, x, y) implies (#[trigger]
                    start[x][y]).mine_count == self@[x][y].mine_count by {
                    assert(sound_at(start, from, self@, x, y));
                }
            }
            lemma_same_counts_same_mines(start, self@);
        }
    }
}

} // verus!
