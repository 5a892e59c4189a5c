//! The abstract state of a board and the transitions that the operations on a
//! board perform on it.

use vstd::prelude::*;
use vstd::arithmetic::div_mod::lemma_fundamental_div_mod;
use crate::game::{CacheResult, CellLabel, ExploreResult, Tile};

verus! {

/// A cell of the grid as a zero-based (row, column) pair.
pub type Coord = (usize, usize);

/// Number of `true` entries in `s`.
pub open spec fn count_true(s: Seq<bool>) -> nat
    decreases s.len(),
{
    if s.len() == 0 {
        0
    } else {
        count_true(s.drop_last()) + if s.last() { 1nat } else { 0nat }
    }
}

/// The cells hit by a sequence of draws from `[0, area)`: cell `i` is mined
/// when some draw equals `i`.
pub open spec fn mines_from_samples(area: nat, samples: Seq<usize>) -> Seq<bool> {
    Seq::new(area, |i: int| samples.contains(i as usize))
}

/// Every mined cell shows a mine; the other cells keep their tile.
pub open spec fn reveal_mines(tiles: Seq<Tile>, mines: Seq<bool>) -> Seq<Tile> {
    Seq::new(tiles.len(), |i: int| if mines[i] { Tile::MineRevealed } else { tiles[i] })
}

/// A board as the operations see it. Cells are stored row after row: the cell
/// `(r, c)` sits at position `r * cols + c` of each per-cell sequence.
pub struct BoardState {
    pub rows: nat,
    pub cols: nat,
    /// Which cells hold a mine; fixed when the board is built.
    pub mines: Seq<bool>,
    /// Which cells are revealed.
    pub explored: Seq<bool>,
    /// Which cells carry a flag.
    pub flagged: Seq<bool>,
    /// Cells waiting to be explored, oldest first.
    pub frontier: Seq<Coord>,
    /// What each cell shows.
    pub tiles: Seq<Tile>,
}

impl BoardState {
    pub open spec fn area(self) -> nat {
        self.rows * self.cols
    }

    pub open spec fn index(self, p: Coord) -> int {
        p.0 * self.cols + p.1
    }

    pub open spec fn in_bounds(self, p: Coord) -> bool {
        p.0 < self.rows && p.1 < self.cols
    }

    pub open spec fn is_mine(self, p: Coord) -> bool {
        self.mines[self.index(p)]
    }

    pub open spec fn is_explored(self, p: Coord) -> bool {
        self.explored[self.index(p)]
    }

    pub open spec fn is_flagged(self, p: Coord) -> bool {
        self.flagged[self.index(p)]
    }

    pub open spec fn tile(self, p: Coord) -> Tile {
        self.tiles[self.index(p)]
    }

    pub open spec fn mine_count(self) -> nat {
        count_true(self.mines)
    }

    pub open spec fn explored_count(self) -> nat {
        count_true(self.explored)
    }

    pub open spec fn flagged_count(self) -> nat {
        count_true(self.flagged)
    }

    /// The invariant that every board keeps.
    pub open spec fn valid(self) -> bool {
        &&& 0 < self.area() <= usize::MAX
        &&& self.mines.len() == self.area()
        &&& self.explored.len() == self.area()
        &&& self.flagged.len() == self.area()
        &&& self.tiles.len() == self.area()
        &&& self.mine_count() < self.area()
        &&& self.flagged_count() <= self.mine_count()
        &&& forall|i: int| 0 <= i < self.area() ==> !(#[trigger] self.explored[i] && self.mines[i])
        &&& forall|i: int| 0 <= i < self.area() ==> !(#[trigger] self.explored[i] && self.flagged[i])
        &&& self.frontier.no_duplicates()
        &&& forall|k: int|
            0 <= k < self.frontier.len() ==> self.in_bounds(#[trigger] self.frontier[k])
                && !self.is_explored(self.frontier[k])
    }

    /// The board right after it is built from a sequence of draws: nothing
    /// revealed, flagged or queued, every cell hidden.
    pub open spec fn fresh(rows: nat, cols: nat, samples: Seq<usize>) -> BoardState {
        BoardState {
            rows,
            cols,
            mines: mines_from_samples(rows * cols, samples),
            explored: Seq::new(rows * cols, |i: int| false),
            flagged: Seq::new(rows * cols, |i: int| false),
            frontier: Seq::empty(),
            tiles: Seq::new(rows * cols, |i: int| Tile::Hidden),
        }
    }

    /// `seq![(r, c)]` when `(r, c)` lies on the board, else the empty sequence.
    pub open spec fn cell_if_on_board(self, r: int, c: int) -> Seq<Coord> {
        if 0 <= r < self.rows && 0 <= c < self.cols {
            seq![(r as usize, c as usize)]
        } else {
            Seq::empty()
        }
    }

    /// The neighbours of `p` on the board, row by row from the top left.
    pub open spec fn neighbors(self, p: Coord) -> Seq<Coord> {
        let r = p.0 as int;
        let c = p.1 as int;
        self.cell_if_on_board(r - 1, c - 1) + self.cell_if_on_board(r - 1, c)
            + self.cell_if_on_board(r - 1, c + 1) + self.cell_if_on_board(r, c - 1)
            + self.cell_if_on_board(r, c + 1) + self.cell_if_on_board(r + 1, c - 1)
            + self.cell_if_on_board(r + 1, c) + self.cell_if_on_board(r + 1, c + 1)
    }

    /// How many cells of `cells` hold a mine.
    pub open spec fn mines_among(self, cells: Seq<Coord>) -> nat
        decreases cells.len(),
    {
        if cells.len() == 0 {
            0
        } else {
            self.mines_among(cells.drop_last()) + if self.is_mine(cells.last()) {
                1nat
            } else {
                0nat
            }
        }
    }

    /// The queue `q` after offering it each of `cells` in turn: a cell joins
    /// at the back unless it is revealed or already queued.
    pub open spec fn enqueue_all(self, q: Seq<Coord>, cells: Seq<Coord>) -> Seq<Coord>
        decreases cells.len(),
    {
        if cells.len() == 0 {
            q
        } else {
            let q1 = self.enqueue_all(q, cells.drop_last());
            let p = cells.last();
            if self.is_explored(p) || q1.contains(p) {
                q1
            } else {
                q1.push(p)
            }
        }
    }

    /// Reveal the safe cell `p`, which has `n` mined neighbours.
    pub open spec fn reveal_safe(self, p: Coord, n: nat) -> BoardState {
        let i = self.index(p);
        BoardState {
            explored: self.explored.update(i, true),
            flagged: self.flagged.update(i, false),
            tiles: self.tiles.update(
                i,
                if n > 0 { Tile::NeighborCount(n as u8) } else { Tile::Blank },
            ),
            ..self
        }
    }

    /// One exploration step: the board after it and what it reports.
    pub open spec fn step(self) -> (BoardState, ExploreResult) {
        if self.frontier.len() == 0 {
            (
                self,
                if self.area() - self.explored_count() == self.mine_count() {
                    ExploreResult::BoardClear
                } else {
                    ExploreResult::EmptyCache
                },
            )
        } else {
            let p = self.frontier[0];
            let rest = self.frontier.drop_first();
            if self.is_mine(p) {
                (
                    BoardState {
                        frontier: rest,
                        tiles: reveal_mines(self.tiles, self.mines),
                        ..self
                    },
                    ExploreResult::Mined,
                )
            } else {
                let n = self.mines_among(self.neighbors(p));
                let s = BoardState { frontier: rest, ..self.reveal_safe(p, n) };
                if n > 0 {
                    (s, ExploreResult::Revealed)
                } else {
                    (
                        BoardState { frontier: s.enqueue_all(rest, self.neighbors(p)), ..s },
                        ExploreResult::Revealed,
                    )
                }
            }
        }
    }

    /// Queue the cell `p` for exploration: the board after it and what it
    /// reports.
    pub open spec fn enqueue(self, p: Coord) -> (BoardState, CacheResult) {
        if !self.in_bounds(p) {
            (self, CacheResult::InvalidCoordinate)
        } else if self.is_explored(p) {
            (self, CacheResult::Clear)
        } else if self.frontier.contains(p) {
            (self, CacheResult::Cached)
        } else {
            (BoardState { frontier: self.frontier.push(p), ..self }, CacheResult::Cached)
        }
    }

    /// Put `label` on the cell `p`, which lies on the board.
    pub open spec fn relabel(self, p: Coord, label: CellLabel) -> BoardState {
        let i = self.index(p);
        match label {
            CellLabel::Clear => BoardState {
                flagged: self.flagged.update(i, false),
                tiles: self.tiles.update(i, Tile::Blank),
                ..self
            },
            CellLabel::MinedNeighbors(n) => BoardState {
                flagged: self.flagged.update(i, false),
                tiles: self.tiles.update(i, Tile::NeighborCount(n as u8)),
                ..self
            },
            CellLabel::Flag => {
                if self.explored[i] {
                    self
                } else if self.flagged[i] {
                    BoardState {
                        flagged: self.flagged.update(i, false),
                        tiles: self.tiles.update(i, Tile::Hidden),
                        ..self
                    }
                } else if self.flagged_count() < self.mine_count() {
                    BoardState {
                        flagged: self.flagged.update(i, true),
                        tiles: self.tiles.update(i, Tile::Flagged),
                        ..self
                    }
                } else {
                    self
                }
            },
        }
    }

    /// Toggle the flag of the cell `p`: the board after it, and whether `p`
    /// lies on the board.
    pub open spec fn toggle_flag(self, p: Coord) -> (BoardState, bool) {
        if self.in_bounds(p) {
            (self.relabel(p, CellLabel::Flag), true)
        } else {
            (self, false)
        }
    }
}


/// Changing one entry moves the count by at most that entry.
pub proof fn lemma_count_true_update(s: Seq<bool>, i: int, v: bool)
    requires
        0 <= i < s.len(),
    ensures
        count_true(s.update(i, v)) == count_true(s) - (if s[i] { 1int } else { 0int }) + (if v {
            1int
        } else {
            0int
        }),
    decreases s.len(),
{
    if i == s.len() - 1 {
        assert(s.update(i, v).drop_last() =~= s.drop_last());
    } else {
        lemma_count_true_update(s.drop_last(), i, v);
        assert(s.update(i, v).drop_last() =~= s.drop_last().update(i, v));
    }
}

/// A count never exceeds the length.
pub proof fn lemma_count_true_bound(s: Seq<bool>)
    ensures
        count_true(s) <= s.len(),
    decreases s.len(),
{
    if s.len() > 0 {
        lemma_count_true_bound(s.drop_last());
    }
}

/// A sequence with no `true` entry counts zero.
pub proof fn lemma_count_true_none(s: Seq<bool>)
    requires
        forall|i: int| 0 <= i < s.len() ==> !s[i],
    ensures
        count_true(s) == 0,
    decreases s.len(),
{
    if s.len() > 0 {
        lemma_count_true_none(s.drop_last());
    }
}

/// One more draw marks at most one more cell.
pub proof fn lemma_mines_from_samples_push(area: nat, samples: Seq<usize>, x: usize)
    requires
        x < area,
        area <= usize::MAX,
    ensures
        mines_from_samples(area, samples.push(x)) =~= mines_from_samples(area, samples).update(
            x as int,
            true,
        ),
{
    let t = samples.push(x);
    assert forall|i: int| 0 <= i < area implies #[trigger] t.contains(i as usize) == (
    samples.contains(i as usize) || i == x as int) by {
        let u = i as usize;
        if samples.contains(u) {
            let k = choose|k: int| 0 <= k < samples.len() && samples[k] == u;
            assert(t[k] == u);
        }
        if i == x as int {
            assert(t[samples.len() as int] == x);
        }
        if t.contains(u) {
            let k = choose|k: int| 0 <= k < t.len() && t[k] == u;
            if k < samples.len() {
                assert(samples[k] == u);
            }
        }
    }
}

/// The draws mark at most as many cells as there are draws.
pub proof fn lemma_mines_from_samples_count(area: nat, samples: Seq<usize>)
    requires
        area <= usize::MAX,
        forall|k: int| 0 <= k < samples.len() ==> samples[k] < area,
    ensures
        count_true(mines_from_samples(area, samples)) <= samples.len(),
    decreases samples.len(),
{
    if samples.len() == 0 {
        lemma_count_true_none(mines_from_samples(area, samples));
    } else {
        let init = samples.drop_last();
        let x = samples.last();
        lemma_mines_from_samples_count(area, init);
        assert(init.push(x) =~= samples);
        lemma_mines_from_samples_push(area, init, x);
        lemma_count_true_update(mines_from_samples(area, init), x as int, true);
    }
}

/// A cell on a board with `cols` columns sits inside the grid.
pub proof fn lemma_index_in_grid(rows: nat, cols: nat, r: nat, c: nat)
    requires
        r < rows,
        c < cols,
    ensures
        0 <= r * cols + c < rows * cols,
{
    assert(r * cols + cols <= rows * cols) by (nonlinear_arith)
        requires
            r + 1 <= rows,
            cols >= 0,
    {}
    assert(0 <= r * cols) by (nonlinear_arith)
        requires
            r >= 0,
            cols >= 0,
    {}
}

/// Distinct cells sit at distinct positions.
pub proof fn lemma_index_injective(cols: nat, r1: nat, c1: nat, r2: nat, c2: nat)
    requires
        c1 < cols,
        c2 < cols,
        r1 * cols + c1 == r2 * cols + c2,
    ensures
        r1 == r2,
        c1 == c2,
{
    if r1 < r2 {
        assert(r1 * cols + cols <= r2 * cols) by (nonlinear_arith)
            requires
                r1 + 1 <= r2,
                cols >= 0,
        {}
    } else if r2 < r1 {
        assert(r2 * cols + cols <= r1 * cols) by (nonlinear_arith)
            requires
                r2 + 1 <= r1,
                cols >= 0,
        {}
    }
}

/// Position `i` of the grid is the cell `(i / cols, i % cols)`.
pub proof fn lemma_index_of_position(cols: nat, i: nat)
    requires
        0 < cols,
    ensures
        (i / cols) * cols + i % cols == i,
        i % cols < cols,
{
    lemma_fundamental_div_mod(i as int, cols as int);
    assert((i / cols) * cols == cols * (i / cols)) by (nonlinear_arith);
}

impl BoardState {
    /// Every cell on the board has its position inside the per-cell sequences,
    /// and distinct cells have distinct positions.
    pub proof fn lemma_index(self)
        ensures
            forall|p: Coord|
                self.in_bounds(p) ==> 0 <= #[trigger] self.index(p) < self.area(),
            forall|p: Coord, q: Coord|
                self.in_bounds(p) && self.in_bounds(q) && #[trigger] self.index(p)
                    == #[trigger] self.index(q) ==> p == q,
    {
        assert forall|p: Coord| self.in_bounds(p) implies 0 <= #[trigger] self.index(p)
            < self.area() by {
            lemma_index_in_grid(self.rows, self.cols, p.0 as nat, p.1 as nat);
        }
        assert forall|p: Coord, q: Coord|
            self.in_bounds(p) && self.in_bounds(q) && #[trigger] self.index(p)
                == #[trigger] self.index(q) implies p == q by {
            lemma_index_injective(self.cols, p.0 as nat, p.1 as nat, q.0 as nat, q.1 as nat);
        }
    }

    /// The neighbours of a cell are at most eight cells of the board.
    pub proof fn lemma_neighbors(self, p: Coord)
        requires
            self.area() <= usize::MAX,
        ensures
            self.neighbors(p).len() <= 8,
            forall|k: int|
                0 <= k < self.neighbors(p).len() ==> self.in_bounds(
                    #[trigger] self.neighbors(p)[k],
                ),
    {
        let r = p.0 as int;
        let c = p.1 as int;
        assert forall|a: int, b: int, k: int|
            0 <= k < self.cell_if_on_board(a, b).len() implies self.in_bounds(
            #[trigger] self.cell_if_on_board(a, b)[k],
        ) by {
            if 0 <= a < self.rows && 0 <= b < self.cols {
                if self.cols > 0 {
                    lemma_index_in_grid(self.rows, self.cols, a as nat, b as nat);
                    assert(a * self.cols <= a * self.cols + b);
                    assert(a <= a * self.cols) by (nonlinear_arith)
                        requires
                            a >= 0,
                            self.cols >= 1,
                    {}
                }
                if self.rows > 0 {
                    assert(b <= self.rows * self.cols) by (nonlinear_arith)
                        requires
                            0 <= b < self.cols,
                            self.rows >= 1,
                    {}
                }
            }
        }
    }

    /// Counting mines among cells never exceeds the number of cells.
    pub proof fn lemma_mines_among_bound(self, cells: Seq<Coord>)
        ensures
            self.mines_among(cells) <= cells.len(),
        decreases cells.len(),
    {
        if cells.len() > 0 {
            self.lemma_mines_among_bound(cells.drop_last());
        }
    }

    /// Offering cells of the board to a queue of hidden, distinct cells of the
    /// board leaves such a queue.
    pub proof fn lemma_enqueue_all(self, q: Seq<Coord>, cells: Seq<Coord>)
        requires
            self.explored.len() == self.area(),
            self.area() <= usize::MAX,
            q.no_duplicates(),
            forall|k: int|
                0 <= k < q.len() ==> self.in_bounds(#[trigger] q[k]) && !self.is_explored(q[k]),
            forall|k: int| 0 <= k < cells.len() ==> self.in_bounds(#[trigger] cells[k]),
        ensures
            ({
                let r = self.enqueue_all(q, cells);
                &&& r.no_duplicates()
                &&& forall|k: int|
                    0 <= k < r.len() ==> self.in_bounds(#[trigger] r[k]) && !self.is_explored(r[k])
            }),
        decreases cells.len(),
    {
        if cells.len() > 0 {
            self.lemma_enqueue_all(q, cells.drop_last());
            let q1 = self.enqueue_all(q, cells.drop_last());
            let p = cells.last();
            assert(self.in_bounds(cells[cells.len() - 1]));
            if !(self.is_explored(p) || q1.contains(p)) {
                let r = q1.push(p);
                assert forall|i: int, j: int| 0 <= i < j < r.len() implies r[i] != r[j] by {
                    if j == q1.len() {
                        assert(q1[i] == r[i]);
                    }
                }
                assert forall|k: int| 0 <= k < r.len() implies self.in_bounds(#[trigger] r[k])
                    && !self.is_explored(r[k]) by {
                    if k < q1.len() {
                        assert(r[k] == q1[k]);
                    }
                }
            }
        }
    }

    /// Taking the oldest queued cell leaves a queue of distinct hidden cells of
    /// the board, none of them that cell.
    pub proof fn lemma_frontier_rest(self)
        requires
            self.valid(),
            self.frontier.len() > 0,
        ensures
            self.in_bounds(self.frontier[0]),
            !self.is_explored(self.frontier[0]),
            self.frontier.drop_first().no_duplicates(),
            !self.frontier.drop_first().contains(self.frontier[0]),
            forall|k: int|
                0 <= k < self.frontier.drop_first().len() ==> self.in_bounds(
                    #[trigger] self.frontier.drop_first()[k],
                ) && !self.is_explored(self.frontier.drop_first()[k]),
    {
        let f = self.frontier;
        let rest = f.drop_first();
        assert(self.in_bounds(f[0]));
        assert forall|i: int, j: int| 0 <= i < j < rest.len() implies rest[i] != rest[j] by {
            assert(rest[i] == f[i + 1] && rest[j] == f[j + 1]);
        }
        if rest.contains(f[0]) {
            let k = choose|k: int| 0 <= k < rest.len() && rest[k] == f[0];
            assert(f[k + 1] == f[0]);
        }
        assert forall|k: int| 0 <= k < rest.len() implies self.in_bounds(#[trigger] rest[k])
            && !self.is_explored(rest[k]) by {
            assert(rest[k] == f[k + 1]);
        }
    }

    /// Revealing a hidden safe cell that is not queued keeps the invariant.
    pub proof fn lemma_reveal_safe_valid(self, p: Coord, n: nat)
        requires
            self.valid(),
            self.in_bounds(p),
            !self.is_mine(p),
            !self.is_explored(p),
            !self.frontier.contains(p),
        ensures
            self.reveal_safe(p, n).valid(),
            self.reveal_safe(p, n).explored_count() == self.explored_count() + 1,
    {
        self.lemma_index();
        let i = self.index(p);
        let t = self.reveal_safe(p, n);
        lemma_count_true_update(self.explored, i, true);
        lemma_count_true_update(self.flagged, i, false);
        assert forall|k: int| 0 <= k < t.frontier.len() implies t.in_bounds(
            #[trigger] t.frontier[k],
        ) && !t.is_explored(t.frontier[k]) by {
            let q = t.frontier[k];
            assert(self.in_bounds(q) && !self.is_explored(q));
            assert(q != p);
            assert(self.index(q) != i);
        }
    }

    /// A step keeps the invariant.
    pub proof fn lemma_step_valid(self)
        requires
            self.valid(),
        ensures
            self.step().0.valid(),
    {
        if self.frontier.len() > 0 {
            self.lemma_frontier_rest();
            let p = self.frontier[0];
            let rest = self.frontier.drop_first();
            let base = BoardState { frontier: rest, ..self };
            assert(base.valid());
            if !self.is_mine(p) {
                let n = self.mines_among(self.neighbors(p));
                base.lemma_reveal_safe_valid(p, n);
                let s = base.reveal_safe(p, n);
                if n == 0 {
                    s.lemma_neighbors(p);
                    s.lemma_enqueue_all(rest, self.neighbors(p));
                }
            }
        }
    }

    /// Queueing a cell keeps the invariant.
    pub proof fn lemma_enqueue_valid(self, p: Coord)
        requires
            self.valid(),
        ensures
            self.enqueue(p).0.valid(),
    {
        if self.in_bounds(p) && !self.is_explored(p) && !self.frontier.contains(p) {
            let f = self.frontier.push(p);
            assert forall|i: int, j: int| 0 <= i < j < f.len() implies f[i] != f[j] by {
                if j == self.frontier.len() {
                    assert(self.frontier[i] == f[i]);
                }
            }
            assert forall|k: int| 0 <= k < f.len() implies self.in_bounds(#[trigger] f[k])
                && !self.is_explored(f[k]) by {
                if k < self.frontier.len() {
                    assert(f[k] == self.frontier[k]);
                }
            }
        }
    }

    /// Labelling a cell of the board keeps the invariant.
    pub proof fn lemma_relabel_valid(self, p: Coord, label: CellLabel)
        requires
            self.valid(),
            self.in_bounds(p),
        ensures
            self.relabel(p, label).valid(),
            self.relabel(p, label).explored == self.explored,
            self.relabel(p, label).frontier == self.frontier,
    {
        self.lemma_index();
        let i = self.index(p);
        lemma_count_true_update(self.flagged, i, false);
        lemma_count_true_update(self.flagged, i, true);
    }
}

} // verus!
