//! The board: construction, exploration, flagging and rendering.

use vstd::prelude::*;
use crate::model::{
    count_true, lemma_count_true_none, lemma_mines_from_samples_count,
    lemma_index_of_position, lemma_mines_from_samples_push,
    mines_from_samples, reveal_mines, BoardState, Coord,
};
use crate::sampling::draw_samples;

verus! {

/// Why a board could not be built.
#[derive(Clone, Copy, PartialEq, Eq, Structural, Debug)]
pub enum BoardError {
    /// The board has no cell: zero rows or zero columns.
    NullArea,
    /// At least as many mines were asked for as the board has cells.
    TooManyMines,
}

/// What one exploration step reports.
#[derive(Clone, Copy, PartialEq, Eq, Structural, Debug)]
pub enum ExploreResult {
    /// A safe cell was revealed.
    Revealed,
    /// Nothing is queued and safe cells remain hidden.
    EmptyCache,
    /// The cell taken from the queue holds a mine: the game is lost.
    Mined,
    /// Nothing is queued and every safe cell is revealed: the game is won.
    BoardClear,
}

/// What queueing a cell for exploration reports.
#[derive(Clone, Copy, PartialEq, Eq, Structural, Debug)]
pub enum CacheResult {
    /// The cell is queued.
    Cached,
    /// The coordinate lies outside the board.
    InvalidCoordinate,
    /// The cell is already revealed; nothing changed.
    Clear,
}

/// A label that a caller can put on a cell.
#[derive(Clone, Copy, PartialEq, Eq, Structural, Debug)]
pub enum CellLabel {
    /// A revealed cell with no mined neighbour.
    Clear,
    /// Toggle the flag of a hidden cell.
    Flag,
    /// A revealed cell with this many mined neighbours.
    MinedNeighbors(usize),
}

/// What a cell shows when the board is drawn.
#[derive(Clone, Copy, PartialEq, Eq, Structural, Debug)]
pub enum Tile {
    /// Not revealed, not flagged.
    Hidden,
    /// Not revealed, flagged as a suspected mine.
    Flagged,
    /// Revealed, with no mined neighbour.
    Blank,
    /// Revealed, with this many mined neighbours.
    NeighborCount(u8),
    /// A mine, shown once the game is lost.
    MineRevealed,
}

/// A minesweeper board: where the mines are, which cells are revealed, flagged
/// or waiting to be explored, and what each cell shows.
pub struct Board {
    rows: usize,
    cols: usize,
    area: usize,
    mines: Vec<bool>,
    mine_count: usize,
    explored: Vec<bool>,
    explored_count: usize,
    flagged: Vec<bool>,
    flagged_count: usize,
    /// Cells waiting to be explored, oldest first.
    frontier: Vec<Coord>,
    tiles: Vec<Tile>,
}

impl View for Board {
    type V = BoardState;

    closed spec fn view(&self) -> BoardState {
        BoardState {
            rows: self.rows as nat,
            cols: self.cols as nat,
            mines: self.mines@,
            explored: self.explored@,
            flagged: self.flagged@,
            frontier: self.frontier@,
            tiles: self.tiles@,
        }
    }
}

impl Board {
    /// Build a board of `rows` by `cols` cells with `mine_count` mines placed
    /// at random. The mines are drawn uniformly with replacement, so two draws
    /// may hit the same cell and the board may hold fewer mines than asked.
    pub fn new(rows: usize, cols: usize, mine_count: usize) -> (r: Result<Board, BoardError>)
        requires
            rows * cols <= usize::MAX,
        ensures
            r == Err::<Board, BoardError>(BoardError::NullArea) <==> rows * cols == 0,
            r == Err::<Board, BoardError>(BoardError::TooManyMines) <==> (0 < rows * cols
                <= mine_count),
            r is Ok <==> mine_count < rows * cols,
            r is Ok ==> ({
                let b = r->Ok_0;
                &&& b.wf()
                &&& b@.mine_count() <= mine_count
                &&& exists|samples: Seq<usize>|
                    samples.len() == mine_count && (forall|k: int|
                        0 <= k < samples.len() ==> #[trigger] samples[k] < rows * cols) && b@
                        == BoardState::fresh(rows as nat, cols as nat, samples)
            }),
    {
        let area = rows * cols;
        if area == 0 {
            return Err(BoardError::NullArea);
        }
        if area <= mine_count {
            return Err(BoardError::TooManyMines);
        }
        let samples = draw_samples(mine_count, area);
        let r = Board::from_samples(rows, cols, &samples);
        proof {
            lemma_mines_from_samples_count(area as nat, samples@);
        }
        r
    }

    /// Build a board of `rows` by `cols` cells whose mines are given by draws
    /// from `[0, rows * cols)`: the draw `i` mines the cell
    /// `(i / cols, i % cols)`, and a cell drawn twice holds one mine.
    pub fn from_samples(rows: usize, cols: usize, samples: &Vec<usize>) -> (r: Result<
        Board,
        BoardError,
    >)
        requires
            rows * cols <= usize::MAX,
            samples@.len() < rows * cols ==> forall|k: int|
                0 <= k < samples@.len() ==> #[trigger] samples@[k] < rows * cols,
        ensures
            r == Err::<Board, BoardError>(BoardError::NullArea) <==> rows * cols == 0,
            r == Err::<Board, BoardError>(BoardError::TooManyMines) <==> (0 < rows * cols
                <= samples@.len()),
            r is Ok <==> samples@.len() < rows * cols,
            r is Ok ==> r->Ok_0.wf() && r->Ok_0@ == BoardState::fresh(
                rows as nat,
                cols as nat,
                samples@,
            ),
            r is Ok ==> forall|k: int|
                0 <= k < samples@.len() ==> r->Ok_0@.is_mine(
                    ((#[trigger] samples@[k]) / cols, samples@[k] % cols),
                ),
    {
        let area = rows * cols;
        if area == 0 {
            return Err(BoardError::NullArea);
        }
        if area <= samples.len() {
            return Err(BoardError::TooManyMines);
        }
        let mut mines: Vec<bool> = Vec::new();
        let mut explored: Vec<bool> = Vec::new();
        let mut flagged: Vec<bool> = Vec::new();
        let mut tiles: Vec<Tile> = Vec::new();
        let mut i: usize = 0;
        while i < area
            invariant
                i <= area,
                mines@ =~= Seq::new(i as nat, |j: int| false),
                explored@ =~= Seq::new(i as nat, |j: int| false),
                flagged@ =~= Seq::new(i as nat, |j: int| false),
                tiles@ =~= Seq::new(i as nat, |j: int| Tile::Hidden),
            decreases area - i,
        {
            mines.push(false);
            explored.push(false);
            flagged.push(false);
            tiles.push(Tile::Hidden);
            i += 1;
        }
        proof {
            lemma_count_true_none(mines@);
            assert(mines@ =~= mines_from_samples(area as nat, samples@.take(0)));
        }
        let mut mine_count: usize = 0;
        let mut k: usize = 0;
        while k < samples.len()
            invariant
                samples@.len() < area,
                forall|j: int| 0 <= j < samples@.len() ==> #[trigger] samples@[j] < area,
                area <= usize::MAX,
                k <= samples@.len(),
                mines@ == mines_from_samples(area as nat, samples@.take(k as int)),
                mine_count == count_true(mines@),
                mine_count <= k,
            decreases samples@.len() - k,
        {
            let x = samples[k];
            proof {
                assert(samples@.take(k + 1) =~= samples@.take(k as int).push(x));
                lemma_mines_from_samples_push(area as nat, samples@.take(k as int), x);
                crate::model::lemma_count_true_update(mines@, x as int, true);
            }
            if !mines[x] {
                mines.set(x, true);
                mine_count += 1;
            }
            k += 1;
        }
        proof {
            assert(samples@.take(samples@.len() as int) =~= samples@);
            lemma_count_true_none(explored@);
            assert forall|k: int| 0 <= k < samples@.len() implies mines@[((#[trigger] samples@[k])
                / cols) * cols + samples@[k] % cols] by {
                lemma_index_of_position(cols as nat, samples@[k] as nat);
                assert(samples@.contains(samples@[k]));
            }
        }
        Ok(Board {
            rows,
            cols,
            area,
            mines,
            mine_count,
            explored,
            explored_count: 0,
            flagged,
            flagged_count: 0,
            frontier: Vec::new(),
            tiles,
        })
    }

    /// The cached sizes agree with the state they summarise.
    pub closed spec fn counters_agree(&self) -> bool {
        &&& self.area == self.rows * self.cols
        &&& self.mine_count == self@.mine_count()
        &&& self.explored_count == self@.explored_count()
        &&& self.flagged_count == self@.flagged_count()
    }

    /// Well-formedness: the state keeps its invariant and the cached sizes
    /// agree with it. Every board that this module builds is well formed, and
    /// every operation keeps it so.
    pub open spec fn wf(&self) -> bool {
        self@.valid() && self.counters_agree()
    }

    /// Position of the cell `p` in the per-cell vectors.
    fn index_of(&self, p: Coord) -> (r: usize)
        requires
            self.wf(),
            self@.in_bounds(p),
        ensures
            r == self@.index(p),
            r < self.area,
    {
        proof {
            self@.lemma_index();
            assert(0 <= self@.index(p) < self@.area());
            assert(p.0 * self.cols <= self@.index(p));
        }
        p.0 * self.cols + p.1
    }

    /// Whether the cell `p` is waiting to be explored.
    fn in_frontier(&self, p: Coord) -> (r: bool)
        ensures
            r == self@.frontier.contains(p),
    {
        let mut k: usize = 0;
        while k < self.frontier.len()
            invariant
                k <= self.frontier@.len(),
                forall|j: int| 0 <= j < k ==> self.frontier@[j] != p,
            decreases self.frontier@.len() - k,
        {
            if self.frontier[k].0 == p.0 && self.frontier[k].1 == p.1 {
                return true;
            }
            k += 1;
        }
        false
    }

    /// The neighbours of `p` on the board, row by row from the top left.
    fn neighbors(&self, p: Coord) -> (r: Vec<Coord>)
        requires
            self.wf(),
            self@.in_bounds(p),
        ensures
            r@ == self@.neighbors(p),
    {
        let ghost s = self@;
        let (row, col) = p;
        let above = row > 0;
        let below = row + 1 < self.rows;
        let left = col > 0;
        let right = col + 1 < self.cols;
        let mut r: Vec<Coord> = Vec::new();
        if above && left {
            r.push((row - 1, col - 1));
        }
        if above {
            r.push((row - 1, col));
        }
        if above && right {
            r.push((row - 1, col + 1));
        }
        if left {
            r.push((row, col - 1));
        }
        if right {
            r.push((row, col + 1));
        }
        if below && left {
            r.push((row + 1, col - 1));
        }
        if below {
            r.push((row + 1, col));
        }
        if below && right {
            r.push((row + 1, col + 1));
        }
        let ghost (a, b) = (row as int, col as int);
        assert(r@ =~= s.cell_if_on_board(a - 1, b - 1) + s.cell_if_on_board(a - 1, b)
            + s.cell_if_on_board(a - 1, b + 1) + s.cell_if_on_board(a, b - 1)
            + s.cell_if_on_board(a, b + 1) + s.cell_if_on_board(a + 1, b - 1)
            + s.cell_if_on_board(a + 1, b) + s.cell_if_on_board(a + 1, b + 1));
        r
    }

    /// Show every mine.
    fn reveal_mines(&mut self)
        requires
            old(self).wf(),
        ensures
            final(self).wf(),
            final(self)@ == (BoardState {
                tiles: reveal_mines(old(self)@.tiles, old(self)@.mines),
                ..old(self)@
            }),
    {
        let ghost old_tiles = self.tiles@;
        let mut i: usize = 0;
        while i < self.area
            invariant
                self.wf(),
                i <= self.area,
                self@ == (BoardState { tiles: self@.tiles, ..old(self)@ }),
                old_tiles == old(self)@.tiles,
                forall|j: int|
                    0 <= j < self.tiles@.len() ==> #[trigger] self.tiles@[j] == if j < i
                        && self.mines@[j] {
                        Tile::MineRevealed
                    } else {
                        old_tiles[j]
                    },
            decreases self.area - i,
        {
            if self.mines[i] {
                self.tiles.set(i, Tile::MineRevealed);
            }
            i += 1;
        }
        assert(self.tiles@ =~= reveal_mines(old_tiles, self.mines@));
    }

    /// Queue the cell `coord` (zero-based) for exploration. A cell outside the
    /// board is refused and a revealed cell left alone; a queued cell stays
    /// queued once.
    pub fn cache(&mut self, coord: Coord) -> (r: CacheResult)
        requires
            old(self).wf(),
        ensures
            final(self).wf(),
            (final(self)@, r) == old(self)@.enqueue(coord),
    {
        proof {
            self@.lemma_enqueue_valid(coord);
        }
        if !(coord.0 < self.rows && coord.1 < self.cols) {
            return CacheResult::InvalidCoordinate;
        }
        let i = self.index_of(coord);
        if self.explored[i] {
            return CacheResult::Clear;
        }
        if !self.in_frontier(coord) {
            self.frontier.push(coord);
        }
        CacheResult::Cached
    }

    /// Put `label` on the cell `at`. With `from_ui` the coordinate counts from
    /// one, else from zero. Returns whether `at` names a cell of the board;
    /// when it does not, nothing changes.
    ///
    /// A revealed label (`Clear`, `MinedNeighbors`) takes any flag off the
    /// cell. `Flag` leaves a revealed cell alone, takes the flag off a flagged
    /// cell, and flags a hidden cell while fewer cells are flagged than the
    /// board has mines.
    pub fn update_label(&mut self, at: Coord, label: CellLabel, from_ui: bool) -> (r: bool)
        requires
            old(self).wf(),
            label matches CellLabel::MinedNeighbors(n) ==> 1 <= n <= 8,
        ensures
            final(self).wf(),
            ({
                let p = if from_ui {
                    ((at.0 - 1) as usize, (at.1 - 1) as usize)
                } else {
                    at
                };
                let named = (!from_ui || (at.0 > 0 && at.1 > 0)) && old(self)@.in_bounds(p);
                &&& r == named
                &&& final(self)@ == if named {
                    old(self)@.relabel(p, label)
                } else {
                    old(self)@
                }
            }),
    {
        let mut p = at;
        if from_ui {
            if at.0 == 0 || at.1 == 0 {
                return false;
            }
            p = (at.0 - 1, at.1 - 1);
        }
        if !(p.0 < self.rows && p.1 < self.cols) {
            return false;
        }
        let i = self.index_of(p);
        proof {
            self@.lemma_relabel_valid(p, label);
            crate::model::lemma_count_true_update(self.flagged@, i as int, false);
            crate::model::lemma_count_true_update(self.flagged@, i as int, true);
        }
        match label {
            CellLabel::Clear => {
                if self.flagged[i] {
                    self.flagged.set(i, false);
                    self.flagged_count = self.flagged_count - 1;
                }
                self.tiles.set(i, Tile::Blank);
            },
            CellLabel::MinedNeighbors(n) => {
                if self.flagged[i] {
                    self.flagged.set(i, false);
                    self.flagged_count = self.flagged_count - 1;
                }
                self.tiles.set(i, Tile::NeighborCount(n as u8));
            },
            CellLabel::Flag => {
                if self.explored[i] {
                } else if self.flagged[i] {
                    self.flagged.set(i, false);
                    self.flagged_count = self.flagged_count - 1;
                    self.tiles.set(i, Tile::Hidden);
                } else if self.flagged_count < self.mine_count {
                    self.flagged.set(i, true);
                    self.flagged_count = self.flagged_count + 1;
                    self.tiles.set(i, Tile::Flagged);
                }
            },
        }
        proof {
            assert(self.flagged@ =~= old(self)@.relabel(p, label).flagged);
            assert(self.tiles@ =~= old(self)@.relabel(p, label).tiles);
        }
        true
    }

    /// Toggle the flag on the cell `coord` (zero-based). Returns whether the
    /// coordinate lies on the board.
    pub fn toggle_flag_at(&mut self, coord: Coord) -> (r: bool)
        requires
            old(self).wf(),
        ensures
            final(self).wf(),
            (final(self)@, r) == old(self)@.toggle_flag(coord),
    {
        self.update_label(coord, CellLabel::Flag, false)
    }

    /// Explore the oldest queued cell, if any.
    ///
    /// With nothing queued, report `BoardClear` when every safe cell is
    /// revealed, else `EmptyCache`. A mined cell reveals every mine and
    /// reports `Mined`. A safe cell is revealed and labelled with the number of
    /// its mined neighbours; when it has none, each neighbour that is neither
    /// revealed nor queued joins the back of the queue, in the order of
    /// `BoardState::neighbors`.
    pub fn explore(&mut self) -> (r: ExploreResult)
        requires
            old(self).wf(),
        ensures
            final(self).wf(),
            (final(self)@, r) == old(self)@.step(),
    {
        proof {
            crate::model::lemma_count_true_bound(self.explored@);
        }
        if self.frontier.len() == 0 {
            if self.area - self.explored_count == self.mine_count {
                return ExploreResult::BoardClear;
            } else {
                return ExploreResult::EmptyCache;
            }
        }
        let ghost s0 = self@;
        proof {
            s0.lemma_frontier_rest();
        }
        let p = self.frontier.remove(0);
        assert(self@ == (BoardState { frontier: s0.frontier.drop_first(), ..s0 }));
        let i = self.index_of(p);
        if self.mines[i] {
            self.reveal_mines();
            return ExploreResult::Mined;
        }
        let nbrs = self.neighbors(p);
        proof {
            self@.lemma_neighbors(p);
            self@.lemma_index();
        }
        let mut mined: usize = 0;
        let mut k: usize = 0;
        while k < nbrs.len()
            invariant
                self.wf(),
                self@ == (BoardState { frontier: s0.frontier.drop_first(), ..s0 }),
                nbrs@ == s0.neighbors(p),
                nbrs@.len() <= 8,
                forall|j: int| 0 <= j < nbrs@.len() ==> self@.in_bounds(#[trigger] nbrs@[j]),
                k <= nbrs@.len(),
                mined == s0.mines_among(nbrs@.take(k as int)),
                mined <= k,
            decreases nbrs@.len() - k,
        {
            let q = nbrs[k];
            let j = self.index_of(q);
            if self.mines[j] {
                mined += 1;
            }
            assert(nbrs@.take(k + 1).drop_last() =~= nbrs@.take(k as int));
            k += 1;
        }
        assert(nbrs@.take(nbrs@.len() as int) =~= nbrs@);
        let label = if mined > 0 {
            CellLabel::MinedNeighbors(mined)
        } else {
            CellLabel::Clear
        };
        let ghost s1 = self@;
        self.update_label(p, label, false);
        proof {
            crate::model::lemma_count_true_update(self.explored@, i as int, true);
            crate::model::lemma_count_true_bound(self.explored@.update(i as int, true));
            s1.lemma_reveal_safe_valid(p, mined as nat);
        }
        self.explored.set(i, true);
        self.explored_count = self.explored_count + 1;
        let ghost s2 = s1.reveal_safe(p, mined as nat);
        assert(self@ =~= s2);
        assert(s2 =~= (BoardState {
            frontier: s0.frontier.drop_first(),
            ..s0.reveal_safe(p, s0.mines_among(s0.neighbors(p)))
        }));
        if mined == 0 {
            let mut k: usize = 0;
            while k < nbrs.len()
                invariant
                    self.wf(),
                    nbrs@ == s2.neighbors(p),
                    forall|j: int| 0 <= j < nbrs@.len() ==> s2.in_bounds(#[trigger] nbrs@[j]),
                    k <= nbrs@.len(),
                    self@ == (BoardState {
                        frontier: s2.enqueue_all(s2.frontier, nbrs@.take(k as int)),
                        ..s2
                    }),
                decreases nbrs@.len() - k,
            {
                assert(nbrs@.take(k + 1).drop_last() =~= nbrs@.take(k as int));
                self.cache(nbrs[k]);
                k += 1;
            }
            assert(nbrs@.take(nbrs@.len() as int) =~= nbrs@);
        }
        ExploreResult::Revealed
    }

    pub fn get_rows(&self) -> (r: usize)
        ensures
            r == self@.rows,
    {
        self.rows
    }

    pub fn get_cols(&self) -> (r: usize)
        ensures
            r == self@.cols,
    {
        self.cols
    }

    /// Number of mines the board holds.
    pub fn get_mine_count(&self) -> (r: usize)
        requires
            self.wf(),
        ensures
            r == self@.mine_count(),
    {
        self.mine_count
    }

    /// Number of flagged cells.
    pub fn get_flagged_count(&self) -> (r: usize)
        requires
            self.wf(),
        ensures
            r == self@.flagged_count(),
    {
        self.flagged_count
    }

    /// What the cell `p` shows, or `None` when `p` lies off the board.
    pub fn tile_at(&self, p: Coord) -> (r: Option<Tile>)
        requires
            self.wf(),
        ensures
            r == if self@.in_bounds(p) {
                Some(self@.tile(p))
            } else {
                None::<Tile>
            },
    {
        if p.0 < self.rows && p.1 < self.cols {
            let i = self.index_of(p);
            Some(self.tiles[i])
        } else {
            None
        }
    }
}

} // verus!
