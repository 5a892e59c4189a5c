//! Properties of the board that hold across calls: invariants kept by every
//! sequence of operations, flag toggling, the win condition and determinism.

use vstd::prelude::*;
use crate::game::{CacheResult, ExploreResult, Tile};
use crate::model::{lemma_count_true_none, lemma_mines_from_samples_count, BoardState, Coord};
use crate::render::board_text;

verus! {

/// An operation on a board, as a caller performs it.
pub enum Command {
    /// `Board::cache`
    Enqueue(Coord),
    /// `Board::explore`
    Step,
    /// `Board::toggle_flag_at`
    ToggleFlag(Coord),
}

/// What an operation reports.
pub enum Signal {
    Enqueue(CacheResult),
    Step(ExploreResult),
    ToggleFlag(bool),
}

impl BoardState {
    /// The board after `c` and what `c` reports, as the contracts of the
    /// corresponding methods of `Board` state them.
    pub open spec fn apply(self, c: Command) -> (BoardState, Signal) {
        match c {
            Command::Enqueue(p) => (self.enqueue(p).0, Signal::Enqueue(self.enqueue(p).1)),
            Command::Step => (self.step().0, Signal::Step(self.step().1)),
            Command::ToggleFlag(p) => (
                self.toggle_flag(p).0,
                Signal::ToggleFlag(self.toggle_flag(p).1),
            ),
        }
    }

    /// The board after the commands `cs`, in order, and what each reported.
    pub open spec fn run(self, cs: Seq<Command>) -> (BoardState, Seq<Signal>)
        decreases cs.len(),
    {
        if cs.len() == 0 {
            (self, Seq::empty())
        } else {
            let before = self.run(cs.drop_last());
            let after = before.0.apply(cs.last());
            (after.0, before.1.push(after.1))
        }
    }
}

/// Every operation keeps the board's invariant.
pub proof fn lemma_apply_valid(s: BoardState, c: Command)
    requires
        s.valid(),
    ensures
        s.apply(c).0.valid(),
{
    match c {
        Command::Enqueue(p) => s.lemma_enqueue_valid(p),
        Command::Step => s.lemma_step_valid(),
        Command::ToggleFlag(p) => {
            if s.in_bounds(p) {
                s.lemma_relabel_valid(p, crate::game::CellLabel::Flag);
            }
        },
    }
}

/// Every sequence of operations keeps the board's invariant.
pub proof fn lemma_run_valid(s: BoardState, cs: Seq<Command>)
    requires
        s.valid(),
    ensures
        s.run(cs).0.valid(),
    decreases cs.len(),
{
    if cs.len() > 0 {
        lemma_run_valid(s, cs.drop_last());
        lemma_apply_valid(s.run(cs.drop_last()).0, cs.last());
    }
}

/// A board built from draws that hit fewer cells than it has is valid, and
/// holds at most as many mines as there were draws.
pub proof fn lemma_fresh_valid(rows: nat, cols: nat, samples: Seq<usize>)
    requires
        samples.len() < rows * cols <= usize::MAX,
        forall|k: int| 0 <= k < samples.len() ==> #[trigger] samples[k] < rows * cols,
    ensures
        BoardState::fresh(rows, cols, samples).valid(),
        BoardState::fresh(rows, cols, samples).mine_count() <= samples.len(),
{
    let s = BoardState::fresh(rows, cols, samples);
    lemma_mines_from_samples_count(rows * cols, samples);
    lemma_count_true_none(s.explored);
    lemma_count_true_none(s.flagged);
}

/// No revealed cell ever holds a mine, whatever operations a valid board
/// goes through. A step that reports `Mined` leaves the mined cell it took
/// hidden.
pub proof fn lemma_revealed_cells_are_safe(s: BoardState, cs: Seq<Command>)
    requires
        s.valid(),
    ensures
        ({
            let t = s.run(cs).0;
            forall|i: int| 0 <= i < t.area() ==> !(#[trigger] t.explored[i] && t.mines[i])
        }),
        s.step().1 == ExploreResult::Mined ==> ({
            let p = s.frontier[0];
            &&& s.step().0.is_mine(p)
            &&& !s.step().0.is_explored(p)
        }),
{
    lemma_run_valid(s, cs);
    if s.frontier.len() > 0 {
        s.lemma_frontier_rest();
    }
}

/// Whatever operations a valid board goes through, it never carries more
/// flags than mines.
pub proof fn lemma_flags_within_mines(s: BoardState, cs: Seq<Command>)
    requires
        s.valid(),
    ensures
        s.run(cs).0.flagged_count() <= s.run(cs).0.mine_count(),
{
    lemma_run_valid(s, cs);
}

/// Toggling the flag of a hidden, unflagged cell twice gives back the board
/// as it was: the same tiles and the same flags.
pub proof fn lemma_toggle_flag_twice(s: BoardState, p: Coord)
    requires
        s.valid(),
        s.in_bounds(p),
        !s.is_explored(p),
        !s.is_flagged(p),
        s.tile(p) == Tile::Hidden,
    ensures
        s.toggle_flag(p).0.toggle_flag(p).0 == s,
        s.toggle_flag(p).0.toggle_flag(p).0.flagged_count() == s.flagged_count(),
{
    s.lemma_index();
    let i = s.index(p);
    let t = s.toggle_flag(p).0;
    if t != s {
        assert(t.flagged[i]);
        assert(t.toggle_flag(p).0.flagged =~= s.flagged);
        assert(t.toggle_flag(p).0.tiles =~= s.tiles);
    }
}

/// A step reports `BoardClear` exactly when nothing is queued and the hidden
/// cells are as many as the mines.
pub proof fn lemma_board_clear(s: BoardState)
    ensures
        s.step().1 == ExploreResult::BoardClear <==> (s.frontier.len() == 0 && s.area()
            - s.explored_count() == s.mine_count()),
{
}

/// Two boards built with the same dimensions and the same mined cells go
/// through any sequence of operations alike: the same reports, the same
/// final board and the same text.
pub proof fn lemma_same_layout_same_game(
    rows: nat,
    cols: nat,
    a: Seq<usize>,
    b: Seq<usize>,
    cs: Seq<Command>,
)
    requires
        crate::model::mines_from_samples(rows * cols, a) == crate::model::mines_from_samples(
            rows * cols,
            b,
        ),
    ensures
        BoardState::fresh(rows, cols, a).run(cs) == BoardState::fresh(rows, cols, b).run(cs),
        board_text(BoardState::fresh(rows, cols, a).run(cs).0) == board_text(
            BoardState::fresh(rows, cols, b).run(cs).0,
        ),
{
    assert(BoardState::fresh(rows, cols, a) == BoardState::fresh(rows, cols, b));
}

} // verus!
