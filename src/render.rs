//! The board as text: a header of column numbers, then one line per row that
//! starts with the row number and shows one character per cell. Rows and
//! columns are numbered from one.

use vstd::prelude::*;
use crate::game::{Board, Tile};
use crate::model::BoardState;

verus! {

/// The character of the decimal digit `d`.
pub open spec fn digit_char(d: nat) -> char {
    ((d + 48) as u8) as char
}

/// The decimal digits of `n`, most significant first.
pub open spec fn decimal(n: nat) -> Seq<char>
    decreases n,
{
    if n < 10 {
        seq![digit_char(n)]
    } else {
        decimal(n / 10).push(digit_char(n % 10))
    }
}

pub open spec fn spaces(n: nat) -> Seq<char> {
    Seq::new(n, |i: int| ' ')
}

/// `s` right-aligned in a field of `w` characters; a longer `s` is kept whole.
pub open spec fn pad_left(s: Seq<char>, w: nat) -> Seq<char> {
    if s.len() < w {
        spaces((w - s.len()) as nat) + s
    } else {
        s
    }
}

/// The character that shows a tile.
pub open spec fn glyph(t: Tile) -> char {
    match t {
        Tile::Hidden => '.',
        Tile::Flagged => '>',
        Tile::Blank => ' ',
        Tile::NeighborCount(n) => decimal(n as nat)[0],
        Tile::MineRevealed => '*',
    }
}

/// Width of the row numbers at the start of each line.
pub open spec fn row_label_width(rows: nat) -> nat {
    decimal(rows).len() + 1
}

/// Width of the field of each column.
pub open spec fn col_label_width(cols: nat) -> nat {
    decimal(cols).len() + 2
}

/// The numbers of columns 2 through `n`, each right-aligned in `w`
/// characters and followed by `|`.
pub open spec fn column_labels(n: nat, w: nat) -> Seq<char>
    decreases n,
{
    if n < 2 {
        Seq::empty()
    } else {
        column_labels((n - 1) as nat, w) + pad_left(decimal(n), w) + seq!['|']
    }
}

/// The first line: the number of the first column set past the row numbers,
/// then the other column numbers.
pub open spec fn header(rows: nat, cols: nat) -> Seq<char> {
    pad_left(decimal(1), row_label_width(rows) + 1 + col_label_width(cols)) + seq!['|']
        + column_labels(cols, col_label_width(cols)) + seq!['\n']
}

/// The first `c` cells of row `r`, each shown after a run of spaces as wide
/// as a column field.
pub open spec fn row_cells(s: BoardState, r: nat, c: nat) -> Seq<char>
    decreases c,
{
    if c == 0 {
        Seq::empty()
    } else {
        row_cells(s, r, (c - 1) as nat) + spaces(col_label_width(s.cols)) + seq![
            glyph(s.tile((r as usize, (c - 1) as usize))),
        ]
    }
}

/// The lines of the first `n` rows.
pub open spec fn row_lines(s: BoardState, n: nat) -> Seq<char>
    decreases n,
{
    if n == 0 {
        Seq::empty()
    } else {
        row_lines(s, (n - 1) as nat) + pad_left(decimal(n), row_label_width(s.rows)) + seq!['|']
            + row_cells(s, (n - 1) as nat, s.cols) + seq!['\n']
    }
}

/// The whole board as text.
pub open spec fn board_text(s: BoardState) -> Seq<char> {
    header(s.rows, s.cols) + row_lines(s, s.rows)
}

spec fn pow10(k: nat) -> nat
    decreases k,
{
    if k == 0 {
        1
    } else {
        10 * pow10((k - 1) as nat)
    }
}

/// A number below `10^k` has at most `k` digits.
proof fn lemma_decimal_len(n: nat, k: nat)
    requires
        n < pow10(k),
    ensures
        1 <= decimal(n).len() <= if k == 0 { 1 } else { k },
    decreases n,
{
    if n >= 10 {
        assert(k >= 2) by {
            if k == 1 {
                assert(pow10(1) == 10 * pow10(0));
            } else if k == 0 {
            }
        }
        assert(n / 10 < pow10((k - 1) as nat)) by (nonlinear_arith)
            requires
                n < 10 * pow10((k - 1) as nat),
        {}
        lemma_decimal_len(n / 10, (k - 1) as nat);
    }
}

/// Every `usize` has at most twenty digits.
proof fn lemma_decimal_len_usize(n: usize)
    ensures
        1 <= decimal(n as nat).len() <= 20,
{
    reveal_with_fuel(pow10, 21);
    lemma_decimal_len(n as nat, 20);
}

/// Append the decimal digits of `n`.
fn push_decimal(out: &mut Vec<char>, n: usize)
    ensures
        final(out)@ == old(out)@ + decimal(n as nat),
    decreases n,
{
    if n >= 10 {
        push_decimal(out, n / 10);
    }
    let d: u8 = (n % 10) as u8;
    out.push((d + 48) as char);
}

/// Append `n` spaces.
fn push_spaces(out: &mut Vec<char>, n: usize)
    ensures
        final(out)@ == old(out)@ + spaces(n as nat),
{
    let mut k: usize = 0;
    while k < n
        invariant
            k <= n,
            out@ == old(out)@ + spaces(k as nat),
        decreases n - k,
    {
        out.push(' ');
        k += 1;
    }
}

/// Append `n` right-aligned in a field of `w` characters.
fn push_padded(out: &mut Vec<char>, n: usize, w: usize)
    ensures
        final(out)@ == old(out)@ + pad_left(decimal(n as nat), w as nat),
{
    let mut digits: Vec<char> = Vec::new();
    push_decimal(&mut digits, n);
    assert(digits@ =~= decimal(n as nat));
    if digits.len() < w {
        push_spaces(out, w - digits.len());
    }
    let ghost before = out@;
    let mut k: usize = 0;
    while k < digits.len()
        invariant
            k <= digits@.len(),
            out@ == before + digits@.take(k as int),
        decreases digits@.len() - k,
    {
        out.push(digits[k]);
        k += 1;
    }
    assert(digits@.take(digits@.len() as int) =~= digits@);
}

/// Number of decimal digits of `n`.
fn decimal_len(n: usize) -> (r: usize)
    ensures
        r == decimal(n as nat).len(),
        1 <= r <= 20,
{
    proof {
        lemma_decimal_len_usize(n);
    }
    let mut digits: Vec<char> = Vec::new();
    push_decimal(&mut digits, n);
    digits.len()
}

/// The character that shows the tile `t`.
fn glyph_of(t: Tile) -> (r: char)
    ensures
        r == glyph(t),
{
    match t {
        Tile::Hidden => '.',
        Tile::Flagged => '>',
        Tile::Blank => ' ',
        Tile::NeighborCount(n) => {
            let mut digits: Vec<char> = Vec::new();
            push_decimal(&mut digits, n as usize);
            proof {
                lemma_decimal_len_usize(n as usize);
            }
            digits[0]
        },
        Tile::MineRevealed => '*',
    }
}

/// Relies on std's `String: FromIterator<char>`: the string holds the
/// characters in the order given.
#[verifier::external_body]
fn string_of(chars: &Vec<char>) -> (r: String)
    ensures
        r@ == chars@,
{
    chars.iter().collect()
}

impl Board {
    /// The board as text, one line per row after a header line of column
    /// numbers.
    pub fn render(&self) -> (r: String)
        requires
            self.wf(),
        ensures
            r@ == board_text(self@),
    {
        let ghost s = self@;
        let rows = self.get_rows();
        let cols = self.get_cols();
        proof {
            if cols == 0 {
                assert(s.rows * s.cols == 0) by (nonlinear_arith)
                    requires
                        s.cols == 0,
                {}
            }
        }
        let rw = decimal_len(rows) + 1;
        let cw = decimal_len(cols) + 2;
        let mut out: Vec<char> = Vec::new();
        push_padded(&mut out, 1, rw + 1 + cw);
        out.push('|');
        let ghost first = out@;
        let mut c: usize = 1;
        while c < cols
            invariant
                1 <= c <= cols,
                cw == col_label_width(cols as nat),
                out@ == first + column_labels(c as nat, cw as nat),
            decreases cols - c,
        {
            push_padded(&mut out, c + 1, cw);
            out.push('|');
            c += 1;
        }
        out.push('\n');
        assert(out@ =~= header(s.rows, s.cols));
        let mut r: usize = 0;
        while r < rows
            invariant
                self.wf(),
                s == self@,
                rows == s.rows,
                cols == s.cols,
                rw == row_label_width(s.rows),
                cw == col_label_width(s.cols),
                r <= rows,
                out@ == header(s.rows, s.cols) + row_lines(s, r as nat),
            decreases rows - r,
        {
            let ghost line_start = out@;
            push_padded(&mut out, r + 1, rw);
            out.push('|');
            let ghost cells_start = out@;
            let mut c: usize = 0;
            while c < cols
                invariant
                    self.wf(),
                    s == self@,
                    rows == s.rows,
                    cols == s.cols,
                    cw == col_label_width(s.cols),
                    r < rows,
                    c <= cols,
                    out@ == cells_start + row_cells(s, r as nat, c as nat),
                decreases cols - c,
            {
                push_spaces(&mut out, cw);
                match self.tile_at((r, c)) {
                    Some(t) => out.push(glyph_of(t)),
                    None => {},
                }
                c += 1;
            }
            out.push('\n');
            assert(out@ =~= line_start + pad_left(decimal((r + 1) as nat), rw as nat) + seq!['|']
                + row_cells(s, r as nat, s.cols) + seq!['\n']);
            r += 1;
        }
        string_of(&out)
    }
}

} // verus!
