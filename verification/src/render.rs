//! The picture of a board in text: a line of column numbers, a border, one
//! line for each row, and the border again.

use vstd::prelude::*;
use crate::square::Square;
use crate::grid::Grid;
use crate::board::Board;
use crate::input::{all_digits, decimal, number};

verus! {

/// The character that stands for the occupant of a cell: `o` for black, `x`
/// for white, a space for none.
pub open spec fn glyph(s: Square) -> u8 {
    match s {
        Square::Black => 111,
        Square::White => 120,
        Square::Empty => 32,
    }
}

/// The number `n` in decimal digits, without leading zeros.
pub open spec fn decimal_text(n: nat) -> Seq<u8>
    decreases n,
{
    if n < 10 {
        seq![(48 + n) as u8]
    } else {
        decimal_text(n / 10).push((48 + n % 10) as u8)
    }
}

/// The numbers from 1 to `k`, a space before each.
pub open spec fn columns_text(k: int) -> Seq<u8>
    decreases k,
{
    if k <= 0 {
        Seq::empty()
    } else {
        columns_text(k - 1) + seq![32u8] + decimal_text(k as nat)
    }
}

/// The line above the board: a space, then the column numbers.
pub open spec fn header_text(n: int) -> Seq<u8> {
    seq![32u8] + columns_text(n) + seq![10u8]
}

/// `k` times the two characters `+-`.
pub open spec fn fence_text(k: int) -> Seq<u8>
    decreases k,
{
    if k <= 0 {
        Seq::empty()
    } else {
        fence_text(k - 1) + seq![43u8, 45u8]
    }
}

/// The border line of a board of `n` columns.
pub open spec fn border_text(n: int) -> Seq<u8> {
    seq![32u8] + fence_text(n) + seq![43u8, 10u8]
}

/// The first `k` cells of `row`, a bar after each.
pub open spec fn cells_text(row: Seq<Square>, k: int) -> Seq<u8>
    decreases k,
{
    if k <= 0 {
        Seq::empty()
    } else {
        cells_text(row, k - 1) + seq![glyph(row[k - 1]), 124u8]
    }
}

/// The line of the row at index `y`: its number, counted from one, a bar,
/// and its cells.
pub open spec fn row_text(row: Seq<Square>, y: int) -> Seq<u8> {
    decimal_text((y + 1) as nat) + seq![124u8] + cells_text(row, row.len() as int) + seq![10u8]
}

/// The lines of the first `k` rows of `g`.
pub open spec fn rows_text(g: Grid, k: int) -> Seq<u8>
    decreases k,
{
    if k <= 0 {
        Seq::empty()
    } else {
        rows_text(g, k - 1) + row_text(g.rows[k - 1], k - 1)
    }
}

/// The picture of `g`.
pub open spec fn picture(g: Grid) -> Seq<u8> {
    header_text(g.dim()) + border_text(g.dim()) + rows_text(g, g.dim()) + border_text(g.dim())
}

/// The number drawn beside a row or above a column is read back as that
/// number when it is entered as part of a move.
pub proof fn lemma_label_reads_back(n: nat)
    requires
        n <= isize::MAX,
    ensures
        number(decimal_text(n)) == Some(n as int),
{
    lemma_decimal_text(n);
}

/// The decimal digits of `n` are digits, at least one, and write `n`.
proof fn lemma_decimal_text(n: nat)
    ensures
        decimal_text(n).len() > 0,
        all_digits(decimal_text(n)),
        decimal(decimal_text(n)) == n,
    decreases n,
{
    let t = decimal_text(n);
    if n < 10 {
        assert(t.drop_last() =~= Seq::empty());
        assert(decimal(t.drop_last()) == 0);
    } else {
        lemma_decimal_text(n / 10);
        assert(t.drop_last() =~= decimal_text(n / 10));
    }
}

/// Appends `n` in decimal digits.
fn push_decimal(out: &mut Vec<u8>, n: usize)
    ensures
        final(out)@ == old(out)@ + decimal_text(n as nat),
    decreases n,
{
    if n >= 10 {
        push_decimal(out, n / 10);
    }
    out.push(48 + (n % 10) as u8);
    assert(out@ =~= old(out)@ + decimal_text(n as nat));
}

/// Appends the line of column numbers.
fn push_header(out: &mut Vec<u8>, n: usize)
    ensures
        final(out)@ == old(out)@ + header_text(n as int),
{
    out.push(32);
    assert(out@ =~= old(out)@ + seq![32u8] + columns_text(0));
    for k in 0..n
        invariant
            out@ == old(out)@ + seq![32u8] + columns_text(k as int),
    {
        out.push(32);
        push_decimal(out, k + 1);
        assert(out@ =~= old(out)@ + seq![32u8] + columns_text(k + 1));
    }
    out.push(10);
    assert(out@ =~= old(out)@ + header_text(n as int));
}

/// Appends a border line.
fn push_border(out: &mut Vec<u8>, n: usize)
    ensures
        final(out)@ == old(out)@ + border_text(n as int),
{
    out.push(32);
    assert(out@ =~= old(out)@ + seq![32u8] + fence_text(0));
    for k in 0..n
        invariant
            out@ == old(out)@ + seq![32u8] + fence_text(k as int),
    {
        out.push(43);
        out.push(45);
        assert(out@ =~= old(out)@ + seq![32u8] + fence_text(k + 1));
    }
    out.push(43);
    out.push(10);
    assert(out@ =~= old(out)@ + border_text(n as int));
}

fn glyph_of(s: Square) -> (g: u8)
    ensures
        g == glyph(s),
{
    match s {
        Square::Black => 111,
        Square::White => 120,
        Square::Empty => 32,
    }
}

impl Board {
    /// Appends the line of the row at index `y`.
    fn push_row(&self, out: &mut Vec<u8>, y: usize)
        requires
            self.wf(),
            y < self@.dim(),
        ensures
            final(out)@ == old(out)@ + row_text(self@.rows[y as int], y as int),
    {
        proof {
            self.lemma_view_wf();
        }
        let n = self.size();
        let ghost row = self@.rows[y as int];
        push_decimal(out, y + 1);
        out.push(124);
        let ghost start = out@;
        assert(out@ =~= start + cells_text(row, 0));
        for x in 0..n
            invariant
                self.wf(),
                n == self@.dim(),
                y < n <= isize::MAX,
                row == self@.rows[y as int],
                out@ == start + cells_text(row, x as int),
        {
            let s = self.get_at(&(y as isize, x as isize));
            out.push(glyph_of(s));
            out.push(124);
            assert(out@ =~= start + cells_text(row, x + 1));
        }
        out.push(10);
        assert(out@ =~= old(out)@ + row_text(row, y as int));
    }

    /// The picture of the board, in ASCII.
    pub fn render(&self) -> (text: Vec<u8>)
        requires
            self.wf(),
        ensures
            text@ == picture(self@),
    {
        let n = self.size();
        let mut out: Vec<u8> = Vec::new();
        push_header(&mut out, n);
        push_border(&mut out, n);
        let ghost start = out@;
        assert(out@ =~= start + rows_text(self@, 0));
        for y in 0..n
            invariant
                self.wf(),
                n == self@.dim(),
                start == header_text(n as int) + border_text(n as int),
                out@ == start + rows_text(self@, y as int),
        {
            self.push_row(&mut out, y);
            assert(out@ =~= start + rows_text(self@, y + 1));
        }
        push_border(&mut out, n);
        out
    }
}

} // verus!
