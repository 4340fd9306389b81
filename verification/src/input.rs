//! The text of a move: two integers, row then column, counted from one and
//! separated by blanks.

use vstd::prelude::*;
use vstd::string::StringSliceAdditionalSpecFns;
use crate::board::{cell, Pos};

verus! {

/// The blanks: the space and the five control characters from tab to
/// carriage return.
pub open spec fn is_space(b: u8) -> bool {
    b == 32 || 9 <= b <= 13
}

/// The ten decimal digits.
pub open spec fn is_digit(b: u8) -> bool {
    48 <= b <= 57
}

/// Where the run of blanks that begins at `i` ends, for `blank` true, or the
/// run of other bytes, for `blank` false.
pub open spec fn run_end(s: Seq<u8>, i: int, blank: bool) -> int
    decreases s.len() - i,
{
    if 0 <= i < s.len() && is_space(s[i]) == blank {
        run_end(s, i + 1, blank)
    } else {
        i
    }
}

/// Every byte of `t` is a digit.
pub open spec fn all_digits(t: Seq<u8>) -> bool {
    forall|i: int| 0 <= i < t.len() ==> is_digit(#[trigger] t[i])
}

/// The number that the digits `t` write in base ten.
pub open spec fn decimal(t: Seq<u8>) -> nat
    decreases t.len(),
{
    if t.len() == 0 {
        0
    } else {
        10 * decimal(t.drop_last()) + (t.last() - 48) as nat
    }
}

/// The digits of the word `t`: all of it but a leading sign.
pub open spec fn digits_of(t: Seq<u8>) -> Seq<u8> {
    if t.len() > 0 && (t[0] == 43 || t[0] == 45) {
        t.skip(1)
    } else {
        t
    }
}

/// The integer that the word `t` writes: an optional `+` or `-`, then one
/// digit or more, of a magnitude no greater than `isize::MAX`.
pub open spec fn number(t: Seq<u8>) -> Option<int> {
    let digits = digits_of(t);
    if digits.len() > 0 && all_digits(digits) && decimal(digits) <= isize::MAX {
        Some(
            if t[0] == 45 {
                -(decimal(digits) as int)
            } else {
                decimal(digits) as int
            },
        )
    } else {
        None
    }
}

/// The position that the line `s` asks for: its first two words are
/// integers, the row and the column counted from one; what follows them is
/// not looked at.
pub open spec fn parse_line(s: Seq<u8>) -> Option<(int, int)> {
    let a = run_end(s, 0, true);
    let b = run_end(s, a, false);
    let c = run_end(s, b, true);
    let d = run_end(s, c, false);
    match (number(s.subrange(a, b)), number(s.subrange(c, d))) {
        (Some(row), Some(col)) => Some((row - 1, col - 1)),
        _ => None,
    }
}

/// The digits read so far never write more than all of them do.
proof fn lemma_decimal_prefix(t: Seq<u8>, k: int)
    requires
        0 <= k <= t.len(),
    ensures
        decimal(t.take(k)) <= decimal(t),
    decreases t.len(),
{
    if k == t.len() {
        assert(t.take(k) =~= t);
    } else {
        lemma_decimal_prefix(t.drop_last(), k);
        assert(t.drop_last().take(k) =~= t.take(k));
    }
}

fn is_space_byte(b: u8) -> (r: bool)
    ensures
        r == is_space(b),
{
    b == 32 || (9 <= b && b <= 13)
}

/// The end of the run of blanks, or of other bytes, that begins at `from`.
fn skip_run(bytes: &[u8], from: usize, blank: bool) -> (end: usize)
    requires
        from <= bytes@.len(),
    ensures
        end == run_end(bytes@, from as int, blank),
        from <= end <= bytes@.len(),
{
    let mut i = from;
    while i < bytes.len() && is_space_byte(bytes[i]) == blank
        invariant
            from <= i <= bytes@.len(),
            run_end(bytes@, i as int, blank) == run_end(bytes@, from as int, blank),
        decreases bytes@.len() - i,
    {
        i += 1;
    }
    i
}

/// The integer that the word from `from` to `to` writes, if it writes one.
fn parse_number(bytes: &[u8], from: usize, to: usize) -> (r: Option<isize>)
    requires
        from <= to <= bytes@.len(),
    ensures
        match r {
            Some(v) => number(bytes@.subrange(from as int, to as int)) == Some(v as int),
            None => number(bytes@.subrange(from as int, to as int)).is_none(),
        },
{
    let ghost word = bytes@.subrange(from as int, to as int);
    if from == to {
        return None;
    }
    let first = bytes[from];
    assert(first == word[0]);
    let negative = first == 45;
    let start = if first == 43 || first == 45 {
        from + 1
    } else {
        from
    };
    let ghost digits = bytes@.subrange(start as int, to as int);
    assert(digits =~= digits_of(word));
    let mut acc: isize = 0;
    let mut i = start;
    assert(bytes@.subrange(start as int, i as int) =~= Seq::empty());
    while i < to
        invariant
            start <= i <= to <= bytes@.len(),
            digits == bytes@.subrange(start as int, to as int),
            digits == digits_of(bytes@.subrange(from as int, to as int)),
            all_digits(bytes@.subrange(start as int, i as int)),
            acc == decimal(bytes@.subrange(start as int, i as int)),
            0 <= acc <= isize::MAX,
        decreases to - i,
    {
        let b = bytes[i];
        if b < 48 || b > 57 {
            assert(digits[i - start] == b);
            return None;
        }
        let v = (b - 48) as isize;
        let ghost read = bytes@.subrange(start as int, i + 1);
        proof {
            assert(read.drop_last() =~= bytes@.subrange(start as int, i as int));
            assert(read.last() == b);
            assert(read =~= digits.take(i + 1 - start));
            lemma_decimal_prefix(digits, i + 1 - start);
        }
        if acc > (isize::MAX - v) / 10 {
            return None;
        }
        acc = acc * 10 + v;
        i += 1;
    }
    assert(bytes@.subrange(start as int, i as int) =~= digits);
    if start == to {
        return None;
    }
    Some(if negative { -acc } else { acc })
}

/// Reads a move from a line of text.
pub fn parse_pos(line: &str) -> (r: Option<Pos>)
    ensures
        match r {
            Some(pos) => parse_line(line.spec_bytes()) == Some(cell(pos)),
            None => parse_line(line.spec_bytes()).is_none(),
        },
{
    let bytes = line.as_bytes();
    let a = skip_run(bytes, 0, true);
    let b = skip_run(bytes, a, false);
    let c = skip_run(bytes, b, true);
    let d = skip_run(bytes, c, false);
    match parse_number(bytes, a, b) {
        None => None,
        Some(row) => match parse_number(bytes, c, d) {
            None => None,
            Some(col) => Some((row - 1, col - 1)),
        },
    }
}

} // verus!
