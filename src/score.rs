//! The score: counts of squares by state, and the score line.
use vstd::prelude::*;
use vstd::string::*;
use crate::board::{Board, Square};

verus! {

/// Counts of squares by state, as the score line shows them.
pub struct Score {
    pub number_of_flags: usize,
    pub number_of_unopened_mines: usize,
    pub number_of_unopened_squares: usize,
    pub number_of_opened_mines: usize,
    pub number_of_opened_squares: usize,
}


/// The decimal digit `d`.
pub open spec fn digit_text(d: nat) -> Seq<char> {
    if d == 0 {
        "0"@
    } else if d == 1 {
        "1"@
    } else if d == 2 {
        "2"@
    } else if d == 3 {
        "3"@
    } else if d == 4 {
        "4"@
    } else if d == 5 {
        "5"@
    } else if d == 6 {
        "6"@
    } else if d == 7 {
        "7"@
    } else if d == 8 {
        "8"@
    } else {
        "9"@
    }
}

/// `n` in decimal, without leading zeros.
pub open spec fn decimal(n: nat) -> Seq<char>
    decreases n,
{
    if n < 10 {
        digit_text(n)
    } else {
        decimal(n / 10) + digit_text(n % 10)
    }
}

/// `n` in decimal with a minus sign when negative.
pub open spec fn signed_decimal(n: int) -> Seq<char> {
    if n >= 0 {
        decimal(n as nat)
    } else {
        "-"@ + decimal((-n) as nat)
    }
}

/// The score line: closed safe squares, closed mines, flags, open mines,
/// and closed mines less flags.
pub open spec fn score_text(s: Score) -> Seq<char> {
    "[] "@ + decimal(s.number_of_unopened_squares as nat) + "  |  [\x1b[91m<>\x1b[0m] "@ + decimal(
        s.number_of_unopened_mines as nat,
    ) + "  |  \x1b[93m/>\x1b[0m "@ + decimal(s.number_of_flags as nat) + "  |  \x1b[91m<>\x1b[0m "@ + decimal(
        s.number_of_opened_mines as nat,
    ) + "  |  [\x1b[91m<>\x1b[0m] - \x1b[93m/>\x1b[0m = "@ + signed_decimal(
        s.number_of_unopened_mines - s.number_of_flags,
    )
}

fn digit_str(d: usize) -> (r: &'static str)
    requires
        d < 10,
    ensures
        r@ == digit_text(d as nat),
{
    match d {
        0 => "0",
        1 => "1",
        2 => "2",
        3 => "3",
        4 => "4",
        5 => "5",
        6 => "6",
        7 => "7",
        8 => "8",
        _ => "9",
    }
}

fn push_decimal(out: &mut String, n: usize)
    ensures
        final(out)@ == old(out)@ + decimal(n as nat),
    decreases n,
{
    if n >= 10 {
        push_decimal(out, n / 10);
    }
    out.append(digit_str(n % 10));
    proof {
        if n >= 10 {
            assert(final(out)@ =~= old(out)@ + decimal(n as nat));
        }
    }
}

impl Score {
    /// The score line; see `score_text`.
    pub fn to_string(&self) -> (r: String)
        ensures
            r@ == score_text(*self),
    {
        let mut out = String::new();
        out.append("[] ");
        push_decimal(&mut out, self.number_of_unopened_squares);
        out.append("  |  [\x1b[91m<>\x1b[0m] ");
        push_decimal(&mut out, self.number_of_unopened_mines);
        out.append("  |  \x1b[93m/>\x1b[0m ");
        push_decimal(&mut out, self.number_of_flags);
        out.append("  |  \x1b[91m<>\x1b[0m ");
        push_decimal(&mut out, self.number_of_opened_mines);
        out.append("  |  [\x1b[91m<>\x1b[0m] - \x1b[93m/>\x1b[0m = ");
        if self.number_of_unopened_mines >= self.number_of_flags {
            push_decimal(&mut out, self.number_of_unopened_mines - self.number_of_flags);
        } else {
            out.append("-");
            push_decimal(&mut out, self.number_of_flags - self.number_of_unopened_mines);
        }
        proof {
            assert(out@ =~= score_text(*self));
        }
        out
    }
}

/// The five classes of square that the score counts; a flag is counted
/// only on a closed square.
pub enum SquareClass {
    Flag,
    ClosedMine,
    ClosedSafe,
    OpenMine,
    OpenSafe,
}

pub open spec fn in_class(s: Square, c: SquareClass) -> bool {
    match c {
        SquareClass::Flag => !s.is_open && s.is_flag,
        SquareClass::ClosedMine => !s.is_open && s.is_mine,
        SquareClass::ClosedSafe => !s.is_open && !s.is_mine,
        SquareClass::OpenMine => s.is_open && s.is_mine,
        SquareClass::OpenSafe => s.is_open && !s.is_mine,
    }
}

/// How many of the first `n` squares of row `y` are in class `c`.
pub open spec fn count_row(b: Board, c: SquareClass, y: int, n: int) -> nat
    decreases n,
{
    if n <= 0 {
        0
    } else {
        count_row(b, c, y, n - 1) + if in_class(b.cell(n - 1, y), c) {
            1nat
        } else {
            0nat
        }
    }
}

/// How many squares of the first `m` rows are in class `c`.
pub open spec fn count_rows(b: Board, c: SquareClass, m: int) -> nat
    decreases m,
{
    if m <= 0 {
        0
    } else {
        count_rows(b, c, m - 1) + count_row(b, c, m - 1, b.width() as int)
    }
}

/// How many squares of the board are in class `c`.
pub open spec fn count_squares(b: Board, c: SquareClass) -> nat {
    count_rows(b, c, b.height() as int)
}

proof fn lemma_count_row_le(b: Board, c: SquareClass, y: int, n: int)
    requires
        0 <= n,
    ensures
        count_row(b, c, y, n) <= n,
    decreases n,
{
    if n > 0 {
        lemma_count_row_le(b, c, y, n - 1);
    }
}

proof fn lemma_count_rows_le(b: Board, c: SquareClass, m: int)
    requires
        0 <= m,
    ensures
        count_rows(b, c, m) <= m * b.width(),
    decreases m,
{
    if m > 0 {
        lemma_count_rows_le(b, c, m - 1);
        lemma_count_row_le(b, c, m - 1, b.width() as int);
        assert((m - 1) * b.width() + b.width() == m * b.width()) by (nonlinear_arith);
    }
}

/// Room for one more count at square `(x, y)` of a well-formed board.
pub(crate) proof fn lemma_count_bound(b: Board, c: SquareClass, y: int, x: int)
    requires
        b.wf(),
        0 <= y < b.height(),
        0 <= x < b.width(),
    ensures
        count_rows(b, c, y) + count_row(b, c, y, x) + 1 <= usize::MAX,
{
    lemma_count_rows_le(b, c, y);
    lemma_count_row_le(b, c, y, x);
    let w = b.width() as int;
    let h = b.height() as int;
    assert(y * w + x + 1 <= h * w) by (nonlinear_arith)
        requires
            0 <= y < h,
            0 <= x < w,
    ;
    assert(w * h == h * w) by (nonlinear_arith);
}

} // verus!
