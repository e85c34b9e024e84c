//! What a spreading reveal opens, stated over the record of squares it
//! leaves in the history, and the facts its proof rests on.
use vstd::prelude::*;
use crate::board::{Board, Position, Square, dir_dx, dir_dy, is_at, same_opt};
use crate::game::{Game, only_squares_change};
use crate::score::{SquareClass, count_row, count_rows, count_squares, in_class};

verus! {

/// The closed squares of the board.
pub open spec fn closed_count(g: Game) -> nat {
    count_squares(g.spec_board(), SquareClass::ClosedMine) + count_squares(g.spec_board(), SquareClass::ClosedSafe)
}

/// `b` is `a` with the square at `(x, y)` opened.
pub open spec fn opened_one(a: Board, b: Board, x: int, y: int) -> bool {
    &&& a.width() == b.width()
    &&& a.height() == b.height()
    &&& a.in_bounds(x, y)
    &&& b.cell(x, y) == (Square { is_open: true, ..a.cell(x, y) })
    &&& forall|i: int, j: int| #![trigger b.cell(i, j)] a.in_bounds(i, j) && !(i == x && j == y) ==> b.cell(i, j) == a.cell(i, j)
}

proof fn lemma_row_count_open(a: Board, b: Board, c: SquareClass, x: int, y: int, j: int, n: int)
    requires
        opened_one(a, b, x, y),
        0 <= j < a.height(),
        0 <= n <= a.width(),
        c is ClosedMine || c is ClosedSafe,
    ensures
        count_row(b, c, j, n) + (if j == y && x < n && in_class(a.cell(x, y), c) {
            1nat
        } else {
            0nat
        }) == count_row(a, c, j, n),
    decreases n,
{
    if n > 0 {
        lemma_row_count_open(a, b, c, x, y, j, n - 1);
        if !(n - 1 == x && j == y) {
            assert(b.cell(n - 1, j) == a.cell(n - 1, j));
        }
    }
}

proof fn lemma_rows_count_open(a: Board, b: Board, c: SquareClass, x: int, y: int, m: int)
    requires
        opened_one(a, b, x, y),
        0 <= m <= a.height(),
        c is ClosedMine || c is ClosedSafe,
    ensures
        count_rows(b, c, m) + (if y < m && in_class(a.cell(x, y), c) {
            1nat
        } else {
            0nat
        }) == count_rows(a, c, m),
    decreases m,
{
    if m > 0 {
        lemma_rows_count_open(a, b, c, x, y, m - 1);
        lemma_row_count_open(a, b, c, x, y, m - 1, a.width() as int);
    }
}

/// Opening a closed square leaves one closed square fewer.
pub(crate) proof fn lemma_closed_count_open(g: Game, h: Game, x: int, y: int)
    requires
        opened_one(g.spec_board(), h.spec_board(), x, y),
        !g.cell(x, y).is_open,
    ensures
        closed_count(h) + 1 == closed_count(g),
{
    let a = g.spec_board();
    let b = h.spec_board();
    lemma_rows_count_open(a, b, SquareClass::ClosedMine, x, y, a.height() as int);
    lemma_rows_count_open(a, b, SquareClass::ClosedSafe, x, y, a.height() as int);
}


/// A square that a spreading reveal may open: closed, unflagged, no mine.
pub open spec fn eligible(s: Square) -> bool {
    !s.is_mine && !s.is_open && !s.is_flag
}

/// Whether `(x1, y1)` is one step right, left, up or down from `(x0, y0)`.
pub open spec fn orth_adjacent(x0: int, y0: int, x1: int, y1: int) -> bool {
    (y0 == y1 && (x1 == x0 + 1 || x1 == x0 - 1)) || (x0 == x1 && (y1 == y0 + 1 || y1 == y0 - 1))
}

/// Whether a square of `snap` sits at `(x, y)`.
pub open spec fn listed(snap: Seq<Square>, x: int, y: int) -> bool {
    exists|k: int| 0 <= k < snap.len() && is_at(#[trigger] snap[k], x, y)
}

/// The neighbour of `(x, y)` in direction `d`, if it was eligible in `g0`,
/// is listed in `snap`.
pub open spec fn spread_dir(g0: Game, snap: Seq<Square>, x: int, y: int, d: int) -> bool {
    g0.in_bounds(x + dir_dx(d), y + dir_dy(d)) && eligible(g0.cell(x + dir_dx(d), y + dir_dy(d))) ==> listed(
        snap,
        x + dir_dx(d),
        y + dir_dy(d),
    )
}

/// Entry `k` of `snap` has spread: if its number is 0, each of its four
/// orthogonal neighbours that was eligible in `g0` is listed too.
pub open spec fn spreads_from(g0: Game, snap: Seq<Square>, k: int) -> bool {
    snap[k].number == 0 ==> forall|d: int|
        0 <= d < 4 ==> #[trigger] spread_dir(g0, snap, snap[k].pos.x as int, snap[k].pos.y as int, d)
}

/// `snap` records a reveal that started at `(x, y)` of `g0`: the first
/// entry is that square, each entry is the earlier state of a distinct
/// square, and each later entry was eligible and is an orthogonal
/// neighbour of an earlier entry whose number is 0.
pub open spec fn reveal_record(g0: Game, snap: Seq<Square>, x: int, y: int) -> bool {
    &&& g0.in_bounds(x, y)
    &&& snap.len() > 0
    &&& snap[0] == g0.cell(x, y)
    &&& forall|k: int|
        #![trigger snap[k]]
        0 <= k < snap.len() ==> g0.in_bounds(snap[k].pos.x as int, snap[k].pos.y as int) && snap[k] == g0.cell(
            snap[k].pos.x as int,
            snap[k].pos.y as int,
        )
    &&& forall|k: int| 1 <= k < snap.len() ==> eligible(#[trigger] snap[k])
    &&& forall|k: int|
        #![trigger snap[k]]
        1 <= k < snap.len() ==> exists|j: int|
            0 <= j < k && (#[trigger] snap[j]).number == 0 && orth_adjacent(
                snap[j].pos.x as int,
                snap[j].pos.y as int,
                snap[k].pos.x as int,
                snap[k].pos.y as int,
            )
    &&& forall|j: int, k: int| 0 <= j < k < snap.len() ==> (#[trigger] snap[j]).pos != (#[trigger] snap[k]).pos
}

/// Every entry of `snap` has spread.
pub open spec fn reveal_closed(g0: Game, snap: Seq<Square>) -> bool {
    forall|k: int| 0 <= k < snap.len() ==> #[trigger] spreads_from(g0, snap, k)
}

/// `g` is `g0` with exactly the squares of `snap` opened.
pub open spec fn opened_listed(g0: Game, g: Game, snap: Seq<Square>) -> bool {
    &&& only_squares_change(g0, g)
    &&& forall|i: int, j: int|
        #![trigger g.cell(i, j)]
        g0.in_bounds(i, j) ==> g.cell(i, j) == (if listed(snap, i, j) {
            Square { is_open: true, ..g0.cell(i, j) }
        } else {
            g0.cell(i, j)
        })
}

/// The state of a reveal from `(x, y)` while it spreads.
pub open spec fn walk_inv(g0: Game, g: Game, snap: Seq<Square>, x: int, y: int) -> bool {
    &&& g0.wf()
    &&& g.wf()
    &&& g.history() == g0.history()
    &&& reveal_record(g0, snap, x, y)
    &&& opened_listed(g0, g, snap)
}

/// Every coordinate on the stack is that of an entry whose number is 0.
pub open spec fn stack_ok(snap: Seq<Square>, stack: Seq<(usize, usize)>) -> bool {
    forall|i: int|
        0 <= i < stack.len() ==> exists|k: int|
            0 <= k < snap.len() && is_at(#[trigger] snap[k], (#[trigger] stack[i]).0 as int, stack[i].1 as int) && snap[k].number
                == 0
}

pub open spec fn on_stack(stack: Seq<(usize, usize)>, p: Position) -> bool {
    exists|i: int| 0 <= i < stack.len() && (#[trigger] stack[i]).0 == p.x && stack[i].1 == p.y
}

/// Each entry has spread or waits on the stack.
pub open spec fn pending_ok(g0: Game, snap: Seq<Square>, stack: Seq<(usize, usize)>) -> bool {
    forall|k: int| 0 <= k < snap.len() ==> #[trigger] spreads_from(g0, snap, k) || on_stack(stack, snap[k].pos)
}

/// What `open` does: nothing on an open or flagged square; otherwise the
/// squares of one new history entry are opened, and that entry is a closed
/// record of a reveal from the cursor (see `reveal_record`).
pub open spec fn open_post(g0: Game, g1: Game) -> bool {
    let (cx, cy) = (g0.spec_cursor().0 as int, g0.spec_cursor().1 as int);
    let c = g0.cell(cx, cy);
    &&& only_squares_change(g0, g1)
    &&& (c.is_open || c.is_flag) ==> g1.history() == g0.history() && g1.spec_board().same_squares(g0.spec_board())
    &&& !(c.is_open || c.is_flag) ==> {
        let snap = g1.history().last();
        &&& g1.history().len() == g0.history().len() + 1
        &&& g1.history().drop_last() == g0.history()
        &&& reveal_record(g0, snap, cx, cy)
        &&& reveal_closed(g0, snap)
        &&& opened_listed(g0, g1, snap)
    }
}

/// A listed coordinate stays listed when the record grows.
pub(crate) proof fn lemma_listed_grows(a: Seq<Square>, b: Seq<Square>, x: int, y: int)
    requires
        a.len() <= b.len(),
        b.subrange(0, a.len() as int) == a,
        listed(a, x, y),
    ensures
        listed(b, x, y),
{
    let k = choose|k: int| 0 <= k < a.len() && is_at(#[trigger] a[k], x, y);
    assert(b[k] == b.subrange(0, a.len() as int)[k]);
}

pub(crate) proof fn lemma_spreads_grows(g0: Game, a: Seq<Square>, b: Seq<Square>, k: int)
    requires
        a.len() <= b.len(),
        b.subrange(0, a.len() as int) == a,
        0 <= k < a.len(),
        spreads_from(g0, a, k),
    ensures
        spreads_from(g0, b, k),
{
    assert(b[k] == b.subrange(0, a.len() as int)[k]);
    if b[k].number == 0 {
        assert forall|d: int| 0 <= d < 4 implies #[trigger] spread_dir(g0, b, b[k].pos.x as int, b[k].pos.y as int, d) by {
            assert(spread_dir(g0, a, a[k].pos.x as int, a[k].pos.y as int, d));
            let nx = b[k].pos.x + dir_dx(d);
            let ny = b[k].pos.y + dir_dy(d);
            if g0.in_bounds(nx, ny) && eligible(g0.cell(nx, ny)) {
                lemma_listed_grows(a, b, nx, ny);
            }
        }
    }
}


/// Each entry but `j0` has spread or waits on the stack.
pub open spec fn pending_except(g0: Game, snap: Seq<Square>, stack: Seq<(usize, usize)>, j0: int) -> bool {
    forall|k: int| 0 <= k < snap.len() ==> k == j0 || #[trigger] spreads_from(g0, snap, k) || on_stack(stack, snap[k].pos)
}

// The coordinate of an optional square.
pub(crate) fn pos_of(r: Option<&Square>) -> (p: Option<(usize, usize)>)
    ensures
        match r {
            Some(s) => p == Some((s.pos.x, s.pos.y)),
            None => p is None,
        },
{
    match r {
        Some(s) => Some(s.get_pos()),
        None => None,
    }
}

/// What `pos_of` gives for the neighbour of `(x, y)` in direction `d`.
pub(crate) proof fn lemma_neighbor_pos(g: Game, x: int, y: int, d: int, p: Option<(usize, usize)>, r: Option<&Square>)
    requires
        g.wf(),
        0 <= d < 4,
        same_opt(r, g.spec_board().square_at(x + dir_dx(d), y + dir_dy(d))),
        match r {
            Some(s) => p == Some((s.pos.x, s.pos.y)),
            None => p is None,
        },
    ensures
        p matches Some(q) ==> q.0 == x + dir_dx(d) && q.1 == y + dir_dy(d) && g.in_bounds(q.0 as int, q.1 as int)
            && orth_adjacent(x, y, q.0 as int, q.1 as int),
        p is None ==> !g.in_bounds(x + dir_dx(d), y + dir_dy(d)),
{
    if g.in_bounds(x + dir_dx(d), y + dir_dy(d)) {
        assert(is_at(g.spec_board().cell(x + dir_dx(d), y + dir_dy(d)), x + dir_dx(d), y + dir_dy(d)));
    }
}

} // verus!
