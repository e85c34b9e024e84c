//! Properties that relate several operations of the game.
use vstd::prelude::*;
use crate::board::{Board, Square, dir_dx, dir_dy, is_at, restored};
use crate::game::{
    Game, adjacent_mines, on_border, open_all_post, placed_at, set_mines_post, toggle_flag_post, undo_post,
};
use crate::flood::{listed, open_post, orth_adjacent, reveal_closed, reveal_record, spread_dir, spreads_from};
use crate::score::{SquareClass, count_row, count_rows, count_squares};

verus! {

/// Writing back a snapshot with no square at `(x, y)` leaves that square.
proof fn lemma_restored_unlisted(snap: Seq<Square>, cur: Square, x: int, y: int)
    requires
        !listed(snap, x, y),
    ensures
        restored(snap, cur, x, y) == cur,
    decreases snap.len(),
{
    if snap.len() > 0 {
        assert(!is_at(snap[snap.len() - 1], x, y));
        assert forall|k: int| 0 <= k < snap.drop_last().len() implies !is_at(#[trigger] snap.drop_last()[k], x, y) by {
            assert(snap.drop_last()[k] == snap[k]);
        }
        lemma_restored_unlisted(snap.drop_last(), cur, x, y);
    }
}

/// Writing back a snapshot whose squares at `(x, y)` all equal `v` gives `v`.
proof fn lemma_restored_listed(snap: Seq<Square>, cur: Square, x: int, y: int, v: Square)
    requires
        listed(snap, x, y),
        forall|k: int| 0 <= k < snap.len() && is_at(#[trigger] snap[k], x, y) ==> snap[k] == v,
    ensures
        restored(snap, cur, x, y) == v,
    decreases snap.len(),
{
    if !is_at(snap.last(), x, y) {
        let rest = snap.drop_last();
        let k = choose|k: int| 0 <= k < snap.len() && is_at(#[trigger] snap[k], x, y);
        assert(rest[k] == snap[k]);
        assert forall|j: int| 0 <= j < rest.len() && is_at(#[trigger] rest[j], x, y) implies rest[j] == v by {
            assert(rest[j] == snap[j]);
        }
        lemma_restored_listed(rest, cur, x, y, v);
    }
}

/// Opening a closed, unflagged square and then undoing once gives back
/// every square of the board as it was, however far the reveal spread,
/// and the history as it was.
pub proof fn lemma_open_then_undo(g0: Game, g1: Game, g2: Game)
    requires
        g0.wf(),
        !g0.cell(g0.spec_cursor().0 as int, g0.spec_cursor().1 as int).is_open,
        !g0.cell(g0.spec_cursor().0 as int, g0.spec_cursor().1 as int).is_flag,
        open_post(g0, g1),
        undo_post(g1, g2),
    ensures
        g2.spec_board().same_squares(g0.spec_board()),
        g2.history() == g0.history(),
{
    let snap = g1.history().last();
    let (cx, cy) = (g0.spec_cursor().0 as int, g0.spec_cursor().1 as int);
    assert(reveal_record(g0, snap, cx, cy));
    assert forall|x: int, y: int| g2.spec_board().in_bounds(x, y) implies #[trigger] g2.spec_board().cell(x, y)
        == g0.spec_board().cell(x, y) by {
        assert(g2.cell(x, y) == restored(snap, g1.cell(x, y), x, y));
        if listed(snap, x, y) {
            assert forall|k: int| 0 <= k < snap.len() && is_at(#[trigger] snap[k], x, y) implies snap[k] == g0.cell(x, y) by {
                assert(snap[k] == g0.cell(snap[k].pos.x as int, snap[k].pos.y as int));
            }
            lemma_restored_listed(snap, g1.cell(x, y), x, y, g0.cell(x, y));
        } else {
            lemma_restored_unlisted(snap, g1.cell(x, y), x, y);
        }
    }
}

/// Toggling the flag of a closed square and then undoing once gives back
/// every square as it was, and the history as it was.
pub proof fn lemma_toggle_then_undo(g0: Game, g1: Game, g2: Game)
    requires
        g0.wf(),
        !g0.cell(g0.spec_cursor().0 as int, g0.spec_cursor().1 as int).is_open,
        toggle_flag_post(g0, g1),
        undo_post(g1, g2),
    ensures
        g2.spec_board().same_squares(g0.spec_board()),
        g2.history() == g0.history(),
{
    let (cx, cy) = (g0.spec_cursor().0 as int, g0.spec_cursor().1 as int);
    let c = g0.cell(cx, cy);
    let snap = seq![c];
    assert(g1.history().last() == snap);
    assert(g1.history().drop_last() =~= g0.history());
    assert(is_at(g0.spec_board().cell(cx, cy), cx, cy));
    assert forall|x: int, y: int| g2.spec_board().in_bounds(x, y) implies #[trigger] g2.spec_board().cell(x, y)
        == g0.spec_board().cell(x, y) by {
        assert(g2.cell(x, y) == restored(snap, g1.cell(x, y), x, y));
        assert(snap.drop_last() =~= Seq::<Square>::empty());
        assert(snap.last() == c);
        if x == cx && y == cy {
            assert(is_at(c, x, y));
            assert(restored(snap, g1.cell(x, y), x, y) == c);
        } else {
            assert(!is_at(c, x, y));
            assert(restored(snap, g1.cell(x, y), x, y) == restored(snap.drop_last(), g1.cell(x, y), x, y));
            assert(g1.cell(x, y) == g0.cell(x, y));
        }
    }
}

/// Entry `k` of a reveal record `a` is listed in every closed record `b`
/// of a reveal from the same square.
proof fn lemma_entry_within(g0: Game, a: Seq<Square>, b: Seq<Square>, x: int, y: int, k: int)
    requires
        g0.wf(),
        reveal_record(g0, a, x, y),
        reveal_record(g0, b, x, y),
        reveal_closed(g0, b),
        0 <= k < a.len(),
    ensures
        listed(b, a[k].pos.x as int, a[k].pos.y as int),
    decreases k,
{
    assert(g0.in_bounds(a[k].pos.x as int, a[k].pos.y as int) && a[k] == g0.cell(a[k].pos.x as int, a[k].pos.y as int));
    if k == 0 {
        assert(is_at(g0.spec_board().cell(x, y), x, y));
        assert(is_at(b[0], x, y));
    } else {
        let j = choose|j: int|
            0 <= j < k && (#[trigger] a[j]).number == 0 && orth_adjacent(
                a[j].pos.x as int,
                a[j].pos.y as int,
                a[k].pos.x as int,
                a[k].pos.y as int,
            );
        lemma_entry_within(g0, a, b, x, y, j);
        let px = a[j].pos.x as int;
        let py = a[j].pos.y as int;
        let qx = a[k].pos.x as int;
        let qy = a[k].pos.y as int;
        assert(a[j] == g0.cell(px, py));
        let m = choose|m: int| 0 <= m < b.len() && is_at(#[trigger] b[m], px, py);
        assert(b[m] == g0.cell(b[m].pos.x as int, b[m].pos.y as int));
        assert(spreads_from(g0, b, m));
        let d: int = if qy == py && qx == px + 1 {
            0
        } else if qy == py && qx == px - 1 {
            1
        } else if qx == px && qy == py - 1 {
            2
        } else {
            3
        };
        assert(spread_dir(g0, b, px, py, d));
    }
}

/// Two records that both meet the contract of `open` from the same square
/// list the same squares: the contract fixes the opened region, which is
/// the zero-numbered region connected to the start together with its
/// eligible orthogonal neighbours.
pub proof fn lemma_reveal_region_unique(g0: Game, a: Seq<Square>, b: Seq<Square>, x: int, y: int)
    requires
        g0.wf(),
        reveal_record(g0, a, x, y),
        reveal_closed(g0, a),
        reveal_record(g0, b, x, y),
        reveal_closed(g0, b),
    ensures
        forall|i: int, j: int| listed(a, i, j) <==> listed(b, i, j),
{
    assert forall|i: int, j: int| listed(a, i, j) <==> listed(b, i, j) by {
        if listed(a, i, j) {
            let k = choose|k: int| 0 <= k < a.len() && is_at(#[trigger] a[k], i, j);
            lemma_entry_within(g0, a, b, x, y, k);
        }
        if listed(b, i, j) {
            let k = choose|k: int| 0 <= k < b.len() && is_at(#[trigger] b[k], i, j);
            lemma_entry_within(g0, b, a, x, y, k);
        }
    }
}

proof fn lemma_open_all_row(b0: Board, b1: Board, y: int, n: int)
    requires
        0 <= n,
        forall|x: int|
            #![trigger b1.cell(x, y)]
            0 <= x < n ==> b1.cell(x, y) == (Square { is_open: true, ..b0.cell(x, y) }),
    ensures
        count_row(b1, SquareClass::OpenMine, y, n) == count_row(b0, SquareClass::OpenMine, y, n) + count_row(
            b0,
            SquareClass::ClosedMine,
            y,
            n,
        ),
        count_row(b1, SquareClass::OpenSafe, y, n) == count_row(b0, SquareClass::OpenSafe, y, n) + count_row(
            b0,
            SquareClass::ClosedSafe,
            y,
            n,
        ),
        count_row(b1, SquareClass::ClosedMine, y, n) == 0,
        count_row(b1, SquareClass::ClosedSafe, y, n) == 0,
        count_row(b1, SquareClass::Flag, y, n) == 0,
    decreases n,
{
    if n > 0 {
        lemma_open_all_row(b0, b1, y, n - 1);
        assert(b1.cell(n - 1, y) == Square { is_open: true, ..b0.cell(n - 1, y) });
    }
}

proof fn lemma_open_all_rows(b0: Board, b1: Board, m: int)
    requires
        0 <= m <= b0.height(),
        b1.width() == b0.width(),
        forall|x: int, y: int|
            #![trigger b1.cell(x, y)]
            b0.in_bounds(x, y) ==> b1.cell(x, y) == (Square { is_open: true, ..b0.cell(x, y) }),
    ensures
        count_rows(b1, SquareClass::OpenMine, m) == count_rows(b0, SquareClass::OpenMine, m) + count_rows(
            b0,
            SquareClass::ClosedMine,
            m,
        ),
        count_rows(b1, SquareClass::OpenSafe, m) == count_rows(b0, SquareClass::OpenSafe, m) + count_rows(
            b0,
            SquareClass::ClosedSafe,
            m,
        ),
        count_rows(b1, SquareClass::ClosedMine, m) == 0,
        count_rows(b1, SquareClass::ClosedSafe, m) == 0,
        count_rows(b1, SquareClass::Flag, m) == 0,
    decreases m,
{
    if m > 0 {
        lemma_open_all_rows(b0, b1, m - 1);
        assert forall|x: int| #![trigger b1.cell(x, m - 1)] 0 <= x < b0.width() implies b1.cell(x, m - 1) == (Square {
            is_open: true,
            ..b0.cell(x, m - 1)
        }) by {
            assert(b0.in_bounds(x, m - 1));
        }
        lemma_open_all_row(b0, b1, m - 1, b0.width() as int);
    }
}

/// After opening every square, the open mines are all the mines there were,
/// the open safe squares all the safe squares there were, and nothing is
/// left closed or flagged on a closed square.
pub proof fn lemma_open_all_score(g0: Game, g1: Game)
    requires
        g0.wf(),
        open_all_post(g0, g1),
    ensures
        count_squares(g1.spec_board(), SquareClass::OpenMine) == count_squares(g0.spec_board(), SquareClass::OpenMine)
            + count_squares(g0.spec_board(), SquareClass::ClosedMine),
        count_squares(g1.spec_board(), SquareClass::OpenSafe) == count_squares(g0.spec_board(), SquareClass::OpenSafe)
            + count_squares(g0.spec_board(), SquareClass::ClosedSafe),
        count_squares(g1.spec_board(), SquareClass::ClosedMine) == 0,
        count_squares(g1.spec_board(), SquareClass::ClosedSafe) == 0,
        count_squares(g1.spec_board(), SquareClass::Flag) == 0,
{
    let b0 = g0.spec_board();
    let b1 = g1.spec_board();
    assert forall|x: int, y: int| #![trigger b1.cell(x, y)] b0.in_bounds(x, y) implies b1.cell(x, y) == (Square {
        is_open: true,
        ..b0.cell(x, y)
    }) by {
        assert(g1.cell(x, y) == Square { is_open: true, ..g0.cell(x, y) });
    }
    lemma_open_all_rows(b0, b1, b0.height() as int);
}

/// After seeding from coordinates `ps`, every border square is open and
/// mine-free; an inner square holds a mine exactly when it held one before
/// or one of `ps` names it; and every number is the count of mines among
/// the square's eight neighbours.
pub proof fn lemma_seeded_board(g0: Game, g1: Game, ps: Seq<(usize, usize)>, x: int, y: int)
    requires
        g0.wf(),
        set_mines_post(g0, g1, ps),
        g0.in_bounds(x, y),
    ensures
        on_border(g0, x, y) ==> !g1.cell(x, y).is_mine && g1.cell(x, y).is_open,
        !on_border(g0, x, y) ==> g1.cell(x, y).is_mine == (g0.cell(x, y).is_mine || placed_at(ps, ps.len() as int, x, y)),
        g1.cell(x, y).number == adjacent_mines(g1.spec_board(), x, y),
{
    let n = adjacent_mines(g1.spec_board(), x, y);
    crate::game::lemma_mines_around_le(g1.spec_board(), x, y, 8);
    assert(g1.cell(x, y).number == n as usize);
}

/// How many of the first `n` directions from `(x, y)` stay on the board.
pub open spec fn present_dirs(b: Board, x: int, y: int, n: int) -> nat
    decreases n,
{
    if n <= 0 {
        0
    } else {
        present_dirs(b, x, y, n - 1) + if b.in_bounds(x + dir_dx(n - 1), y + dir_dy(n - 1)) {
            1nat
        } else {
            0nat
        }
    }
}

/// On a board at least two squares wide and high, a corner square has three
/// of its eight neighbours, and any other border square five.
pub proof fn lemma_border_neighbors(b: Board, x: int, y: int)
    requires
        b.wf(),
        b.in_bounds(x, y),
        b.width() >= 2,
        b.height() >= 2,
    ensures
        (x == 0 || x == b.width() - 1) && (y == 0 || y == b.height() - 1) ==> present_dirs(b, x, y, 8) == 3,
        (x == 0 || x == b.width() - 1) != (y == 0 || y == b.height() - 1) ==> present_dirs(b, x, y, 8) == 5,
{
    reveal_with_fuel(present_dirs, 9);
}

} // verus!
