use vstd::prelude::*;
use crate::board::{Board, Square, board_text, dir_dx, dir_dy, is_at, rows_squares, same_opt};
use crate::flood::{
    closed_count, eligible, lemma_closed_count_open, lemma_listed_grows, lemma_neighbor_pos, lemma_spreads_grows,
    listed, on_stack, open_post, opened_one, orth_adjacent, pending_except, pending_ok, pos_of,
    reveal_closed, reveal_record, spread_dir, spreads_from, stack_ok, walk_inv,
};
use crate::score::{Score, SquareClass, count_row, count_rows, count_squares, lemma_count_bound};

verus! {

/// One game: a board and a cursor on it.
pub struct Game {
    // (height, width)
    board_size: (usize, usize),
    // (x, y)
    cursor: (usize, usize),
    board: Board,
}

/// `b` is well-formed and keeps the dimensions and cursor of `a`.
pub open spec fn only_squares_change(a: Game, b: Game) -> bool {
    &&& b.wf()
    &&& b.height() == a.height()
    &&& b.width() == a.width()
    &&& b.spec_cursor() == a.spec_cursor()
}

impl Game {
    pub closed spec fn spec_board(self) -> Board {
        self.board
    }

    /// The cursor as `(x, y)`.
    pub closed spec fn spec_cursor(self) -> (usize, usize) {
        self.cursor
    }

    pub closed spec fn size_ok(self) -> bool {
        self.board_size.0 == self.board.height() && self.board_size.1 == self.board.width()
    }

    pub open spec fn height(self) -> nat {
        self.spec_board().height()
    }

    pub open spec fn width(self) -> nat {
        self.spec_board().width()
    }

    pub open spec fn cell(self, x: int, y: int) -> Square {
        self.spec_board().cell(x, y)
    }

    pub open spec fn in_bounds(self, x: int, y: int) -> bool {
        self.spec_board().in_bounds(x, y)
    }

    pub open spec fn history(self) -> Seq<Seq<Square>> {
        self.spec_board().history()
    }

    /// Well-formed: a well-formed board and a cursor on it.
    pub open spec fn wf(self) -> bool {
        &&& self.spec_board().wf()
        &&& self.size_ok()
        &&& self.spec_cursor().0 < self.width()
        &&& self.spec_cursor().1 < self.height()
    }

    /// A game `height` rows by `width` columns, all squares closed, the
    /// cursor at the top left.
    pub fn new(height: usize, width: usize) -> (r: Result<Game, String>)
        requires
            height * width <= usize::MAX,
        ensures
            r is Err <==> (height == 0 || width == 0),
            r matches Err(e) ==> e@ == "x or y is 0."@,
            r matches Ok(g) ==> {
                &&& g.wf()
                &&& g.height() == height
                &&& g.width() == width
                &&& g.spec_cursor() == (0usize, 0usize)
                &&& g.history().len() == 0
                &&& forall|x: int, y: int|
                    g.in_bounds(x, y) ==> #[trigger] g.cell(x, y) == crate::board::fresh_square(x as usize, y as usize)
            },
    {
        proof {
            vstd::arithmetic::mul::lemma_mul_is_commutative(height as int, width as int);
        }
        let board = match Board::new(width, height) {
            Ok(board) => board,
            Err(e) => return Err(e),
        };
        let game = Game { cursor: (0, 0), board_size: board.get_size(), board };
        Ok(game)
    }

    /// The board, to read squares from.
    pub fn board(&self) -> (r: &Board)
        ensures
            *r == self.spec_board(),
    {
        &self.board
    }

    /// The cursor as `(x, y)`.
    pub fn get_cursor(&self) -> (r: (usize, usize))
        ensures
            r == self.spec_cursor(),
    {
        self.cursor
    }

    /// The board as text with the cursor's square in reverse video.
    pub fn board_to_string(&self) -> (r: String)
        requires
            self.wf(),
        ensures
            r@ == board_text(self.spec_board(), Some(self.spec_cursor())),
    {
        self.board.to_string_with_cursor(self.cursor)
    }

    /// Undoes the latest recorded action; see `Board::back_squares_history`.
    pub fn back_history(&mut self)
        requires
            old(self).wf(),
        ensures
            undo_post(*old(self), *final(self)),
    {
        self.board.back_squares_history();
    }


    /// Moves the cursor to `cursor = (x, y)` when that is on the board;
    /// otherwise nothing changes.
    pub fn cursor(&mut self, cursor: (usize, usize))
        requires
            old(self).wf(),
        ensures
            final(self).wf(),
            final(self).spec_board() == old(self).spec_board(),
            final(self).spec_cursor() == if old(self).in_bounds(cursor.0 as int, cursor.1 as int) {
                cursor
            } else {
                old(self).spec_cursor()
            },
    {
        if cursor.0 < self.board_size.1 && cursor.1 < self.board_size.0 {
            self.cursor = cursor;
        }
    }

    /// One column left, stopping at the first column.
    pub fn cursor_left(&mut self)
        requires
            old(self).wf(),
        ensures
            cursor_moved(*old(self), *final(self), if old(self).spec_cursor().0 > 0 {
                (old(self).spec_cursor().0 - 1) as usize
            } else {
                0usize
            }, old(self).spec_cursor().1),
    {
        if 0 < self.cursor.0 {
            self.cursor.0 = self.cursor.0 - 1;
        }
    }

    /// One column right, stopping at the last column.
    pub fn cursor_right(&mut self)
        requires
            old(self).wf(),
        ensures
            cursor_moved(*old(self), *final(self), if old(self).spec_cursor().0 + 1 < old(self).width() {
                (old(self).spec_cursor().0 + 1) as usize
            } else {
                old(self).spec_cursor().0
            }, old(self).spec_cursor().1),
    {
        if self.cursor.0 + 1 < self.board_size.1 {
            self.cursor.0 = self.cursor.0 + 1;
        }
    }

    /// One row up, stopping at the first row.
    pub fn cursor_up(&mut self)
        requires
            old(self).wf(),
        ensures
            cursor_moved(*old(self), *final(self), old(self).spec_cursor().0, if old(self).spec_cursor().1 > 0 {
                (old(self).spec_cursor().1 - 1) as usize
            } else {
                0usize
            }),
    {
        if 0 < self.cursor.1 {
            self.cursor.1 = self.cursor.1 - 1;
        }
    }

    /// One row down, stopping at the last row.
    pub fn cursor_down(&mut self)
        requires
            old(self).wf(),
        ensures
            cursor_moved(*old(self), *final(self), old(self).spec_cursor().0, if old(self).spec_cursor().1 + 1 < old(self).height() {
                (old(self).spec_cursor().1 + 1) as usize
            } else {
                old(self).spec_cursor().1
            }),
    {
        if self.cursor.1 + 1 < self.board_size.0 {
            self.cursor.1 = self.cursor.1 + 1;
        }
    }

    /// To the first column of the current row.
    pub fn cursor_home(&mut self)
        requires
            old(self).wf(),
        ensures
            cursor_moved(*old(self), *final(self), 0usize, old(self).spec_cursor().1),
    {
        self.cursor.0 = 0;
    }

    /// To the last column of the current row.
    pub fn cursor_end(&mut self)
        requires
            old(self).wf(),
        ensures
            cursor_moved(*old(self), *final(self), (old(self).width() - 1) as usize, old(self).spec_cursor().1),
    {
        self.cursor.0 = self.board_size.1 - 1;
    }

    /// To the first row of the current column.
    pub fn cursor_top(&mut self)
        requires
            old(self).wf(),
        ensures
            cursor_moved(*old(self), *final(self), old(self).spec_cursor().0, 0usize),
    {
        self.cursor.1 = 0;
    }

    /// To the last row of the current column.
    pub fn cursor_bottom(&mut self)
        requires
            old(self).wf(),
        ensures
            cursor_moved(*old(self), *final(self), old(self).spec_cursor().0, (old(self).height() - 1) as usize),
    {
        self.cursor.1 = self.board_size.0 - 1;
    }

    /// Counts the squares by state in one pass over the board.
    pub fn get_score(&self) -> (r: Score)
        requires
            self.wf(),
        ensures
            r.number_of_flags == count_squares(self.spec_board(), SquareClass::Flag),
            r.number_of_unopened_mines == count_squares(self.spec_board(), SquareClass::ClosedMine),
            r.number_of_unopened_squares == count_squares(self.spec_board(), SquareClass::ClosedSafe),
            r.number_of_opened_mines == count_squares(self.spec_board(), SquareClass::OpenMine),
            r.number_of_opened_squares == count_squares(self.spec_board(), SquareClass::OpenSafe),
    {
        let ghost b = self.spec_board();
        let w = self.board_size.1;
        let mut number_of_flags: usize = 0;
        let mut number_of_unopened_mines: usize = 0;
        let mut number_of_unopened_squares: usize = 0;
        let mut number_of_opened_mines: usize = 0;
        let mut number_of_opened_squares: usize = 0;
        let mut y: usize = 0;
        while y < self.board_size.0
            invariant
                self.wf(),
                b == self.spec_board(),
                w == self.width(),
                y <= self.height(),
                number_of_flags == count_rows(b, SquareClass::Flag, y as int),
                number_of_unopened_mines == count_rows(b, SquareClass::ClosedMine, y as int),
                number_of_unopened_squares == count_rows(b, SquareClass::ClosedSafe, y as int),
                number_of_opened_mines == count_rows(b, SquareClass::OpenMine, y as int),
                number_of_opened_squares == count_rows(b, SquareClass::OpenSafe, y as int),
            decreases self.height() - y,
        {
            let mut x: usize = 0;
            while x < w
                invariant
                    self.wf(),
                    b == self.spec_board(),
                    w == self.width(),
                    y < self.height(),
                    x <= w,
                    number_of_flags == count_rows(b, SquareClass::Flag, y as int) + count_row(b, SquareClass::Flag, y as int, x as int),
                    number_of_unopened_mines == count_rows(b, SquareClass::ClosedMine, y as int) + count_row(b, SquareClass::ClosedMine, y as int, x as int),
                    number_of_unopened_squares == count_rows(b, SquareClass::ClosedSafe, y as int) + count_row(b, SquareClass::ClosedSafe, y as int, x as int),
                    number_of_opened_mines == count_rows(b, SquareClass::OpenMine, y as int) + count_row(b, SquareClass::OpenMine, y as int, x as int),
                    number_of_opened_squares == count_rows(b, SquareClass::OpenSafe, y as int) + count_row(b, SquareClass::OpenSafe, y as int, x as int),
                decreases w - x,
            {
                let square = *self.board.get_square((x, y)).unwrap();
                proof {
                    assert(square == b.cell(x as int, y as int));
                    lemma_count_bound(b, SquareClass::Flag, y as int, x as int);
                    lemma_count_bound(b, SquareClass::ClosedMine, y as int, x as int);
                    lemma_count_bound(b, SquareClass::ClosedSafe, y as int, x as int);
                    lemma_count_bound(b, SquareClass::OpenMine, y as int, x as int);
                    lemma_count_bound(b, SquareClass::OpenSafe, y as int, x as int);
                }
                if !square.is_open {
                    if square.is_flag {
                        number_of_flags = number_of_flags + 1;
                    }
                    if square.is_mine {
                        number_of_unopened_mines = number_of_unopened_mines + 1;
                    }
                    if !square.is_mine {
                        number_of_unopened_squares = number_of_unopened_squares + 1;
                    }
                } else {
                    if square.is_mine {
                        number_of_opened_mines = number_of_opened_mines + 1;
                    }
                    if !square.is_mine {
                        number_of_opened_squares = number_of_opened_squares + 1;
                    }
                }
                x = x + 1;
            }
            y = y + 1;
        }
        Score {
            number_of_flags,
            number_of_unopened_mines,
            number_of_unopened_squares,
            number_of_opened_mines,
            number_of_opened_squares,
        }
    }


    /// Drops `times` mines on squares drawn uniformly at random (a square may
    /// be drawn twice), then clears and opens the border and numbers every
    /// square; see `set_mines_at`.
    pub fn set_mines(&mut self, times: usize)
        requires
            old(self).wf(),
        ensures
            exists|ps: Seq<(usize, usize)>|
                {
                    &&& ps.len() == times
                    &&& forall|k: int| 0 <= k < ps.len() ==> old(self).in_bounds(#[trigger] ps[k].0 as int, ps[k].1 as int)
                    &&& set_mines_post(*old(self), *final(self), ps)
                },
    {
        let height = self.board_size.0;
        let width = self.board_size.1;
        let mut positions: Vec<(usize, usize)> = Vec::new();
        let mut i: usize = 0;
        while i < times
            invariant
                self.wf(),
                height == self.height(),
                width == self.width(),
                i <= times,
                positions@.len() == i,
                forall|k: int| 0 <= k < i ==> self.in_bounds(#[trigger] positions@[k].0 as int, positions@[k].1 as int),
            decreases times - i,
        {
            let y = random_below(height);
            let x = random_below(width);
            positions.push((x, y));
            i = i + 1;
        }
        self.set_mines_at(&positions);
    }

    /// Seeds the board from chosen coordinates: a mine goes on each listed
    /// square (coordinates off the board are skipped), every border square
    /// then loses its mine and is opened, and last each square's number is
    /// set to the mines among its eight neighbours.
    pub fn set_mines_at(&mut self, positions: &Vec<(usize, usize)>)
        requires
            old(self).wf(),
        ensures
            set_mines_post(*old(self), *final(self), positions@),
    {
        let ghost g0 = *self;
        self.place_mines(positions);
        let ghost g1 = *self;
        self.remove_mine_and_open();
        let ghost g2 = *self;
        self.set_numbers_to_squares();
        proof {
            assert forall|x: int, y: int| g0.in_bounds(x, y) implies #[trigger] self.cell(x, y) == Square {
                number: adjacent_mines(self.spec_board(), x, y) as usize,
                ..seeded_square(g0, positions@, x, y)
            } by {
                assert forall|i: int, j: int| g2.spec_board().in_bounds(i, j) implies #[trigger] g2.spec_board().cell(i, j).is_mine
                    == self.spec_board().cell(i, j).is_mine by {
                    assert(self.cell(i, j).is_mine == g2.cell(i, j).is_mine);
                }
                lemma_same_mines_around(g2.spec_board(), self.spec_board(), x, y, 8);
                assert(g1.cell(x, y) == g2.cell(x, y) || on_border(g0, x, y));
            }
        }
    }

    /// Puts a mine on each listed square; coordinates off the board are
    /// skipped. Numbers are left as they are.
    pub fn place_mines(&mut self, positions: &Vec<(usize, usize)>)
        requires
            old(self).wf(),
        ensures
            only_squares_change(*old(self), *final(self)),
            final(self).history() == old(self).history(),
            forall|x: int, y: int|
                #![trigger final(self).cell(x, y)]
                old(self).in_bounds(x, y) ==> final(self).cell(x, y) == if placed_at(positions@, positions@.len() as int, x, y) {
                    Square { is_mine: true, ..old(self).cell(x, y) }
                } else {
                    old(self).cell(x, y)
                },
    {
        let ghost g0 = *self;
        let mut i: usize = 0;
        while i < positions.len()
            invariant
                only_squares_change(g0, *self),
                self.history() == g0.history(),
                i <= positions@.len(),
                forall|x: int, y: int|
                    #![trigger self.cell(x, y)]
                    g0.in_bounds(x, y) ==> self.cell(x, y) == if placed_at(positions@, i as int, x, y) {
                        Square { is_mine: true, ..g0.cell(x, y) }
                    } else {
                        g0.cell(x, y)
                    },
            decreases positions@.len() - i,
        {
            let (x, y) = positions[i];
            if x < self.board_size.1 && y < self.board_size.0 {
                let square = *self.board.get_square((x, y)).unwrap();
                assert(square == self.cell(x as int, y as int));
                assert(is_at(square, x as int, y as int));
                let mut mined = square;
                mined.is_mine = true;
                let ghost mid = *self;
                self.board.set_square(mined);
                assert forall|a: int, b: int| g0.in_bounds(a, b) implies #[trigger] self.cell(a, b) == if placed_at(positions@, i + 1, a, b) {
                    Square { is_mine: true, ..g0.cell(a, b) }
                } else {
                    g0.cell(a, b)
                } by {
                    assert(mid.cell(a, b) == self.cell(a, b) || (a == x && b == y));
                    if placed_at(positions@, i as int, a, b) {
                        let k = choose|k: int| 0 <= k < i && positions@[k].0 == a && positions@[k].1 == b;
                        assert(0 <= k < i + 1 && positions@[k].0 == a && positions@[k].1 == b);
                    }
                    if a == x && b == y {
                        assert(0 <= i < i + 1 && positions@[i as int].0 == a && positions@[i as int].1 == b);
                    }
                    if placed_at(positions@, i + 1, a, b) && !(a == x && b == y) {
                        let k = choose|k: int| 0 <= k < i + 1 && positions@[k].0 == a && positions@[k].1 == b;
                        assert(k != i);
                    }
                }
            } else {
                assert forall|a: int, b: int| g0.in_bounds(a, b) implies #[trigger] self.cell(a, b) == if placed_at(positions@, i + 1, a, b) {
                    Square { is_mine: true, ..g0.cell(a, b) }
                } else {
                    g0.cell(a, b)
                } by {
                    if placed_at(positions@, i as int, a, b) {
                        let k = choose|k: int| 0 <= k < i && positions@[k].0 == a && positions@[k].1 == b;
                        assert(0 <= k < i + 1 && positions@[k].0 == a && positions@[k].1 == b);
                    }
                    if placed_at(positions@, i + 1, a, b) {
                        let k = choose|k: int| 0 <= k < i + 1 && positions@[k].0 == a && positions@[k].1 == b;
                        assert(k != i);
                    }
                }
            }
            i = i + 1;
        }
    }

    // Clears the mines from the border squares and opens them.
    fn remove_mine_and_open(&mut self)
        requires
            old(self).wf(),
        ensures
            only_squares_change(*old(self), *final(self)),
            final(self).history() == old(self).history(),
            forall|x: int, y: int|
                #![trigger final(self).cell(x, y)]
                old(self).in_bounds(x, y) ==> final(self).cell(x, y) == if on_border(*old(self), x, y) {
                    Square { is_mine: false, is_open: true, ..old(self).cell(x, y) }
                } else {
                    old(self).cell(x, y)
                },
    {
        let ghost g0 = *self;
        let height = self.board_size.0;
        let width = self.board_size.1;
        let mut h: usize = 0;
        while h < height
            invariant
                only_squares_change(g0, *self),
                self.history() == g0.history(),
                height == g0.height(),
                width == g0.width(),
                h <= height,
                forall|x: int, y: int|
                    #![trigger self.cell(x, y)]
                    g0.in_bounds(x, y) ==> self.cell(x, y) == if (x == 0 || x == width - 1) && y < h {
                        Square { is_mine: false, is_open: true, ..g0.cell(x, y) }
                    } else {
                        g0.cell(x, y)
                    },
            decreases height - h,
        {
            self.clear_square(0, h);
            self.clear_square(width - 1, h);
            h = h + 1;
        }
        let mut w: usize = 0;
        while w < width
            invariant
                only_squares_change(g0, *self),
                self.history() == g0.history(),
                height == g0.height(),
                width == g0.width(),
                w <= width,
                forall|x: int, y: int|
                    #![trigger self.cell(x, y)]
                    g0.in_bounds(x, y) ==> self.cell(x, y) == if (x == 0 || x == width - 1) || ((y == 0 || y == height - 1) && x < w) {
                        Square { is_mine: false, is_open: true, ..g0.cell(x, y) }
                    } else {
                        g0.cell(x, y)
                    },
            decreases width - w,
        {
            self.clear_square(w, 0);
            self.clear_square(w, height - 1);
            w = w + 1;
        }
    }

    // Takes the mine off square (x, y) and opens it.
    fn clear_square(&mut self, x: usize, y: usize)
        requires
            old(self).wf(),
            old(self).in_bounds(x as int, y as int),
        ensures
            only_squares_change(*old(self), *final(self)),
            final(self).history() == old(self).history(),
            forall|a: int, b: int|
                #![trigger final(self).cell(a, b)]
                old(self).in_bounds(a, b) ==> final(self).cell(a, b) == if a == x && b == y {
                    Square { is_mine: false, is_open: true, ..old(self).cell(a, b) }
                } else {
                    old(self).cell(a, b)
                },
    {
        let square = *self.board.get_square((x, y)).unwrap();
        assert(square == self.cell(x as int, y as int));
        assert(is_at(square, x as int, y as int));
        let mut cleared = square;
        cleared.is_mine = false;
        cleared.is_open = true;
        self.board.set_square(cleared);
    }

    /// Sets each square's number to the count of mines among its eight
    /// neighbours; nothing else changes.
    pub fn set_numbers_to_squares(&mut self)
        requires
            old(self).wf(),
        ensures
            only_squares_change(*old(self), *final(self)),
            final(self).history() == old(self).history(),
            forall|x: int, y: int|
                #![trigger final(self).cell(x, y)]
                old(self).in_bounds(x, y) ==> final(self).cell(x, y) == (Square {
                    number: adjacent_mines(old(self).spec_board(), x, y) as usize,
                    ..old(self).cell(x, y)
                }),
    {
        let ghost g0 = *self;
        let mut y: usize = 0;
        while y < self.board_size.0
            invariant
                only_squares_change(g0, *self),
                self.history() == g0.history(),
                y <= self.height(),
                forall|i: int, j: int|
                    #![trigger self.cell(i, j)]
                    g0.in_bounds(i, j) ==> self.cell(i, j) == (if j < y {
                        Square { number: adjacent_mines(g0.spec_board(), i, j) as usize, ..g0.cell(i, j) }
                    } else {
                        g0.cell(i, j)
                    }),
            decreases self.height() - y,
        {
            let mut x: usize = 0;
            while x < self.board_size.1
                invariant
                    only_squares_change(g0, *self),
                    self.history() == g0.history(),
                    y < self.height(),
                    x <= self.width(),
                    forall|i: int, j: int|
                        #![trigger self.cell(i, j)]
                        g0.in_bounds(i, j) ==> self.cell(i, j) == if j < y || (j == y && i < x) {
                            Square { number: adjacent_mines(g0.spec_board(), i, j) as usize, ..g0.cell(i, j) }
                        } else {
                            g0.cell(i, j)
                        },
                decreases self.width() - x,
            {
                let count = self.count_mines_around(x, y, Ghost(g0));
                let square = *self.board.get_square((x, y)).unwrap();
                assert(square == self.cell(x as int, y as int));
                assert(is_at(square, x as int, y as int));
                let mut numbered = square;
                numbered.number = count;
                let ghost mid = *self;
                self.board.set_square(numbered);
                assert forall|i: int, j: int| g0.in_bounds(i, j) implies #[trigger] self.cell(i, j) == if j < y || (j == y && i < x + 1) {
                    Square { number: adjacent_mines(g0.spec_board(), i, j) as usize, ..g0.cell(i, j) }
                } else {
                    g0.cell(i, j)
                } by {
                    assert(mid.cell(i, j) == self.cell(i, j) || (i == x && j == y));
                }
                x = x + 1;
            }
            y = y + 1;
        }
    }

    // The mines among the eight neighbours of (x, y), read through
    // `get_around_squares_of`; `g0` is a board with the same mines.
    fn count_mines_around(&self, x: usize, y: usize, g0: Ghost<Game>) -> (r: usize)
        requires
            self.wf(),
            self.in_bounds(x as int, y as int),
            g0@.height() == self.height(),
            g0@.width() == self.width(),
            forall|i: int, j: int| #![trigger self.cell(i, j)] self.in_bounds(i, j) ==> self.cell(i, j).is_mine == g0@.cell(i, j).is_mine,
        ensures
            r == adjacent_mines(g0@.spec_board(), x as int, y as int),
    {
        let square = self.board.get_square((x, y)).unwrap();
        assert(*square == self.cell(x as int, y as int));
        assert(is_at(*square, x as int, y as int));
        let around = self.board.get_around_squares_of(square);
        let mut count: usize = 0;
        let mut k: usize = 0;
        while k < around.len()
            invariant
                self.wf(),
                around@.len() == 8,
                k <= 8,
                g0@.height() == self.height(),
                g0@.width() == self.width(),
                forall|i: int, j: int| #![trigger self.cell(i, j)] self.in_bounds(i, j) ==> self.cell(i, j).is_mine == g0@.cell(i, j).is_mine,
                count <= k,
                count == mines_around(g0@.spec_board(), x as int, y as int, k as int),
                forall|m: int|
                    0 <= m < 8 ==> same_opt(
                        (#[trigger] around@[m]).1,
                        self.spec_board().square_at(x + dir_dx(m), y + dir_dy(m)),
                    ),
            decreases 8 - k,
        {
            let entry = &around[k];
            assert(same_opt(entry.1, self.spec_board().square_at(x + dir_dx(k as int), y + dir_dy(k as int))));
            if let Some(s) = entry.1 {
                if s.is_mine {
                    count = count + 1;
                }
            }
            proof {
                let a = x + dir_dx(k as int);
                let b = y + dir_dy(k as int);
                if self.in_bounds(a, b) {
                    assert(self.in_bounds(a, b));
                    assert(self.cell(a, b).is_mine == g0@.cell(a, b).is_mine);
                }
            }
            k = k + 1;
        }
        count
    }


    // Opens square (x, y).
    fn open_at(&mut self, x: usize, y: usize)
        requires
            old(self).wf(),
            old(self).in_bounds(x as int, y as int),
        ensures
            only_squares_change(*old(self), *final(self)),
            final(self).history() == old(self).history(),
            opened_one(old(self).spec_board(), final(self).spec_board(), x as int, y as int),
    {
        let square = *self.board.get_square((x, y)).unwrap();
        assert(square == self.cell(x as int, y as int));
        assert(is_at(square, x as int, y as int));
        let mut opened = square;
        opened.is_open = true;
        self.board.set_square(opened);
    }

    /// Opens the square under the cursor unless it is open or flagged. A
    /// square whose number is 0 spreads the reveal to its right, left, upper
    /// and lower neighbours that are closed, unflagged and mine-free; those
    /// with number 0 spread further. The earlier states of all squares
    /// opened form one history entry, so one undo reverts them together.
    pub fn open(&mut self)
        requires
            old(self).wf(),
        ensures
            open_post(*old(self), *final(self)),
    {
        let cx = self.cursor.0;
        let cy = self.cursor.1;
        let square = *self.board.get_square(self.cursor).unwrap();
        assert(square == self.cell(cx as int, cy as int));
        if square.is_open || square.is_flag {
            return;
        }
        let ghost g0 = *self;
        assert(is_at(square, cx as int, cy as int));
        let mut before: Vec<Square> = Vec::new();
        before.push(square);
        self.open_at(cx, cy);
        proof {
            let b = before@;
            assert(b[0] == square);
            assert forall|i: int, j: int| listed(b, i, j) <==> (i == cx && j == cy) by {
                if i == cx && j == cy {
                    assert(is_at(b[0], i, j));
                }
            }
            assert forall|i: int, j: int| g0.in_bounds(i, j) implies #[trigger] self.cell(i, j) == (if listed(b, i, j) {
                Square { is_open: true, ..g0.cell(i, j) }
            } else {
                g0.cell(i, j)
            }) by {
                if !(i == cx && j == cy) {
                    assert(self.spec_board().cell(i, j) == g0.spec_board().cell(i, j));
                }
            }
        }
        if square.number == 0 {
            self.open_adjacent_squares(cx, cy, &mut before, Ghost(g0));
        } else {
            assert(spreads_from(g0, before@, 0));
        }
        proof {
            let b = before@;
            assert forall|j: int| 0 <= j < b.len() implies self.spec_board().in_bounds(
                #[trigger] b[j].pos.x as int,
                b[j].pos.y as int,
            ) by {
                assert(g0.in_bounds(b[j].pos.x as int, b[j].pos.y as int));
            }
        }
        let ghost g1 = *self;
        let ghost snap = before@;
        self.board.add_squares_history(before);
        proof {
            assert(self.history().last() == snap);
            assert(self.history().drop_last() =~= g0.history());
            assert forall|i: int, j: int| g0.in_bounds(i, j) implies #[trigger] self.cell(i, j) == (if listed(snap, i, j) {
                Square { is_open: true, ..g0.cell(i, j) }
            } else {
                g0.cell(i, j)
            }) by {
                assert(g1.cell(i, j) == self.cell(i, j));
            }
        }
    }

    // Spreads a reveal from (x, y), whose square was just opened and has
    // number 0, with a stack of squares still to spread from.
    fn open_adjacent_squares(&mut self, x: usize, y: usize, before: &mut Vec<Square>, g0: Ghost<Game>)
        requires
            walk_inv(g0@, *old(self), old(before)@, x as int, y as int),
            old(before)@.len() == 1,
            old(before)@[0].number == 0,
        ensures
            walk_inv(g0@, *final(self), final(before)@, x as int, y as int),
            reveal_closed(g0@, final(before)@),
    {
        let mut stack: Vec<(usize, usize)> = Vec::new();
        stack.push((x, y));
        proof {
            assert(is_at(g0@.spec_board().cell(x as int, y as int), x as int, y as int));
            assert(is_at(before@[0], x as int, y as int));
            assert(stack@[0] == (x, y));
            assert(on_stack(stack@, before@[0].pos));
        }
        while stack.len() > 0
            invariant
                walk_inv(g0@, *self, before@, x as int, y as int),
                stack_ok(before@, stack@),
                pending_ok(g0@, before@, stack@),
            decreases closed_count(*self), stack@.len(),
        {
            let ghost s0 = stack@;
            let ghost b0 = before@;
            let ghost c0 = closed_count(*self);
            let p = stack.pop().unwrap();
            let px = p.0;
            let py = p.1;
            assert(s0[s0.len() - 1] == p);
            let ghost j0 = choose|k: int| 0 <= k < b0.len() && is_at(#[trigger] b0[k], px as int, py as int) && b0[k].number == 0;
            proof {
                assert(0 <= j0 < b0.len() && is_at(b0[j0], px as int, py as int) && b0[j0].number == 0);
                assert(g0@.in_bounds(b0[j0].pos.x as int, b0[j0].pos.y as int));
                assert forall|k: int| 0 <= k < b0.len() implies k == j0 || #[trigger] spreads_from(g0@, b0, k) || on_stack(stack@, b0[k].pos) by {
                    if !spreads_from(g0@, b0, k) {
                        assert(on_stack(s0, b0[k].pos));
                        let i = choose|i: int| 0 <= i < s0.len() && (#[trigger] s0[i]).0 == b0[k].pos.x && s0[i].1 == b0[k].pos.y;
                        if i < s0.len() - 1 {
                            assert(stack@[i] == s0[i]);
                        } else {
                            assert(b0[k].pos == b0[j0].pos);
                        }
                    }
                }
                assert forall|i: int| 0 <= i < stack@.len() implies exists|k: int|
                    0 <= k < b0.len() && is_at(#[trigger] b0[k], (#[trigger] stack@[i]).0 as int, stack@[i].1 as int) && b0[k].number == 0 by {
                    assert(stack@[i] == s0[i]);
                }
            }
            let center = *self.board.get_square((px, py)).unwrap();
            assert(center == self.cell(px as int, py as int));
            assert(is_at(center, px as int, py as int));
            let around = self.board.get_around_squares_of(&center);
            let n0 = pos_of(around[0].1);
            let n1 = pos_of(around[1].1);
            let n2 = pos_of(around[2].1);
            let n3 = pos_of(around[3].1);
            proof {
                assert(around@[0].1 == around[0].1);
                lemma_neighbor_pos(*self, px as int, py as int, 0, n0, around@[0].1);
                lemma_neighbor_pos(*self, px as int, py as int, 1, n1, around@[1].1);
                lemma_neighbor_pos(*self, px as int, py as int, 2, n2, around@[2].1);
                lemma_neighbor_pos(*self, px as int, py as int, 3, n3, around@[3].1);
            }
            let ghost b1 = before@;
            self.visit(n0, before, &mut stack, g0, Ghost(x as int), Ghost(y as int), Ghost(j0), Ghost(px as int), Ghost(py as int));
            let ghost b2 = before@;
            self.visit(n1, before, &mut stack, g0, Ghost(x as int), Ghost(y as int), Ghost(j0), Ghost(px as int), Ghost(py as int));
            let ghost b3 = before@;
            self.visit(n2, before, &mut stack, g0, Ghost(x as int), Ghost(y as int), Ghost(j0), Ghost(px as int), Ghost(py as int));
            let ghost b4 = before@;
            self.visit(n3, before, &mut stack, g0, Ghost(x as int), Ghost(y as int), Ghost(j0), Ghost(px as int), Ghost(py as int));
            proof {
                let bf = before@;
                assert(bf[j0] == b0[j0]);
                assert forall|d: int| 0 <= d < 4 implies #[trigger] spread_dir(g0@, bf, bf[j0].pos.x as int, bf[j0].pos.y as int, d) by {
                    let nx = px + dir_dx(d);
                    let ny = py + dir_dy(d);
                    if g0@.in_bounds(nx, ny) && eligible(g0@.cell(nx, ny)) {
                        if d == 0 {
                            assert(listed(b2, nx, ny));
                        } else if d == 1 {
                            assert(listed(b3, nx, ny));
                        } else if d == 2 {
                            assert(listed(b4, nx, ny));
                        }
                        assert(listed(bf, nx, ny));
                    }
                }
                assert(spreads_from(g0@, bf, j0));
                assert forall|k: int| 0 <= k < bf.len() implies #[trigger] spreads_from(g0@, bf, k) || on_stack(stack@, bf[k].pos) by {
                    if k != j0 {
                        assert(k == j0 || spreads_from(g0@, bf, k) || on_stack(stack@, bf[k].pos));
                    }
                }
            }
        }
        proof {
            assert forall|k: int| 0 <= k < before@.len() implies #[trigger] spreads_from(g0@, before@, k) by {
                if !spreads_from(g0@, before@, k) {
                    assert(on_stack(stack@, before@[k].pos));
                }
            }
        }
    }

    // One neighbour `nb` of the square at (px, py), entry j0 of the record:
    // an eligible one is opened, recorded, and stacked if its number is 0.
    fn visit(
        &mut self,
        nb: Option<(usize, usize)>,
        before: &mut Vec<Square>,
        stack: &mut Vec<(usize, usize)>,
        g0: Ghost<Game>,
        x0: Ghost<int>,
        y0: Ghost<int>,
        j0: Ghost<int>,
        px: Ghost<int>,
        py: Ghost<int>,
    )
        requires
            walk_inv(g0@, *old(self), old(before)@, x0@, y0@),
            stack_ok(old(before)@, old(stack)@),
            0 <= j0@ < old(before)@.len(),
            is_at(old(before)@[j0@], px@, py@),
            old(before)@[j0@].number == 0,
            pending_except(g0@, old(before)@, old(stack)@, j0@),
            nb matches Some(p) ==> old(self).in_bounds(p.0 as int, p.1 as int) && orth_adjacent(px@, py@, p.0 as int, p.1 as int),
        ensures
            walk_inv(g0@, *final(self), final(before)@, x0@, y0@),
            stack_ok(final(before)@, final(stack)@),
            pending_except(g0@, final(before)@, final(stack)@, j0@),
            old(before)@.len() <= final(before)@.len(),
            forall|k: int| 0 <= k < old(before)@.len() ==> #[trigger] final(before)@[k] == old(before)@[k],
            forall|i: int, j: int| #[trigger] listed(old(before)@, i, j) ==> listed(final(before)@, i, j),
            old(stack)@.len() <= final(stack)@.len(),
            forall|i: int| 0 <= i < old(stack)@.len() ==> #[trigger] final(stack)@[i] == old(stack)@[i],
            nb matches Some(p) ==> (eligible(g0@.cell(p.0 as int, p.1 as int)) ==> listed(final(before)@, p.0 as int, p.1 as int)),
            closed_count(*final(self)) <= closed_count(*old(self)),
            closed_count(*final(self)) == closed_count(*old(self)) ==> final(stack)@ == old(stack)@,
    {
        let (a, b) = match nb {
            Some(p) => p,
            None => return,
        };
        let square = *self.board.get_square((a, b)).unwrap();
        assert(square == self.cell(a as int, b as int));
        if square.is_mine || square.is_open || square.is_flag {
            return;
        }
        let ghost bs = before@;
        let ghost ss = stack@;
        let ghost g1 = *self;
        proof {
            assert(!listed(bs, a as int, b as int));
            assert(square == g0@.cell(a as int, b as int));
            assert(is_at(square, a as int, b as int));
        }
        before.push(square);
        self.open_at(a, b);
        if square.number == 0 {
            stack.push((a, b));
        }
        proof {
            let bf = before@;
            let sf = stack@;
            assert(bf[bs.len() as int] == square);
            assert(bf.subrange(0, bs.len() as int) =~= bs);
            lemma_closed_count_open(g1, *self, a as int, b as int);
            assert forall|i: int, j: int| listed(bf, i, j) <==> (listed(bs, i, j) || (i == a && j == b)) by {
                if listed(bs, i, j) {
                    lemma_listed_grows(bs, bf, i, j);
                }
                if i == a && j == b {
                    assert(is_at(bf[bs.len() as int], i, j));
                }
                if listed(bf, i, j) && !(i == a && j == b) {
                    let k = choose|k: int| 0 <= k < bf.len() && is_at(#[trigger] bf[k], i, j);
                    assert(k < bs.len());
                    assert(bs[k] == bf[k]);
                }
            }
            // the record
            assert forall|k: int| #![trigger bf[k]] 1 <= k < bf.len() implies exists|j: int|
                0 <= j < k && (#[trigger] bf[j]).number == 0 && orth_adjacent(
                    bf[j].pos.x as int,
                    bf[j].pos.y as int,
                    bf[k].pos.x as int,
                    bf[k].pos.y as int,
                ) by {
                if k < bs.len() {
                    assert(bf[k] == bs[k]);
                    let j = choose|j: int|
                        0 <= j < k && (#[trigger] bs[j]).number == 0 && orth_adjacent(
                            bs[j].pos.x as int,
                            bs[j].pos.y as int,
                            bs[k].pos.x as int,
                            bs[k].pos.y as int,
                        );
                    assert(bf[j] == bs[j]);
                } else {
                    assert(bf[j0@] == bs[j0@]);
                }
            }
            assert forall|j: int, k: int| 0 <= j < k < bf.len() implies (#[trigger] bf[j]).pos != (#[trigger] bf[k]).pos by {
                assert(bf[j] == bs[j]);
                if k < bs.len() {
                    assert(bf[k] == bs[k]);
                } else {
                    assert(!is_at(bs[j], a as int, b as int));
                }
            }
            assert forall|k: int| #![trigger bf[k]] 0 <= k < bf.len() implies g0@.in_bounds(bf[k].pos.x as int, bf[k].pos.y as int) && bf[k] == g0@.cell(
                bf[k].pos.x as int,
                bf[k].pos.y as int,
            ) by {
                if k < bs.len() {
                    assert(bf[k] == bs[k]);
                }
            }
            assert forall|k: int| 1 <= k < bf.len() implies eligible(#[trigger] bf[k]) by {
                if k < bs.len() {
                    assert(bf[k] == bs[k]);
                }
            }
            assert(reveal_record(g0@, bf, x0@, y0@));
            assert forall|i: int, j: int| g0@.in_bounds(i, j) implies #[trigger] self.cell(i, j) == (if listed(bf, i, j) {
                Square { is_open: true, ..g0@.cell(i, j) }
            } else {
                g0@.cell(i, j)
            }) by {
                if !(i == a && j == b) {
                    assert(self.spec_board().cell(i, j) == g1.spec_board().cell(i, j));
                    assert(g1.cell(i, j) == self.cell(i, j));
                }
            }
            // the stack
            assert forall|i: int| 0 <= i < sf.len() implies exists|k: int|
                0 <= k < bf.len() && is_at(#[trigger] bf[k], (#[trigger] sf[i]).0 as int, sf[i].1 as int) && bf[k].number == 0 by {
                if i < ss.len() {
                    assert(sf[i] == ss[i]);
                    let k = choose|k: int| 0 <= k < bs.len() && is_at(#[trigger] bs[k], ss[i].0 as int, ss[i].1 as int) && bs[k].number == 0;
                    assert(bf[k] == bs[k]);
                } else {
                    assert(is_at(bf[bs.len() as int], a as int, b as int));
                }
            }
            assert forall|k: int| 0 <= k < bf.len() implies k == j0@ || #[trigger] spreads_from(g0@, bf, k) || on_stack(sf, bf[k].pos) by {
                if k < bs.len() {
                    assert(bf[k] == bs[k]);
                    if spreads_from(g0@, bs, k) {
                        lemma_spreads_grows(g0@, bs, bf, k);
                    } else if k != j0@ {
                        assert(on_stack(ss, bs[k].pos));
                        let i = choose|i: int| 0 <= i < ss.len() && (#[trigger] ss[i]).0 == bs[k].pos.x && ss[i].1 == bs[k].pos.y;
                        assert(sf[i] == ss[i]);
                    }
                } else if square.number == 0 {
                    assert(sf[ss.len() as int] == (a, b));
                }
            }
        }
    }

    /// Flips the flag of the square under the cursor and records its earlier
    /// state; an open square is left alone and nothing is recorded.
    pub fn toggle_flag(&mut self)
        requires
            old(self).wf(),
        ensures
            toggle_flag_post(*old(self), *final(self)),
    {
        let square = *self.board.get_square(self.cursor).unwrap();
        if square.is_open {
            return;
        }
        let mut flipped = square;
        flipped.is_flag = !square.is_flag;
        self.board.set_square(flipped);
        let mut before: Vec<Square> = Vec::new();
        before.push(square);
        self.board.add_squares_history(before);
    }

    /// Opens every square and records all their earlier states, in reading
    /// order, as one history entry.
    pub fn open_all_squares(&mut self)
        requires
            old(self).wf(),
        ensures
            open_all_post(*old(self), *final(self)),
    {
        let ghost g0 = *self;
        let mut before: Vec<Square> = Vec::new();
        let mut y: usize = 0;
        while y < self.board_size.0
            invariant
                only_squares_change(g0, *self),
                self.history() == g0.history(),
                y <= self.height(),
                before@ == rows_squares(g0.spec_board(), y as int),
                forall|i: int, j: int|
                    #![trigger self.cell(i, j)]
                    self.in_bounds(i, j) ==> self.cell(i, j) == (if j < y {
                        Square { is_open: true, ..g0.cell(i, j) }
                    } else {
                        g0.cell(i, j)
                    }),
            decreases self.height() - y,
        {
            let ghost head = before@;
            let mut x: usize = 0;
            while x < self.board_size.1
                invariant
                    only_squares_change(g0, *self),
                    self.history() == g0.history(),
                    y < self.height(),
                    x <= self.width(),
                    before@ == head + crate::board::row_squares(g0.spec_board(), y as int, x as int),
                    forall|i: int, j: int|
                        #![trigger self.cell(i, j)]
                        self.in_bounds(i, j) ==> self.cell(i, j) == (if j < y || (j == y && i < x) {
                            Square { is_open: true, ..g0.cell(i, j) }
                        } else {
                            g0.cell(i, j)
                        }),
                decreases self.width() - x,
            {
                let square = *self.board.get_square((x, y)).unwrap();
                assert(square == self.cell(x as int, y as int));
                assert(square == g0.cell(x as int, y as int));
                assert(is_at(square, x as int, y as int));
                before.push(square);
                let mut opened = square;
                opened.is_open = true;
                let ghost mid = *self;
                self.board.set_square(opened);
                assert forall|i: int, j: int| self.in_bounds(i, j) implies #[trigger] self.cell(i, j) == (if j < y || (j == y && i < x + 1) {
                    Square { is_open: true, ..g0.cell(i, j) }
                } else {
                    g0.cell(i, j)
                }) by {
                    assert(mid.cell(i, j) == self.cell(i, j) || (i == x && j == y));
                }
                proof {
                    assert(crate::board::row_squares(g0.spec_board(), y as int, x + 1)
                        == crate::board::row_squares(g0.spec_board(), y as int, x as int).push(square));
                    assert(before@ =~= head + crate::board::row_squares(g0.spec_board(), y as int, x + 1));
                }
                x = x + 1;
            }
            proof {
                assert(before@ =~= rows_squares(g0.spec_board(), y + 1));
            }
            y = y + 1;
        }
        proof {
            lemma_rows_squares_fit(g0.spec_board(), g0.height() as int);
            assert(self.spec_board().snapshot_fits(before@));
        }
        let ghost g1 = *self;
        self.board.add_squares_history(before);
        assert forall|x: int, y: int| g0.in_bounds(x, y) implies #[trigger] self.cell(x, y) == Square {
            is_open: true,
            ..g0.cell(x, y)
        } by {
            assert(g1.cell(x, y) == self.cell(x, y));
        }
    }
}


/// Only the cursor moved, to `(x, y)`.
pub open spec fn cursor_moved(g0: Game, g1: Game, x: usize, y: usize) -> bool {
    &&& g1.wf()
    &&& g1.spec_board() == g0.spec_board()
    &&& g1.spec_cursor() == (x, y)
}

/// Whether one of the first `n` coordinates of `ps` is `(x, y)`.
pub open spec fn placed_at(ps: Seq<(usize, usize)>, n: int, x: int, y: int) -> bool {
    exists|k: int| 0 <= k < n && ps[k].0 == x && ps[k].1 == y
}

/// Whether `(x, y)` is in the first or last row or column.
pub open spec fn on_border(g: Game, x: int, y: int) -> bool {
    x == 0 || y == 0 || x == g.width() - 1 || y == g.height() - 1
}

/// Whether the neighbour of `(x, y)` in direction `k` is on the board and mined.
pub open spec fn mine_in_dir(b: Board, x: int, y: int, k: int) -> bool {
    match b.square_at(x + dir_dx(k), y + dir_dy(k)) {
        Some(s) => s.is_mine,
        None => false,
    }
}

/// The mines among the neighbours of `(x, y)` in the first `n` directions.
pub open spec fn mines_around(b: Board, x: int, y: int, n: int) -> nat
    decreases n,
{
    if n <= 0 {
        0
    } else {
        mines_around(b, x, y, n - 1) + if mine_in_dir(b, x, y, n - 1) {
            1nat
        } else {
            0nat
        }
    }
}

/// The mines among the eight neighbours of `(x, y)`.
pub open spec fn adjacent_mines(b: Board, x: int, y: int) -> nat {
    mines_around(b, x, y, 8)
}

/// The square at `(x, y)` after the mines of `ps` are placed and the border
/// is cleared and opened, before numbering.
pub open spec fn seeded_square(g0: Game, ps: Seq<(usize, usize)>, x: int, y: int) -> Square {
    let s = g0.cell(x, y);
    if on_border(g0, x, y) {
        Square { is_mine: false, is_open: true, ..s }
    } else if placed_at(ps, ps.len() as int, x, y) {
        Square { is_mine: true, ..s }
    } else {
        s
    }
}

/// What seeding from coordinates `ps` does: mines and open squares as
/// `seeded_square` says, and each number the count of mines around it.
pub open spec fn set_mines_post(g0: Game, g1: Game, ps: Seq<(usize, usize)>) -> bool {
    &&& only_squares_change(g0, g1)
    &&& g1.history() == g0.history()
    &&& forall|x: int, y: int|
        #![trigger g1.cell(x, y)]
        g0.in_bounds(x, y) ==> g1.cell(x, y) == Square {
            number: adjacent_mines(g1.spec_board(), x, y) as usize,
            ..seeded_square(g0, ps, x, y)
        }
}

/// At most one mine per direction.
pub proof fn lemma_mines_around_le(b: Board, x: int, y: int, n: int)
    requires
        0 <= n,
    ensures
        mines_around(b, x, y, n) <= n,
    decreases n,
{
    if n > 0 {
        lemma_mines_around_le(b, x, y, n - 1);
    }
}

/// Boards with the same mines count the same mines around each square.
proof fn lemma_same_mines_around(a: Board, b: Board, x: int, y: int, n: int)
    requires
        a.height() == b.height(),
        a.width() == b.width(),
        forall|i: int, j: int| #![trigger a.cell(i, j)] a.in_bounds(i, j) ==> a.cell(i, j).is_mine == b.cell(i, j).is_mine,
    ensures
        mines_around(a, x, y, n) == mines_around(b, x, y, n),
    decreases n,
{
    if n > 0 {
        lemma_same_mines_around(a, b, x, y, n - 1);
        let i = x + dir_dx(n - 1);
        let j = y + dir_dy(n - 1);
        if a.in_bounds(i, j) {
            assert(a.cell(i, j).is_mine == b.cell(i, j).is_mine);
        }
    }
}

/// Relies on rand's `thread_rng` and `Rng::gen_range(0, bound)`, which
/// draws from `[0, bound)` and panics when `bound` is 0.
#[verifier::external_body]
fn random_below(bound: usize) -> (r: usize)
    requires
        bound > 0,
    ensures
        r < bound,
{
    rand::Rng::gen_range(&mut rand::thread_rng(), 0, bound)
}


/// What `back_history` does: with no history nothing changes; otherwise the
/// latest entry is popped and each of its squares written back.
pub open spec fn undo_post(g0: Game, g1: Game) -> bool {
    &&& only_squares_change(g0, g1)
    &&& g0.history().len() == 0 ==> g1.history() == g0.history() && g1.spec_board().same_squares(g0.spec_board())
    &&& g0.history().len() > 0 ==> {
        &&& g1.history() == g0.history().drop_last()
        &&& forall|x: int, y: int|
            #![trigger g1.cell(x, y)]
            g0.in_bounds(x, y) ==> g1.cell(x, y) == crate::board::restored(g0.history().last(), g0.cell(x, y), x, y)
    }
}

/// What `toggle_flag` does.
pub open spec fn toggle_flag_post(g0: Game, g1: Game) -> bool {
    let (cx, cy) = (g0.spec_cursor().0 as int, g0.spec_cursor().1 as int);
    let c = g0.cell(cx, cy);
    &&& only_squares_change(g0, g1)
    &&& c.is_open ==> g1.history() == g0.history() && g1.spec_board().same_squares(g0.spec_board())
    &&& !c.is_open ==> {
        &&& g1.history() == g0.history().push(seq![c])
        &&& forall|x: int, y: int|
            #![trigger g1.cell(x, y)]
            g0.in_bounds(x, y) ==> g1.cell(x, y) == if x == cx && y == cy {
                Square { is_flag: !c.is_flag, ..c }
            } else {
                g0.cell(x, y)
            }
    }
}

/// What `open_all_squares` does.
pub open spec fn open_all_post(g0: Game, g1: Game) -> bool {
    &&& only_squares_change(g0, g1)
    &&& g1.history() == g0.history().push(rows_squares(g0.spec_board(), g0.height() as int))
    &&& forall|x: int, y: int|
        #![trigger g1.cell(x, y)]
        g0.in_bounds(x, y) ==> g1.cell(x, y) == Square { is_open: true, ..g0.cell(x, y) }
}

/// Every square listed in reading order lies on the board.
proof fn lemma_rows_squares_fit(b: Board, m: int)
    requires
        b.wf(),
        0 <= m <= b.height(),
    ensures
        b.snapshot_fits(rows_squares(b, m)),
    decreases m,
{
    if m > 0 {
        lemma_rows_squares_fit(b, m - 1);
        lemma_row_squares_fit(b, m - 1, b.width() as int);
        let a = rows_squares(b, m - 1);
        let r = crate::board::row_squares(b, m - 1, b.width() as int);
        assert forall|j: int| 0 <= j < (a + r).len() implies b.in_bounds(
            #[trigger] (a + r)[j].pos.x as int,
            (a + r)[j].pos.y as int,
        ) by {
            if j < a.len() {
                assert((a + r)[j] == a[j]);
            } else {
                assert((a + r)[j] == r[j - a.len()]);
            }
        }
    }
}

proof fn lemma_row_squares_fit(b: Board, y: int, n: int)
    requires
        b.wf(),
        0 <= y < b.height(),
        0 <= n <= b.width(),
    ensures
        b.snapshot_fits(crate::board::row_squares(b, y, n)),
    decreases n,
{
    if n > 0 {
        lemma_row_squares_fit(b, y, n - 1);
        assert(is_at(b.cell(n - 1, y), n - 1, y));
    }
}

} // verus!
