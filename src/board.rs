use vstd::prelude::*;
use vstd::string::*;

verus! {

/// A coordinate on the board: `x` is the column, `y` the row.
#[derive(Debug, Clone, Copy, PartialEq, Eq, Structural)]
pub struct Position {
    pub x: usize,
    pub y: usize,
}

/// One square of the board.
#[derive(Debug, Clone, Copy, PartialEq, Eq, Structural)]
pub struct Square {
    pub is_mine: bool,
    pub is_open: bool,
    pub is_flag: bool,
    pub number: usize,
    pub pos: Position,
}

/// The square that a new board holds at column `x`, row `y`.
pub open spec fn fresh_square(x: usize, y: usize) -> Square {
    Square { is_mine: false, is_open: false, is_flag: false, number: 0, pos: Position { x, y } }
}

/// Whether a square sits at column `x`, row `y`.
pub open spec fn is_at(s: Square, x: int, y: int) -> bool {
    s.pos.x == x && s.pos.y == y
}

/// An optional borrowed square, read as an optional square value.
pub open spec fn same_opt(r: Option<&Square>, o: Option<Square>) -> bool {
    match r {
        Some(s) => o == Some(*s),
        None => o is None,
    }
}

/// Column and row offsets of the eight directions, in the order
/// right, left, upper, lower, upper right, lower right, upper left, lower left.
pub open spec fn dir_dx(k: int) -> int {
    if k == 0 || k == 4 || k == 5 {
        1
    } else if k == 1 || k == 6 || k == 7 {
        -1
    } else {
        0
    }
}

pub open spec fn dir_dy(k: int) -> int {
    if k == 2 || k == 4 || k == 6 {
        -1
    } else if k == 3 || k == 5 || k == 7 {
        1
    } else {
        0
    }
}

pub open spec fn dir_name(k: int) -> Seq<char> {
    if k == 0 {
        "right"@
    } else if k == 1 {
        "left"@
    } else if k == 2 {
        "upper"@
    } else if k == 3 {
        "lower"@
    } else if k == 4 {
        "upper_right"@
    } else if k == 5 {
        "lower_right"@
    } else if k == 6 {
        "upper_left"@
    } else {
        "lower_left"@
    }
}

/// What a square becomes when `snap` is written back over it: the last
/// entry of `snap` at its coordinate, or `current` where `snap` has none.
pub open spec fn restored(snap: Seq<Square>, current: Square, x: int, y: int) -> Square
    decreases snap.len(),
{
    if snap.len() == 0 {
        current
    } else if is_at(snap.last(), x, y) {
        snap.last()
    } else {
        restored(snap.drop_last(), current, x, y)
    }
}


/// The fullwidth digit for `n` (U+FF10 to U+FF19); `０` above nine.
pub open spec fn zenkaku(n: nat) -> Seq<char> {
    if n == 1 {
        "\u{ff11}"@
    } else if n == 2 {
        "\u{ff12}"@
    } else if n == 3 {
        "\u{ff13}"@
    } else if n == 4 {
        "\u{ff14}"@
    } else if n == 5 {
        "\u{ff15}"@
    } else if n == 6 {
        "\u{ff16}"@
    } else if n == 7 {
        "\u{ff17}"@
    } else if n == 8 {
        "\u{ff18}"@
    } else if n == 9 {
        "\u{ff19}"@
    } else {
        "\u{ff10}"@
    }
}

/// How a square is drawn: a red mine, two blanks, its number, a yellow
/// flag, or a closed square.
pub open spec fn glyph(s: Square) -> Seq<char> {
    if s.is_open {
        if s.is_mine {
            "\x1b[91m<>\x1b[0m"@
        } else if s.number == 0 {
            "  "@
        } else {
            zenkaku(s.number as nat)
        }
    } else if s.is_flag {
        "\x1b[93m/>\x1b[0m"@
    } else {
        "[]"@
    }
}

pub open spec fn highlighted(cursor: Option<(usize, usize)>, x: int, y: int) -> bool {
    match cursor {
        Some(c) => c.0 == x && c.1 == y,
        None => false,
    }
}

/// A square's text, wrapped in reverse video when it is under the cursor.
pub open spec fn square_text(s: Square, lit: bool) -> Seq<char> {
    if lit {
        "\x1b[7m"@ + glyph(s) + "\x1b[27m"@
    } else {
        glyph(s)
    }
}

/// The first `n` squares of row `y`.
pub open spec fn row_text(b: Board, cursor: Option<(usize, usize)>, y: int, n: int) -> Seq<char>
    decreases n,
{
    if n <= 0 {
        Seq::empty()
    } else {
        row_text(b, cursor, y, n - 1) + square_text(b.cell(n - 1, y), highlighted(cursor, n - 1, y))
    }
}

/// The first `m` rows, each but the first preceded by a newline.
pub open spec fn rows_text(b: Board, cursor: Option<(usize, usize)>, m: int) -> Seq<char>
    decreases m,
{
    if m <= 0 {
        Seq::empty()
    } else {
        rows_text(b, cursor, m - 1) + (if m > 1 {
            "\n"@
        } else {
            Seq::empty()
        }) + row_text(b, cursor, m - 1, b.width() as int)
    }
}

/// The first `n` squares of row `y`, left to right.
pub open spec fn row_squares(b: Board, y: int, n: int) -> Seq<Square>
    decreases n,
{
    if n <= 0 {
        Seq::empty()
    } else {
        row_squares(b, y, n - 1).push(b.cell(n - 1, y))
    }
}

/// The squares of the first `m` rows in reading order.
pub open spec fn rows_squares(b: Board, m: int) -> Seq<Square>
    decreases m,
{
    if m <= 0 {
        Seq::empty()
    } else {
        rows_squares(b, m - 1) + row_squares(b, m - 1, b.width() as int)
    }
}

/// The whole board, one line per row.
pub open spec fn board_text(b: Board, cursor: Option<(usize, usize)>) -> Seq<char> {
    rows_text(b, cursor, b.height() as int)
}

fn number_to_zenkaku_string(number: usize) -> (r: String)
    ensures
        r@ == zenkaku(number as nat),
{
    match number {
        0 => "\u{ff10}".to_string(),
        1 => "\u{ff11}".to_string(),
        2 => "\u{ff12}".to_string(),
        3 => "\u{ff13}".to_string(),
        4 => "\u{ff14}".to_string(),
        5 => "\u{ff15}".to_string(),
        6 => "\u{ff16}".to_string(),
        7 => "\u{ff17}".to_string(),
        8 => "\u{ff18}".to_string(),
        9 => "\u{ff19}".to_string(),
        _ => "\u{ff10}".to_string(),
    }
}

impl Square {
    /// A closed, unflagged, mine-free square at column `x` and row `y`.
    pub fn new(x: usize, y: usize) -> (r: Square)
        ensures
            r == fresh_square(x, y),
    {
        Square { is_mine: false, is_open: false, is_flag: false, number: 0, pos: Position { x, y } }
    }

    /// The square's coordinate as `(x, y)`.
    pub fn get_pos(&self) -> (r: (usize, usize))
        ensures
            r == (self.pos.x, self.pos.y),
    {
        (self.pos.x, self.pos.y)
    }

    /// The square's text; see `glyph`.
    pub fn to_string(&self) -> (r: String)
        ensures
            r@ == glyph(*self),
    {
        if self.is_open {
            if self.is_mine {
                return "\x1b[91m<>\x1b[0m".to_string();
            }
            if self.number == 0 {
                return "  ".to_string();
            }
            return number_to_zenkaku_string(self.number);
        }
        if self.is_flag {
            return "\x1b[93m/>\x1b[0m".to_string();
        }
        "[]".to_string()
    }
}

/// A rectangular grid of squares with a stack of earlier square states.
#[derive(Debug, PartialEq)]
pub struct Board {
    // (height, width)
    size: (usize, usize),
    // squares[y][x]
    squares: Vec<Vec<Square>>,
    // each entry holds the states of the squares one action changed, before it
    squares_history: Vec<Vec<Square>>,
}

impl Board {
    pub closed spec fn height(self) -> nat {
        self.size.0 as nat
    }

    pub closed spec fn width(self) -> nat {
        self.size.1 as nat
    }

    /// The square at column `x`, row `y`.
    pub closed spec fn cell(self, x: int, y: int) -> Square {
        self.squares@[y]@[x]
    }

    /// The undo stack, oldest entry first.
    pub closed spec fn history(self) -> Seq<Seq<Square>> {
        self.squares_history@.map_values(|v: Vec<Square>| v@)
    }

    pub closed spec fn layout_ok(self) -> bool {
        &&& self.squares@.len() == self.size.0
        &&& forall|y: int| 0 <= y < self.size.0 ==> (#[trigger] self.squares@[y])@.len() == self.size.1
    }

    pub open spec fn in_bounds(self, x: int, y: int) -> bool {
        0 <= x < self.width() && 0 <= y < self.height()
    }

    /// The square at `(x, y)`, or nothing off the board.
    pub open spec fn square_at(self, x: int, y: int) -> Option<Square> {
        if self.in_bounds(x, y) {
            Some(self.cell(x, y))
        } else {
            None
        }
    }

    /// Whether every square of a snapshot names a square of the board.
    pub open spec fn snapshot_fits(self, snap: Seq<Square>) -> bool {
        forall|j: int| 0 <= j < snap.len() ==> self.in_bounds(#[trigger] snap[j].pos.x as int, snap[j].pos.y as int)
    }

    /// Well-formed: both dimensions positive, each square stores its own
    /// coordinate, and every history entry names squares of the board.
    pub open spec fn wf(self) -> bool {
        &&& self.layout_ok()
        &&& self.height() > 0
        &&& self.width() > 0
        &&& self.width() * self.height() <= usize::MAX
        &&& forall|x: int, y: int| self.in_bounds(x, y) ==> is_at(#[trigger] self.cell(x, y), x, y)
        &&& forall|i: int| 0 <= i < self.history().len() ==> self.snapshot_fits(#[trigger] self.history()[i])
    }

    /// Same dimensions and the same squares.
    pub open spec fn same_squares(self, other: Board) -> bool {
        &&& self.height() == other.height()
        &&& self.width() == other.width()
        &&& forall|x: int, y: int| self.in_bounds(x, y) ==> #[trigger] self.cell(x, y) == other.cell(x, y)
    }

    /// A board `x` squares wide and `y` squares high, all closed and empty.
    pub fn new(x: usize, y: usize) -> (r: Result<Board, String>)
        requires
            x * y <= usize::MAX,
        ensures
            r is Err <==> (x == 0 || y == 0),
            r matches Err(e) ==> e@ == "x or y is 0."@,
            r matches Ok(b) ==> {
                &&& b.wf()
                &&& b.width() == x
                &&& b.height() == y
                &&& b.history().len() == 0
                &&& forall|i: int, j: int| b.in_bounds(i, j) ==> #[trigger] b.cell(i, j) == fresh_square(i as usize, j as usize)
            },
    {
        if x == 0 || y == 0 {
            return Err("x or y is 0.".to_string());
        }
        let mut squares: Vec<Vec<Square>> = Vec::new();
        let mut h: usize = 0;
        while h < y
            invariant
                h <= y,
                squares@.len() == h,
                forall|j: int| 0 <= j < h ==> (#[trigger] squares@[j])@.len() == x,
                forall|i: int, j: int| 0 <= j < h && 0 <= i < x ==> squares@[j]@[i] == fresh_square(i as usize, j as usize),
            decreases y - h,
        {
            let mut line: Vec<Square> = Vec::new();
            let mut w: usize = 0;
            while w < x
                invariant
                    w <= x,
                    line@.len() == w,
                    forall|i: int| 0 <= i < w ==> line@[i] == fresh_square(i as usize, h),
                decreases x - w,
            {
                line.push(Square::new(w, h));
                w = w + 1;
            }
            squares.push(line);
            h = h + 1;
        }
        let board = Board { size: (y, x), squares, squares_history: Vec::new() };
        assert(board.history() =~= Seq::<Seq<Square>>::empty());
        Ok(board)
    }

    /// `(height, width)`.
    pub fn get_size(&self) -> (r: (usize, usize))
        ensures
            r.0 == self.height(),
            r.1 == self.width(),
    {
        self.size
    }

    /// The square at `pos = (x, y)`, or `None` off the board.
    pub fn get_square(&self, pos: (usize, usize)) -> (r: Option<&Square>)
        requires
            self.wf(),
        ensures
            same_opt(r, self.square_at(pos.0 as int, pos.1 as int)),
            r matches Some(s) ==> is_at(*s, pos.0 as int, pos.1 as int),
    {
        if pos.1 < self.squares.len() && pos.0 < self.squares[pos.1].len() {
            Some(&self.squares[pos.1][pos.0])
        } else {
            None
        }
    }

    /// The neighbour of `square` in direction `k` (see `dir_dx`), or `None`
    /// where that step leaves the board.
    fn neighbor_of(&self, square: &Square, k: usize) -> (r: Option<&Square>)
        requires
            self.wf(),
            k < 8,
        ensures
            same_opt(r, self.square_at(square.pos.x + dir_dx(k as int), square.pos.y + dir_dy(k as int))),
    {
        let x = square.pos.x;
        let y = square.pos.y;
        let nx: usize = if dir_dx_exec(k) > 0 {
            if x >= self.size.1 {
                return None;
            }
            x + 1
        } else if dir_dx_exec(k) < 0 {
            if x == 0 {
                return None;
            }
            x - 1
        } else {
            x
        };
        let ny: usize = if dir_dy_exec(k) > 0 {
            if y >= self.size.0 {
                return None;
            }
            y + 1
        } else if dir_dy_exec(k) < 0 {
            if y == 0 {
                return None;
            }
            y - 1
        } else {
            y
        };
        self.get_square((nx, ny))
    }

    pub fn get_right_square_of(&self, square: &Square) -> (r: Option<&Square>)
        requires
            self.wf(),
        ensures
            same_opt(r, self.square_at(square.pos.x + 1, square.pos.y as int)),
    {
        self.neighbor_of(square, 0)
    }

    pub fn get_left_square_of(&self, square: &Square) -> (r: Option<&Square>)
        requires
            self.wf(),
        ensures
            same_opt(r, self.square_at(square.pos.x - 1, square.pos.y as int)),
    {
        self.neighbor_of(square, 1)
    }

    pub fn get_upper_square_of(&self, square: &Square) -> (r: Option<&Square>)
        requires
            self.wf(),
        ensures
            same_opt(r, self.square_at(square.pos.x as int, square.pos.y - 1)),
    {
        self.neighbor_of(square, 2)
    }

    pub fn get_lower_square_of(&self, square: &Square) -> (r: Option<&Square>)
        requires
            self.wf(),
        ensures
            same_opt(r, self.square_at(square.pos.x as int, square.pos.y + 1)),
    {
        self.neighbor_of(square, 3)
    }

    pub fn get_upper_right_square_of(&self, square: &Square) -> (r: Option<&Square>)
        requires
            self.wf(),
        ensures
            same_opt(r, self.square_at(square.pos.x + 1, square.pos.y - 1)),
    {
        self.neighbor_of(square, 4)
    }

    pub fn get_lower_right_square_of(&self, square: &Square) -> (r: Option<&Square>)
        requires
            self.wf(),
        ensures
            same_opt(r, self.square_at(square.pos.x + 1, square.pos.y + 1)),
    {
        self.neighbor_of(square, 5)
    }

    pub fn get_upper_left_square_of(&self, square: &Square) -> (r: Option<&Square>)
        requires
            self.wf(),
        ensures
            same_opt(r, self.square_at(square.pos.x - 1, square.pos.y - 1)),
    {
        self.neighbor_of(square, 6)
    }

    pub fn get_lower_left_square_of(&self, square: &Square) -> (r: Option<&Square>)
        requires
            self.wf(),
        ensures
            same_opt(r, self.square_at(square.pos.x - 1, square.pos.y + 1)),
    {
        self.neighbor_of(square, 7)
    }

    /// The eight neighbours of `square` with their direction names, in the
    /// order right, left, upper, lower, upper_right, lower_right, upper_left,
    /// lower_left; a direction that leaves the board holds `None`.
    pub fn get_around_squares_of(&self, square: &Square) -> (r: Vec<(String, Option<&Square>)>)
        requires
            self.wf(),
        ensures
            r@.len() == 8,
            forall|k: int|
                0 <= k < 8 ==> {
                    &&& (#[trigger] r@[k]).0@ == dir_name(k)
                    &&& same_opt(r@[k].1, self.square_at(square.pos.x + dir_dx(k), square.pos.y + dir_dy(k)))
                },
    {
        let mut squares: Vec<(String, Option<&Square>)> = Vec::new();
        squares.push(("right".to_string(), self.get_right_square_of(square)));
        squares.push(("left".to_string(), self.get_left_square_of(square)));
        squares.push(("upper".to_string(), self.get_upper_square_of(square)));
        squares.push(("lower".to_string(), self.get_lower_square_of(square)));
        squares.push(("upper_right".to_string(), self.get_upper_right_square_of(square)));
        squares.push(("lower_right".to_string(), self.get_lower_right_square_of(square)));
        squares.push(("upper_left".to_string(), self.get_upper_left_square_of(square)));
        squares.push(("lower_left".to_string(), self.get_lower_left_square_of(square)));
        squares
    }


    fn render(&self, cursor: Option<(usize, usize)>) -> (r: String)
        requires
            self.wf(),
        ensures
            r@ == board_text(*self, cursor),
    {
        let mut out = String::new();
        let mut y: usize = 0;
        while y < self.size.0
            invariant
                self.wf(),
                y <= self.height(),
                out@ == rows_text(*self, cursor, y as int),
            decreases self.height() - y,
        {
            if y > 0 {
                out.append("\n");
            }
            let ghost head = out@;
            let mut x: usize = 0;
            while x < self.size.1
                invariant
                    self.wf(),
                    y < self.height(),
                    x <= self.width(),
                    out@ == head + row_text(*self, cursor, y as int, x as int),
                decreases self.width() - x,
            {
                let lit = match cursor {
                    Some(c) => c.0 == x && c.1 == y,
                    None => false,
                };
                let text = self.squares[y][x].to_string();
                let ghost before = out@;
                if lit {
                    out.append("\x1b[7m");
                }
                out.append(text.as_str());
                if lit {
                    out.append("\x1b[27m");
                }
                proof {
                    let t = square_text(self.cell(x as int, y as int), highlighted(cursor, x as int, y as int));
                    assert(out@ =~= before + t);
                    assert(head + row_text(*self, cursor, y as int, x + 1) =~= head + row_text(*self, cursor, y as int, x as int) + t);
                }
                x = x + 1;
            }
            y = y + 1;
        }
        out
    }

    /// The board as text, one line per row.
    pub fn to_string(&self) -> (r: String)
        requires
            self.wf(),
        ensures
            r@ == board_text(*self, None),
    {
        self.render(None)
    }

    /// The board as text with the square at `cursor = (x, y)` in reverse video.
    pub fn to_string_with_cursor(&self, cursor: (usize, usize)) -> (r: String)
        requires
            self.wf(),
        ensures
            r@ == board_text(*self, Some(cursor)),
    {
        self.render(Some(cursor))
    }

    /// Overwrites the square at `square`'s own coordinate; a square whose
    /// coordinate is off the board changes nothing.
    pub fn set_square(&mut self, square: Square)
        requires
            old(self).wf(),
        ensures
            final(self).wf(),
            final(self).history() == old(self).history(),
            final(self).height() == old(self).height(),
            final(self).width() == old(self).width(),
            forall|x: int, y: int|
                #![trigger final(self).cell(x, y)]
                old(self).in_bounds(x, y) ==> final(self).cell(x, y) == if is_at(square, x, y) {
                    square
                } else {
                    old(self).cell(x, y)
                },
    {
        let x = square.pos.x;
        let y = square.pos.y;
        if y < self.squares.len() && x < self.squares[y].len() {
            self.squares[y][x] = square;
        }
        assert(self.history() =~= old(self).history());
        assert forall|i: int, j: int| self.in_bounds(i, j) implies is_at(#[trigger] self.cell(i, j), i, j) by {
            assert(is_at(old(self).cell(i, j), i, j));
        }
    }

    /// Pushes one entry, the earlier states of the squares an action changed.
    pub fn add_squares_history(&mut self, squares: Vec<Square>)
        requires
            old(self).wf(),
            old(self).snapshot_fits(squares@),
        ensures
            final(self).wf(),
            final(self).history() == old(self).history().push(squares@),
            final(self).same_squares(*old(self)),
    {
        let ghost snap = squares@;
        self.squares_history.push(squares);
        assert forall|i: int, j: int| self.in_bounds(i, j) implies is_at(#[trigger] self.cell(i, j), i, j) by {
            assert(is_at(old(self).cell(i, j), i, j));
        }
        assert(self.history() =~= old(self).history().push(snap));
        assert forall|i: int| 0 <= i < self.history().len() implies self.snapshot_fits(
            #[trigger] self.history()[i],
        ) by {
            if i < old(self).history().len() {
                let e = old(self).history()[i];
                assert(self.history()[i] == e);
                assert(old(self).snapshot_fits(e));
                assert forall|j: int| 0 <= j < e.len() implies self.in_bounds(
                    #[trigger] e[j].pos.x as int,
                    e[j].pos.y as int,
                ) by {
                    assert(old(self).in_bounds(e[j].pos.x as int, e[j].pos.y as int));
                }
            } else {
                assert(self.history()[i] == snap);
                assert forall|j: int| 0 <= j < snap.len() implies self.in_bounds(
                    #[trigger] snap[j].pos.x as int,
                    snap[j].pos.y as int,
                ) by {
                    assert(old(self).in_bounds(snap[j].pos.x as int, snap[j].pos.y as int));
                }
            }
        }
    }

    /// Pops the latest history entry and writes each of its squares back at
    /// its coordinate; with an empty history nothing changes.
    pub fn back_squares_history(&mut self)
        requires
            old(self).wf(),
        ensures
            final(self).wf(),
            final(self).height() == old(self).height(),
            final(self).width() == old(self).width(),
            old(self).history().len() == 0 ==> final(self).history() == old(self).history()
                && final(self).same_squares(*old(self)),
            old(self).history().len() > 0 ==> {
                &&& final(self).history() == old(self).history().drop_last()
                &&& forall|x: int, y: int|
                    #![trigger final(self).cell(x, y)]
                    old(self).in_bounds(x, y) ==> final(self).cell(x, y) == restored(
                        old(self).history().last(),
                        old(self).cell(x, y),
                        x,
                        y,
                    )
            },
    {
        if self.squares_history.len() == 0 {
            return;
        }
        let ghost hist = old(self).history();
        let squares = self.squares_history.pop().unwrap();
        assert(self.history() =~= hist.drop_last());
        assert(squares@ == hist.last());
        assert(old(self).snapshot_fits(hist[hist.len() - 1]));
        assert forall|i: int| 0 <= i < self.history().len() implies self.snapshot_fits(
            #[trigger] self.history()[i],
        ) by {
            let e = hist[i];
            assert(self.history()[i] == e);
            assert(old(self).snapshot_fits(e));
            assert forall|j: int| 0 <= j < e.len() implies self.in_bounds(
                #[trigger] e[j].pos.x as int,
                e[j].pos.y as int,
            ) by {
                assert(old(self).in_bounds(e[j].pos.x as int, e[j].pos.y as int));
            }
        }
        assert forall|i: int, j: int| self.in_bounds(i, j) implies is_at(#[trigger] self.cell(i, j), i, j) by {
            assert(is_at(old(self).cell(i, j), i, j));
        }
        let ghost b0 = *self;
        let mut i: usize = 0;
        while i < squares.len()
            invariant
                self.wf(),
                0 <= i <= squares@.len(),
                hist.len() > 0,
                squares@ == hist.last(),
                b0.snapshot_fits(squares@),
                self.history() == hist.drop_last(),
                self.height() == b0.height(),
                self.width() == b0.width(),
                forall|x: int, y: int|
                    #![trigger self.cell(x, y)]
                    b0.in_bounds(x, y) ==> self.cell(x, y) == restored(
                        squares@.subrange(0, i as int),
                        b0.cell(x, y),
                        x,
                        y,
                    ),
            decreases squares@.len() - i,
        {
            let square = squares[i];
            assert(squares@.subrange(0, i + 1).drop_last() =~= squares@.subrange(0, i as int));
            self.set_square(square);
            i = i + 1;
        }
        assert(squares@.subrange(0, i as int) =~= squares@);
    }
}

fn dir_dx_exec(k: usize) -> (r: i8)
    requires
        k < 8,
    ensures
        r == dir_dx(k as int),
{
    if k == 0 || k == 4 || k == 5 {
        1
    } else if k == 1 || k == 6 || k == 7 {
        -1
    } else {
        0
    }
}

fn dir_dy_exec(k: usize) -> (r: i8)
    requires
        k < 8,
    ensures
        r == dir_dy(k as int),
{
    if k == 2 || k == 4 || k == 6 {
        -1
    } else if k == 3 || k == 5 || k == 7 {
        1
    } else {
        0
    }
}

} // verus!
