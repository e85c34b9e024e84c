use minesweeper::board::{Board, Square};

#[test]
fn test_square_to_string() {
    let mut square = Square::new(0, 0);
    assert_eq!(square.to_string().as_str(), "[]");
    square.is_flag = true;
    assert_eq!(square.to_string().as_str(), "\x1b[93m/>\x1b[0m");
    square.is_open = true;
    assert_eq!(square.to_string().as_str(), "  ");
    square.number = 1;
    assert_eq!(square.to_string().as_str(), "１");
    square.number = 8;
    assert_eq!(square.to_string().as_str(), "８");
    square.is_mine = true;
    assert_eq!(square.to_string().as_str(), "\x1b[91m<>\x1b[0m");
}

#[test]
fn test_board_new() {
    assert_eq!(Board::new(0, 0), Err("x or y is 0.".to_string()));
    assert!(Board::new(1, 1).is_ok());
    assert!(Board::new(10, 10).is_ok());
    assert!(Board::new(100, 100).is_ok());
}

#[test]
fn test_board_get_size() {
    assert_eq!(Board::new(1, 1).unwrap().get_size(), (1, 1));
    assert_eq!(Board::new(3, 3).unwrap().get_size(), (3, 3));
}

#[test]
fn test_board_get_square() {
    let board = Board::new(10, 10).unwrap();
    assert_eq!(board.get_square((10, 10)), None);
    assert_eq!(board.get_square((20, 20)), None);
    assert_eq!(board.get_square((0, 0)).unwrap(), &Square::new(0, 0));
    assert_eq!(board.get_square((9, 9)).unwrap(), &Square::new(9, 9));
    assert_eq!(board.get_square((3, 6)).unwrap(), &Square::new(3, 6));
}

#[test]
fn test_board_borrow() {
    let mut board = Board::new(10, 10).unwrap();
    let mut square = *board.get_square((5, 5)).unwrap();
    square.is_open = true;
    square.is_mine = true;
    board.set_square(square);

    let mut square = *board.get_square((6, 6)).unwrap();
    square.is_open = true;
    square.is_mine = true;
    board.set_square(square);
}

// also covers the get_{direction}_square_of functions
#[test]
fn test_board_get_around_squares_of() {
    let board = Board::new(10, 10).unwrap();
    let center_square = board.get_square((0, 0)).unwrap();
    let around_squares = board.get_around_squares_of(center_square);
    for (direction, square) in around_squares {
        match direction.as_str() {
            "lower_left" | "left" | "upper_left" | "upper" | "upper_right" => assert_eq!(square, None),
            _ => (),
        }
    }
    let center_square = board.get_square((9, 9)).unwrap();
    let around_squares = board.get_around_squares_of(center_square);
    for (direction, square) in around_squares {
        match direction.as_str() {
            "upper_right" | "right" | "lower_right" | "lower" | "lower_left" => assert_eq!(square, None),
            _ => (),
        }
    }
    let mut board = Board::new(3, 3).unwrap();
    let square = *board.get_square((1, 1)).unwrap();
    let around_squares: Vec<(String, (usize, usize))> = board
        .get_around_squares_of(&square)
        .into_iter()
        .map(|(direction, around_square)| (direction, around_square.unwrap().get_pos()))
        .collect();
    for (direction, pos) in around_squares.iter() {
        let number = match direction.as_str() {
            "right" => 1,
            "left" => 2,
            "upper" => 3,
            "lower" => 4,
            "upper_right" => 5,
            "lower_right" => 6,
            "upper_left" => 7,
            "lower_left" => 8,
            _ => 0,
        };
        let mut around_square = *board.get_square(*pos).unwrap();
        around_square.number = number;
        around_square.is_open = true;
        board.set_square(around_square);
    }
    assert_eq!(board.to_string().as_str(), "７３５\n\
                ２[]１\n\
                ８４６");
}

#[test]
fn test_board_to_string() {
    let board = Board::new(1, 1).unwrap();
    assert_eq!(board.to_string().as_str(), "[]");
    let board = Board::new(1, 2).unwrap();
    assert_eq!(board.to_string().as_str(), "[]\n[]");
    let mut board = Board::new(3, 3).unwrap();
    assert_eq!(board.to_string().as_str(), "[][][]\n\
                [][][]\n\
                [][][]");
    let mut s = *board.get_square((0, 0)).unwrap();
    s.is_flag = true;
    board.set_square(s);
    let mut s = *board.get_square((0, 2)).unwrap();
    s.is_flag = true;
    board.set_square(s);
    let mut s = *board.get_square((1, 1)).unwrap();
    s.is_open = true;
    board.set_square(s);
    let mut s = *board.get_square((2, 2)).unwrap();
    s.is_open = true;
    s.number = 2;
    board.set_square(s);
    assert_eq!(board.to_string().as_str(), "\x1b[93m/>\x1b[0m[][]\n\
                []  []\n\
                \x1b[93m/>\x1b[0m[]２");
}

#[test]
fn test_board_to_string_with_cursor() {
    let board = Board::new(1, 1).unwrap();
    assert_eq!(board.to_string_with_cursor((0, 0)).as_str(), "\x1b[7m[]\x1b[27m");
    let board = Board::new(3, 3).unwrap();
    assert_eq!(board.to_string_with_cursor((1, 1)).as_str(), "[][][]\n\
                []\x1b[7m[]\x1b[27m[]\n\
                [][][]");
    assert_eq!(board.to_string_with_cursor((2, 2)).as_str(), "[][][]\n\
                [][][]\n\
                [][]\x1b[7m[]\x1b[27m");
}
