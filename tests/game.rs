use minesweeper::game::Game;

#[test]
fn test_cursor() {
    let mut game = Game::new(3, 3).unwrap();
    assert_eq!(game.board_to_string().as_str(), "\x1b[7m[]\x1b[27m[][]\n\
                [][][]\n\
                [][][]");
    game.cursor_right();
    assert_eq!(game.board_to_string().as_str(), "[]\x1b[7m[]\x1b[27m[]\n\
                [][][]\n\
                [][][]");
    game.cursor_left();
    assert_eq!(game.board_to_string().as_str(), "\x1b[7m[]\x1b[27m[][]\n\
                [][][]\n\
                [][][]");
    game.cursor_down();
    assert_eq!(game.board_to_string().as_str(), "[][][]\n\
                \x1b[7m[]\x1b[27m[][]\n\
                [][][]");
    game.cursor_up();
    assert_eq!(game.board_to_string().as_str(), "\x1b[7m[]\x1b[27m[][]\n\
                [][][]\n\
                [][][]");
    game.cursor((1, 1));
    assert_eq!(game.board_to_string().as_str(), "[][][]\n\
                []\x1b[7m[]\x1b[27m[]\n\
                [][][]");
    let mut game = Game::new(1, 1).unwrap();
    game.cursor_left();
    assert_eq!(game.board_to_string().as_str(), "\x1b[7m[]\x1b[27m");
    game.cursor_right();
    assert_eq!(game.board_to_string().as_str(), "\x1b[7m[]\x1b[27m");
    game.cursor_up();
    assert_eq!(game.board_to_string().as_str(), "\x1b[7m[]\x1b[27m");
    game.cursor_down();
    assert_eq!(game.board_to_string().as_str(), "\x1b[7m[]\x1b[27m");
}

#[test]
fn test_game_open() {
    let mut game = Game::new(1, 1).unwrap();
    game.open();
    assert_eq!(game.board_to_string().as_str(), "\x1b[7m  \x1b[27m");
}

#[test]
fn test_game_open_all_squares() {
    let mut game = Game::new(1, 1).unwrap();
    game.open_all_squares();
    assert_eq!(game.board_to_string().as_str(), "\x1b[7m  \x1b[27m");
    let mut game = Game::new(3, 3).unwrap();
    game.open_all_squares();
    assert_eq!(game.board_to_string().as_str(), "\x1b[7m  \x1b[27m    \n      \n      ");
}

#[test]
fn test_game_toggle_flag() {
    let mut game = Game::new(1, 1).unwrap();
    game.toggle_flag();
    assert_eq!(game.board_to_string().as_str(), "\x1b[7m\x1b[93m/>\x1b[0m\x1b[27m");
    game.toggle_flag();
    assert_eq!(game.board_to_string().as_str(), "\x1b[7m[]\x1b[27m");
}

#[test]
fn test_game_set_mines() {
    let mut game = Game::new(3, 3).unwrap();
    assert_eq!(game.board_to_string().as_str(), "\x1b[7m[]\x1b[27m[][]\n\
                [][][]\n\
                [][][]");
    game.place_mines(&vec![(1, 1)]);
    game.set_numbers_to_squares();
    game.open_all_squares();
    assert_eq!(game.board_to_string().as_str(), "\x1b[7m１\x1b[27m１１\n\
                １\x1b[91m<>\x1b[0m１\n\
                １１１");
}
