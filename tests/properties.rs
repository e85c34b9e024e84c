use minesweeper::board::Board;
use minesweeper::game::Game;
use minesweeper::score::Score;

fn square_state(game: &Game, x: usize, y: usize) -> (bool, bool, bool, usize) {
    let s = game.board().get_square((x, y)).unwrap();
    (s.is_mine, s.is_open, s.is_flag, s.number)
}

fn mines_next_to(game: &Game, x: usize, y: usize) -> usize {
    let (h, w) = game.board().get_size();
    let mut n = 0;
    for dy in -1i64..=1 {
        for dx in -1i64..=1 {
            if dx == 0 && dy == 0 {
                continue;
            }
            let nx = x as i64 + dx;
            let ny = y as i64 + dy;
            if nx >= 0 && ny >= 0 && (nx as usize) < w && (ny as usize) < h {
                if game.board().get_square((nx as usize, ny as usize)).unwrap().is_mine {
                    n += 1;
                }
            }
        }
    }
    n
}

#[test]
fn zero_dimension_is_rejected() {
    assert_eq!(Game::new(0, 5).err(), Some("x or y is 0.".to_string()));
    assert_eq!(Game::new(5, 0).err(), Some("x or y is 0.".to_string()));
    assert!(Game::new(0, 0).is_err());
    assert!(Game::new(1, 7).is_ok());
    assert!(Board::new(3, 0).is_err());
}

#[test]
fn game_dimensions_are_height_then_width() {
    let game = Game::new(2, 5).unwrap();
    assert_eq!(game.board().get_size(), (2, 5));
    assert!(game.board().get_square((4, 1)).is_some());
    assert!(game.board().get_square((1, 4)).is_none());
}

#[test]
fn get_square_returns_its_own_coordinate() {
    let board = Board::new(4, 3).unwrap();
    for y in 0..3 {
        for x in 0..4 {
            assert_eq!(board.get_square((x, y)).unwrap().get_pos(), (x, y));
        }
    }
    assert!(board.get_square((4, 0)).is_none());
    assert!(board.get_square((0, 3)).is_none());
}

#[test]
fn corners_have_three_neighbours_and_edges_five() {
    let board = Board::new(4, 3).unwrap();
    let present = |x: usize, y: usize| {
        let s = board.get_square((x, y)).unwrap();
        board.get_around_squares_of(s).iter().filter(|(_, n)| n.is_some()).count()
    };
    assert_eq!(present(0, 0), 3);
    assert_eq!(present(3, 0), 3);
    assert_eq!(present(0, 2), 3);
    assert_eq!(present(3, 2), 3);
    assert_eq!(present(1, 0), 5);
    assert_eq!(present(0, 1), 5);
    assert_eq!(present(3, 1), 5);
    assert_eq!(present(2, 2), 5);
    assert_eq!(present(1, 1), 8);
}

#[test]
fn neighbour_directions_are_named_in_order() {
    let board = Board::new(3, 3).unwrap();
    let s = board.get_square((1, 1)).unwrap();
    let around = board.get_around_squares_of(s);
    let names: Vec<&str> = around.iter().map(|(d, _)| d.as_str()).collect();
    assert_eq!(names, vec!["right", "left", "upper", "lower", "upper_right", "lower_right", "upper_left", "lower_left"]);
    let positions: Vec<(usize, usize)> = around.iter().map(|(_, n)| n.unwrap().get_pos()).collect();
    assert_eq!(positions, vec![(2, 1), (0, 1), (1, 0), (1, 2), (2, 0), (2, 2), (0, 0), (0, 2)]);
    assert_eq!(board.get_right_square_of(s).unwrap().get_pos(), (2, 1));
    assert_eq!(board.get_upper_left_square_of(s).unwrap().get_pos(), (0, 0));
}

#[test]
fn seeding_at_chosen_squares_clears_border_and_numbers_squares() {
    let mut game = Game::new(5, 6).unwrap();
    game.set_mines_at(&vec![(2, 2), (0, 3), (3, 1), (9, 9)]);
    for y in 0..5 {
        for x in 0..6 {
            let (mine, open, _, number) = square_state(&game, x, y);
            let border = x == 0 || y == 0 || x == 5 || y == 4;
            if border {
                assert!(!mine && open);
            } else {
                assert_eq!(mine, (x, y) == (2, 2) || (x, y) == (3, 1));
                assert!(!open);
            }
            assert_eq!(number, mines_next_to(&game, x, y));
        }
    }
    assert_eq!(square_state(&game, 2, 1).3, 2);
    assert_eq!(square_state(&game, 1, 1).3, 1);
}

#[test]
fn random_seeding_keeps_mines_inside() {
    let mut game = Game::new(5, 5).unwrap();
    game.set_mines(100);
    let mut mines = 0;
    for y in 0..5 {
        for x in 0..5 {
            let (mine, open, _, number) = square_state(&game, x, y);
            if x == 0 || y == 0 || x == 4 || y == 4 {
                assert!(!mine && open);
            } else if mine {
                mines += 1;
            }
            assert_eq!(number, mines_next_to(&game, x, y));
        }
    }
    assert!(mines >= 1);
}

#[test]
fn open_spreads_over_zero_region_and_one_undo_reverts_it() {
    let mut game = Game::new(5, 5).unwrap();
    game.place_mines(&vec![(4, 4)]);
    game.set_numbers_to_squares();
    game.cursor((2, 0));
    game.toggle_flag();
    game.cursor((0, 0));
    let before = game.board_to_string();
    game.open();
    for y in 0..5 {
        for x in 0..5 {
            let (_, open, _, _) = square_state(&game, x, y);
            // the flag, and the mine, stay closed; everything else is reached
            assert_eq!(open, !((x, y) == (2, 0) || (x, y) == (4, 4)), "square {} {}", x, y);
        }
    }
    let score = game.get_score();
    assert_eq!(score.number_of_opened_squares, 23);
    assert_eq!(score.number_of_flags, 1);
    game.back_history();
    assert_eq!(game.board_to_string(), before);
    assert_eq!(game.get_score().number_of_opened_squares, 0);
    // the flag survives: it was an earlier action
    assert!(square_state(&game, 2, 0).2);
}

#[test]
fn open_stops_at_numbered_squares() {
    let mut game = Game::new(1, 5).unwrap();
    game.place_mines(&vec![(3, 0)]);
    game.set_numbers_to_squares();
    game.open();
    assert_eq!(game.board_to_string(), "\x1b[7m  \x1b[27m  １[][]");
    game.back_history();
    assert_eq!(game.board_to_string(), "\x1b[7m[]\x1b[27m[][][][]");
}

#[test]
fn open_on_flag_or_open_square_does_nothing() {
    let mut game = Game::new(2, 2).unwrap();
    game.toggle_flag();
    game.open();
    assert_eq!(game.board_to_string(), "\x1b[7m\x1b[93m/>\x1b[0m\x1b[27m[]\n[][]");
    game.cursor_right();
    game.open();
    let opened = game.board_to_string();
    game.open();
    assert_eq!(game.board_to_string(), opened);
    game.back_history();
    assert_eq!(game.board_to_string(), "\x1b[93m/>\x1b[0m\x1b[7m[]\x1b[27m\n[][]");
}

#[test]
fn toggle_then_undo_restores_only_that_square() {
    let mut game = Game::new(3, 3).unwrap();
    game.cursor((1, 2));
    game.toggle_flag();
    assert!(square_state(&game, 1, 2).2);
    game.cursor((0, 0));
    game.toggle_flag();
    assert!(square_state(&game, 0, 0).2);
    game.back_history();
    assert!(!square_state(&game, 0, 0).2);
    assert!(square_state(&game, 1, 2).2);
    game.back_history();
    assert!(!square_state(&game, 1, 2).2);
    game.open_all_squares();
    let opened = game.board_to_string();
    game.toggle_flag();
    assert_eq!(game.board_to_string(), opened);
    game.back_history();
    assert!(!square_state(&game, 0, 0).1);
}

#[test]
fn score_before_and_after_open_all() {
    let mut game = Game::new(3, 3).unwrap();
    game.place_mines(&vec![(1, 1)]);
    let s = game.get_score();
    assert_eq!(s.number_of_unopened_squares + s.number_of_unopened_mines, 9);
    assert_eq!(s.number_of_unopened_mines, 1);
    assert_eq!((s.number_of_opened_mines, s.number_of_opened_squares), (0, 0));
    game.open_all_squares();
    let s = game.get_score();
    assert_eq!((s.number_of_unopened_squares, s.number_of_unopened_mines, s.number_of_flags), (0, 0, 0));
    assert_eq!((s.number_of_opened_mines, s.number_of_opened_squares), (1, 8));
}

#[test]
fn three_by_three_with_centre_mine_renders_ones_around_it() {
    let mut game = Game::new(3, 3).unwrap();
    game.set_mines_at(&vec![(1, 1)]);
    game.open_all_squares();
    assert_eq!(game.board().to_string(), "１１１\n１\x1b[91m<>\x1b[0m１\n１１１");
}

#[test]
fn cursor_stays_on_board() {
    let mut game = Game::new(3, 4).unwrap();
    game.cursor_end();
    assert_eq!(game.get_cursor(), (3, 0));
    game.cursor_right();
    assert_eq!(game.get_cursor(), (3, 0));
    game.cursor_bottom();
    assert_eq!(game.get_cursor(), (3, 2));
    game.cursor_down();
    assert_eq!(game.get_cursor(), (3, 2));
    game.cursor_home();
    assert_eq!(game.get_cursor(), (0, 2));
    game.cursor_left();
    assert_eq!(game.get_cursor(), (0, 2));
    game.cursor_top();
    assert_eq!(game.get_cursor(), (0, 0));
    game.cursor_up();
    assert_eq!(game.get_cursor(), (0, 0));
    game.cursor((4, 1));
    assert_eq!(game.get_cursor(), (0, 0));
    game.cursor((3, 3));
    assert_eq!(game.get_cursor(), (0, 0));
    game.cursor((3, 2));
    assert_eq!(game.get_cursor(), (3, 2));
}

#[test]
fn score_line_text() {
    let s = Score {
        number_of_flags: 3,
        number_of_unopened_mines: 12,
        number_of_unopened_squares: 105,
        number_of_opened_mines: 0,
        number_of_opened_squares: 7,
    };
    assert_eq!(
        s.to_string(),
        "[] 105  |  [\x1b[91m<>\x1b[0m] 12  |  \x1b[93m/>\x1b[0m 3  |  \x1b[91m<>\x1b[0m 0  |  [\x1b[91m<>\x1b[0m] - \x1b[93m/>\x1b[0m = 9"
    );
    let s = Score {
        number_of_flags: 4,
        number_of_unopened_mines: 1,
        number_of_unopened_squares: 0,
        number_of_opened_mines: 2,
        number_of_opened_squares: 10,
    };
    assert!(s.to_string().ends_with("= -3"));
}

#[test]
fn undo_with_empty_history_changes_nothing() {
    let mut game = Game::new(2, 3).unwrap();
    let before = game.board_to_string();
    game.back_history();
    assert_eq!(game.board_to_string(), before);
}

#[test]
fn digits_above_nine_show_fullwidth_zero() {
    let mut board = Board::new(1, 1).unwrap();
    let mut s = *board.get_square((0, 0)).unwrap();
    s.is_open = true;
    s.number = 12;
    board.set_square(s);
    assert_eq!(board.to_string(), "０");
}
