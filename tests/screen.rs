use minesweeper::screen::{
    count_color_escape_sequences, count_color_escape_sequences_and_zenkaku_number, count_zenkaku_number,
};

#[test]
fn test_count_color_escape_sequences() {
    let text = "aiueo";
    assert_eq!(count_color_escape_sequences(text), 0);
    let text = "\x1b[2maaa";
    assert_eq!(count_color_escape_sequences(text), 4);
    let text = "\x1b[100maaa";
    assert_eq!(count_color_escape_sequences(text), 6);
    let text = "\x1b[100maaa\x1b[100m\x1b[100m";
    assert_eq!(count_color_escape_sequences(text), 18);
}

#[test]
fn test_count_zenkaku_number() {
    assert_eq!(count_zenkaku_number("123"), 0);
    assert_eq!(count_zenkaku_number("１２３"), 3);
    assert_eq!(count_zenkaku_number("１２３123"), 3);
    assert_eq!(count_zenkaku_number("１２３123１２３"), 6);
}

#[test]
fn test_count_color_escape_sequences_and_zenkaku_number() {
    let text = "";
    assert_eq!(count_color_escape_sequences_and_zenkaku_number(text), (0, 0));
    let text = "\x1b[100maaa\x1b[100m\x1b[100m";
    assert_eq!(count_color_escape_sequences_and_zenkaku_number(text), (count_color_escape_sequences(text), 0));
    let text = "１２３123１２３";
    assert_eq!(count_color_escape_sequences_and_zenkaku_number(text), (0, count_zenkaku_number(text)));
    let text = "\x1b[100maaa１２３123１２３\x1b[100maaa\x1b[100m";
    assert_eq!(
        count_color_escape_sequences_and_zenkaku_number(text),
        (count_color_escape_sequences(text), count_zenkaku_number(text))
    );
}

#[test]
fn escape_count_includes_text_inside_an_open_sequence() {
    assert_eq!(count_color_escape_sequences("\x1b[7mab\x1b[27m"), 9);
    assert_eq!(count_color_escape_sequences("m"), 1);
    assert_eq!(count_color_escape_sequences_and_zenkaku_number("\x1b[0m０９"), (4, 2));
}
