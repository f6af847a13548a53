use ruzzle::board::{
    get_points, parse_board, parse_board_and_mults, parse_board_symbols,
    parse_word_mults_to_int_mults, BoardError,
};

fn lines(text: &[&str]) -> Vec<String> {
    text.iter().map(|s| s.to_string()).collect()
}

#[test]
fn parses_letters_and_markers() {
    let raw = lines(&["A B", "C D", "", "2 -", "D T", "ignored"]);
    let (letters, marks) = parse_board_symbols(&raw, 2).unwrap();
    assert_eq!(letters, vec![1, 2, 3, 4]);
    assert_eq!(marks, vec![27, 29, 4, 20]);
}

#[test]
fn parses_letters_and_word_multipliers() {
    let raw = lines(&["A B", "C D", "", "2 -", "D 3"]);
    let (letters, mults) = parse_board_and_mults(&raw, 2).unwrap();
    assert_eq!(letters, vec![1, 2, 3, 4]);
    assert_eq!(mults, vec![2, 1, 1, 3]);

    let raw = lines(&[
        "A B C D", "E F G H", "I J K L", "M N O P", "",
        "- - 2 -", "- 3 - -", "- - - -", "- - - -",
    ]);
    let (letters, mults) = parse_board_and_mults(&raw, 4).unwrap();
    assert_eq!(letters, (1..=16).collect::<Vec<u8>>());
    assert_eq!(mults, vec![1, 1, 2, 1, 1, 3, 1, 1, 1, 1, 1, 1, 1, 1, 1, 1]);
}

#[test]
fn too_few_symbols() {
    let raw = lines(&["A B", "C D", "2 -"]);
    assert_eq!(parse_board_and_mults(&raw, 2), Err(BoardError::TooFewSymbols));
    assert_eq!(parse_board_and_mults(&Vec::new(), 1), Err(BoardError::TooFewSymbols));
}

#[test]
fn unknown_symbol() {
    let raw = lines(&["A b", "C D", "- - - -"]);
    assert_eq!(parse_board_and_mults(&raw, 2), Err(BoardError::UnknownSymbol));
    assert_eq!(parse_board_symbols(&raw, 2), Err(BoardError::UnknownSymbol));
    // symbols past the first 2 * n * n do not count
    let raw = lines(&["A B C D - - - - ?"]);
    assert!(parse_board_and_mults(&raw, 2).is_ok());
}

#[test]
fn word_multipliers_from_markers() {
    assert_eq!(parse_word_mults_to_int_mults(&vec![27, 28, 29, 4, 20]), vec![2, 3, 1, 1, 1]);
}

#[test]
fn points_apply_letter_multipliers() {
    // Q is worth 10, doubled by D; Z is 8, tripled by T; A is 1; E is 1 with a word marker
    let letters = vec![17, 26, 1, 5];
    let marks = vec![4, 20, 29, 27];
    assert_eq!(get_points(&letters, &marks), vec![20, 24, 1, 1]);
}

#[test]
fn board_from_text() {
    let raw = lines(&["Q A", "Z E", "", "D -", "T 3"]);
    let b = parse_board(&raw, 2).unwrap();
    assert_eq!(b.n, 2);
    assert_eq!(b.letters, vec![17, 1, 26, 5]);
    assert_eq!(b.points, vec![20, 1, 24, 1]);
    assert_eq!(b.word_mults, vec![1, 1, 1, 3]);
}

#[test]
fn marker_in_letter_grid() {
    let raw = lines(&["A 2", "C D", "", "- -", "- -"]);
    assert_eq!(parse_board(&raw, 2).err(), Some(BoardError::NotALetter));
}
