use battleship::board::Board;

const OPEN: &str = "eeeeeeeeee";

fn strings(rows: &[&str]) -> Vec<String> {
    rows.iter().map(|r| r.to_string()).collect()
}

#[test]
fn rows_round_trip() {
    let rows = strings(&[
        "sssssemhee", OPEN, "eeeeeeeeeh", "meeeeeeeee", OPEN, OPEN, "eeessseeee", OPEN, OPEN,
        "ssemeeeehh",
    ]);
    let b = Board::from_rows(&rows).unwrap();
    assert_eq!(b.0[0], ['s', 's', 's', 's', 's', 'e', 'm', 'h', 'e', 'e']);
    assert_eq!(b.0[2][9], 'h');
    assert_eq!(b.0[9][9], 'h');
    assert_eq!(b.to_rows(), rows);
}

#[test]
fn empty_board_is_ten_rows_of_open_water() {
    assert_eq!(Board::empty().to_rows(), strings(&[OPEN; 10]));
}

#[test]
fn short_rows_are_padded_with_open_water() {
    let b = Board::from_rows(&strings(&["ss", "", "h"])).unwrap();
    let mut expected = strings(&[OPEN; 10]);
    expected[0] = "sseeeeeeee".to_string();
    expected[2] = "heeeeeeeee".to_string();
    assert_eq!(b.to_rows(), expected);
    assert_eq!(Board::from_rows(&Vec::new()).unwrap(), Board::empty());
}

#[test]
fn rows_that_do_not_fit_are_refused() {
    assert_eq!(Board::from_rows(&strings(&[OPEN; 11])), None);
    assert_eq!(Board::from_rows(&strings(&["eeeeeeeeeee"])), None);
    let mut rows = strings(&[OPEN; 10]);
    rows[9] = "eeeeeeeeees".to_string();
    assert_eq!(Board::from_rows(&rows), None);
}

#[test]
fn rows_are_counted_in_characters() {
    // ten characters, more than ten bytes
    let b = Board::from_rows(&strings(&["éeeeeeeeeé"])).unwrap();
    assert_eq!(b.0[0][0], 'é');
    assert_eq!(b.0[0][9], 'é');
    assert_eq!(b.to_rows()[0], "éeeeeeeeeé");
}

#[test]
fn syntax_check_accepts_the_four_codes_only() {
    let good = Board::from_rows(&strings(&["eshm", "mhse"])).unwrap();
    assert!(good.validate_syntax());
    assert!(Board::empty().validate_syntax());
    let bad = Board::from_rows(&strings(&[OPEN, "eeeeSeeeee"])).unwrap();
    assert!(!bad.validate_syntax());
    let mut last = Board::empty();
    last.put(9, 9, ' ');
    assert!(!last.validate_syntax());
}

#[test]
fn conceal_hides_intact_ship_cells_only() {
    let b = Board::from_rows(&strings(&["sshmeeeeee", OPEN, "eeeeeeeees"])).unwrap();
    let shown = b.conceal();
    let mut expected = strings(&[OPEN; 10]);
    expected[0] = "eehmeeeeee".to_string();
    assert_eq!(shown.to_rows(), expected);
    // the board itself is untouched
    assert_eq!(b.0[0][0], 's');
}
