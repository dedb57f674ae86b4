use connect_four::board::Board;
use connect_four::opening::Lookup;

#[test]
fn empty_book_always_misses() {
    let book = Lookup::new();
    assert_eq!(book.get(Board::new().key()), None);
    assert_eq!(book.get(Board::from("4").key()), None);
}

#[test]
fn insert_then_get_by_position_key() {
    let mut book = Lookup::new();
    book.insert("4", 11);
    book.insert("44", -2);
    assert_eq!(book.get(Board::from("4").key()), Some(11));
    assert_eq!(book.get(Board::from("44").key()), Some(-2));
    assert_eq!(book.get(Board::from("45").key()), None);
}

#[test]
fn from_text_parses_lines() {
    let book = Lookup::from_text("4 3\n44 -2\n445 +17\n").expect("well-formed dataset");
    assert_eq!(book.get(Board::from("4").key()), Some(3));
    assert_eq!(book.get(Board::from("44").key()), Some(-2));
    assert_eq!(book.get(Board::from("445").key()), Some(17));
    assert_eq!(book.get(Board::from("45").key()), None);
}

#[test]
fn from_text_accepts_field_whitespace_and_extra_fields() {
    let book = Lookup::from_text("  4 \t 3  trailing junk\r\n44    0").expect("well-formed");
    assert_eq!(book.get(Board::from("4").key()), Some(3));
    assert_eq!(book.get(Board::from("44").key()), Some(0));
}

#[test]
fn from_text_later_line_overrides_earlier() {
    let book = Lookup::from_text("4 3\n4 7\n").expect("well-formed dataset");
    assert_eq!(book.get(Board::from("4").key()), Some(7));
}

#[test]
fn from_text_rejects_missing_score() {
    assert!(Lookup::from_text("4\n").is_err());
    assert!(Lookup::from_text("4 3\n44\n").is_err());
}

#[test]
fn from_text_rejects_bad_move_strings() {
    // Column digit out of range.
    assert!(Lookup::from_text("8 3\n").is_err());
    // Not a digit at all.
    assert!(Lookup::from_text("4x 3\n").is_err());
    // The seventh drop into one column overflows it.
    assert!(Lookup::from_text("4444444 0\n").is_err());
}

#[test]
fn from_text_rejects_bad_scores() {
    assert!(Lookup::from_text("4 abc\n").is_err());
    assert!(Lookup::from_text("4 12a\n").is_err());
    assert!(Lookup::from_text("4 300\n").is_err());
    assert!(Lookup::from_text("4 -300\n").is_err());
    assert!(Lookup::from_text("4 -\n").is_err());
    assert!(Lookup::from_text("4 99999999999999999999\n").is_err());
}

#[test]
fn from_text_score_range_edges() {
    let book = Lookup::from_text("4 127\n44 -128\n").expect("extremes fit");
    assert_eq!(book.get(Board::from("4").key()), Some(127));
    assert_eq!(book.get(Board::from("44").key()), Some(-128));
}

#[test]
fn from_text_rejects_empty_and_blank_datasets() {
    assert!(Lookup::from_text("").is_err());
    assert!(Lookup::from_text("  \n\t\n").is_err());
    assert!(Lookup::from_text("4 3\n\n44 0\n").is_err());
}
