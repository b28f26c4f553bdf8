use piece_table::{EditError, Piece, PieceTable, Source};

#[test]
fn projecting_a_fresh_table_gives_back_its_text() {
    for s in ["", "a", "initial text", "héllo wörld ✓"] {
        assert_eq!(PieceTable::from_text(s).project(), s);
    }
}

#[test]
fn insert_splices_text_in_the_middle() {
    let mut table = PieceTable::from_text("hello world");
    assert_eq!(table.insert("big ", 6), Ok(()));
    assert_eq!(table.project(), "hello big world");
    assert_eq!(table.len(), 15);
}

#[test]
fn insert_at_the_start_of_a_non_empty_text() {
    let mut table = PieceTable::from_text("world");
    table.insert("hello ", 0).unwrap();
    assert_eq!(table.project(), "hello world");
    assert_eq!(
        *table.pieces(),
        [Piece::new(0..6, Source::Add), Piece::new(0..5, Source::Original)]
    );
}

#[test]
fn insert_into_an_empty_table() {
    let mut table = PieceTable::from_text("");
    table.insert("s", 0).unwrap();
    assert_eq!(table.project(), "s");
    assert_eq!(table.len(), 1);
}

#[test]
fn insert_far_past_the_end_is_out_of_range() {
    let mut table = PieceTable::from_text("initial text");
    assert_eq!(table.insert_char('s', 1000), Err(EditError::OutOfRange));
    assert_eq!(table.project(), "initial text");
}

#[test]
fn insert_one_past_the_end_is_out_of_range() {
    let mut table = PieceTable::from_text("abc");
    let len = table.len();
    assert_eq!(table.insert("t", len + 1), Err(EditError::OutOfRange));
    assert_eq!(table.project(), "abc");
    assert_eq!(table.pieces().len(), 1);
}

#[test]
fn remove_char_at_the_length_is_out_of_range() {
    let mut table = PieceTable::from_text("abc");
    let len = table.len();
    assert_eq!(table.remove_char(len), Err(EditError::OutOfRange));
    assert_eq!(table.project(), "abc");
}

#[test]
fn remove_past_the_end_is_out_of_range() {
    let mut table = PieceTable::from_text("initial text");
    assert_eq!(table.remove(7..13), Err(EditError::OutOfRange));
    assert_eq!(table.project(), "initial text");
    assert_eq!(table.pieces().len(), 1);
}

#[test]
fn remove_char_returns_the_removed_space() {
    let mut table = PieceTable::from_text("initial text");
    assert_eq!(table.remove_char(7), Ok(' '));
    assert_eq!(table.project(), "initialtext");
}

#[test]
fn remove_returns_the_half_open_range() {
    let mut table = PieceTable::from_text("initial text");
    assert_eq!(table.remove(7..12), Ok(" text".to_string()));
    assert_eq!(table.project(), "initial");
}

#[test]
fn remove_of_an_empty_range_changes_nothing() {
    let mut table = PieceTable::from_text("abcdef");
    assert_eq!(table.remove(3..3), Ok(String::new()));
    assert_eq!(table.remove(5..2), Ok(String::new()));
    assert_eq!(table.project(), "abcdef");
    assert_eq!(table.pieces().len(), 1);
}

#[test]
fn remove_across_piece_boundaries() {
    let mut table = PieceTable::from_text("abc");
    table.insert("XYZ", 1).unwrap();
    assert_eq!(table.project(), "aXYZbc");
    assert_eq!(table.remove(0..3), Ok("aXY".to_string()));
    assert_eq!(table.project(), "Zbc");
    assert_eq!(table.remove(1..3), Ok("bc".to_string()));
    assert_eq!(table.project(), "Z");
}

#[test]
fn multibyte_characters_are_removed_whole() {
    let mut table = PieceTable::from_text("añb");
    assert_eq!(table.len(), 3);
    assert_eq!(table.remove_char(1), Ok('ñ'));
    assert_eq!(table.project(), "ab");
    table.insert_char('é', 1).unwrap();
    assert_eq!(table.project(), "aéb");
}

#[test]
fn length_follows_the_projection_through_edits() {
    let mut table = PieceTable::from_text("piece table");
    table.insert("the ", 0).unwrap();
    table.remove_char(3).unwrap();
    table.insert_char('!', 14).unwrap();
    table.remove(4..9).unwrap();
    table.insert("ü", 2).unwrap();
    let text = table.project();
    assert_eq!(text, "thüeptable!");
    assert_eq!(table.len(), text.chars().count());
    assert!(!table.is_empty());
}

#[test]
fn undo_after_an_append_restores_the_text_and_redo_restores_the_edit() {
    let mut table = PieceTable::from_text("initial text");
    table.insert(" more", 12).unwrap();
    assert_eq!(table.project(), "initial text more");
    table.undo().unwrap();
    assert_eq!(table.project(), "initial text");
    assert_eq!(*table.pieces(), [Piece::new(0..12, Source::Original)]);
    table.redo().unwrap();
    assert_eq!(table.project(), "initial text more");
    assert!(table.undo_stack().is_empty());
}

#[test]
fn undo_and_redo_without_history_fail() {
    let mut table = PieceTable::from_text("abc");
    assert_eq!(table.redo(), Err(EditError::NoHistory));
    table.undo().unwrap();
    assert_eq!(table.pieces().len(), 0);
    assert_eq!(table.undo(), Err(EditError::NoHistory));
    assert_eq!(table.undo_stack().len(), 1);
}

#[test]
fn an_empty_piece_list_stands_for_the_original_text() {
    let mut table = PieceTable::from_text("abc");
    table.undo().unwrap();
    assert_eq!(table.project(), "abc");
    assert_eq!(table.len(), 3);
    table.insert_char('x', 3).unwrap();
    assert_eq!(table.project(), "abcx");
    assert_eq!(table.remove_char(0), Ok('a'));
    assert_eq!(table.project(), "bcx");
}

#[test]
fn redo_after_later_edits_puts_the_piece_back_at_its_index() {
    let mut table = PieceTable::from_text("ab");
    table.insert_char('c', 2).unwrap();
    table.undo().unwrap();
    assert_eq!(table.project(), "ab");
    table.insert_char('x', 0).unwrap();
    assert_eq!(table.project(), "xab");
    table.redo().unwrap();
    assert_eq!(table.project(), "xcab");
    assert_eq!(table.len(), 4);
}
