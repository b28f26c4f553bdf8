use piece_table::{Piece, PieceTable, Source};

#[test]
fn should_add_piece_at_the_beginning() {
    // given
    let mut table = PieceTable::default();
    let new_char = 's';
    let cursor = 0;

    // when
    table.insert_char(new_char, cursor).unwrap();

    // then
    assert_eq!(table.pieces().len(), 2);
    assert_eq!(
        *table.pieces(),
        [
            Piece::new(0..0, Source::Original),
            Piece::new(0..1, Source::Add),
        ]
    );
}

#[test]
fn should_add_each_char_piece() {
    // given
    let mut table = PieceTable::from_text("a");
    let cursor = 1;

    // when
    table.insert_char('b', cursor).unwrap();
    table.insert_char('c', cursor).unwrap();

    // then
    assert_eq!(table.pieces().len(), 3);
    assert_eq!(
        *table.pieces(),
        [
            Piece::new(0..1, Source::Original),
            Piece::new(1..2, Source::Add),
            Piece::new(0..1, Source::Add),
        ]
    );
}

#[test]
fn should_add_char_when_cursor_moved_back() {
    // given
    let mut table = PieceTable::from_text("a");
    let cursor = 1;
    table.insert_char('b', cursor).unwrap();
    table.insert_char('c', cursor + 1).unwrap();

    // then
    assert_eq!(table.pieces().len(), 3);
    assert_eq!(
        *table.pieces(),
        [
            Piece::new(0..1, Source::Original),
            Piece::new(0..1, Source::Add),
            Piece::new(1..2, Source::Add),
        ]
    );
}

#[test]
fn should_add_line_piece_appended_at_the_end() {
    // given
    let initial_txt = "initial text";
    let mut table = PieceTable::from_text(initial_txt);
    let new_char = 's';
    let cursor = initial_txt.len();

    // when
    table.insert_char(new_char, cursor).unwrap();

    // then
    assert_eq!(table.pieces().len(), 2);
    assert_eq!(
        *table.pieces(),
        [
            Piece::new(0..initial_txt.len(), Source::Original),
            Piece::new(0..1, Source::Add),
        ]
    );
}

#[test]
fn should_add_line_inserted_in_the_middle() {
    // given
    let txt_before = "some ";
    let txt_after = "initial text";
    let initial_txt = &format!("{txt_before}{txt_after}");
    let mut table = PieceTable::from_text(initial_txt);
    let new_char = 's';
    let cursor = 5;

    // when
    table.insert_char(new_char, cursor).unwrap();

    // then
    assert_eq!(table.pieces().len(), 3);
    assert_eq!(
        *table.pieces(),
        [
            Piece::new(0..txt_before.len(), Source::Original),
            Piece::new(0..1, Source::Add),
            Piece::new(
                txt_before.len()..txt_before.len() + txt_after.len(),
                Source::Original
            ),
        ]
    );
}

#[test]
fn should_remove_char_from_the_middle() {
    // given
    let txt_before = "initial";
    let txt_after = "txt";
    let initial_txt = &format!("{txt_before} {txt_after}");
    let mut table = PieceTable::from_text(initial_txt);

    // when
    let removed = table.remove_char(7);

    // then
    assert_eq!(removed.ok(), Some(' '));
    assert_eq!(table.pieces().len(), 2);
    assert_eq!(
        *table.pieces(),
        [
            Piece::new(0..txt_before.len(), Source::Original),
            Piece::new(
                (txt_before.len() + 1)..txt_before.len() + 1 + txt_after.len(),
                Source::Original
            ),
        ]
    );
}

#[test]
fn should_remove_end_char_multiple_times() {
    // given
    let initial_text = "initial text";
    let mut table = PieceTable::from_text(initial_text);
    let remove_count = 5;

    // when
    let mut removed_chars = Vec::new();
    for i in 0..remove_count {
        let removed = table.remove_char(11 - i);
        removed_chars.push(removed.unwrap());
    }

    // then
    assert_eq!(removed_chars, ['t', 'x', 'e', 't', ' ']);
    assert_eq!(table.pieces().len(), 1);
    assert_eq!(
        *table.pieces(),
        [Piece::new(
            0..initial_text.len() - remove_count,
            Source::Original
        )]
    );
}

#[test]
fn should_delete_consecutive_chars() {
    // given
    let initial_text = "initial text";
    let mut table = PieceTable::from_text(initial_text);
    let remove_count = 5;

    // when
    let mut removed_chars = Vec::new();
    for _ in 0..remove_count {
        let removed = table.remove_char(7);
        removed_chars.push(removed.unwrap());
    }

    // then
    assert_eq!(removed_chars, [' ', 't', 'e', 'x', 't']);
    assert_eq!(table.pieces().len(), 2);
    assert_eq!(
        *table.pieces(),
        [
            Piece::new(0..7, Source::Original),
            Piece::new(initial_text.len()..initial_text.len(), Source::Original),
        ]
    );
}

#[test]
fn should_remove_chars_at_the_end() {
    // given
    let initial_txt = "initial text";
    let mut table = PieceTable::from_text(initial_txt);

    // when
    let removed1 = table.remove_char(initial_txt.len() - 1);
    let removed2 = table.remove_char(initial_txt.len() - 2);

    // then
    assert_eq!(removed1.ok(), Some('t'));
    assert_eq!(removed2.ok(), Some('x'));
    assert_eq!(table.pieces().len(), 1);
    assert_eq!(
        *table.pieces(),
        [Piece::new(0..(initial_txt.len() - 2), Source::Original)]
    );
}

#[test]
fn should_remove_range() {
    // given
    let initial_txt = "initial text";
    let mut table = PieceTable::from_text(initial_txt);

    // when
    let removed = table.remove(7..12);

    // then
    assert_eq!(removed.ok(), Some(" text".to_string()));
    assert_eq!(table.pieces().len(), 1);
    assert_eq!(*table.pieces(), [Piece::new(0..7, Source::Original)]);
}

#[test]
fn shuld_undo_last_operation() {
    // given
    let initial_txt = "initial text";
    let mut table = PieceTable::from_text(initial_txt);
    let new_char = 's';
    table.insert_char(new_char, initial_txt.len()).unwrap();
    assert_eq!(table.pieces().len(), 2);
    assert!(table.undo_stack().is_empty());

    // when
    table.undo().unwrap();

    // then
    assert_eq!(table.pieces().len(), 1);
    assert_eq!(table.undo_stack().len(), 1);
}

#[test]
fn shuld_redo_last_operation() {
    // given
    let initial_txt = "initial text";
    let mut table = PieceTable::from_text(initial_txt);
    let new_char = 's';
    table.insert_char(new_char, initial_txt.len()).unwrap();
    table.undo().unwrap();
    assert_eq!(table.pieces().len(), 1);
    assert_eq!(table.undo_stack().len(), 1);

    // when
    table.redo().unwrap();

    // then
    assert_eq!(table.pieces().len(), 2);
    assert!(table.undo_stack().is_empty());
}

#[test]
fn empty_table_projects_empty_string() {
    // given
    let table = PieceTable::default();

    // when
    let txt = table.project();

    // then
    assert_eq!(txt, String::new());
}

#[test]
fn should_show_added_line_when_table_is_empty() {
    // given
    let mut table = PieceTable::default();
    let new_char = 's';
    let cursor = 0;
    table.insert_char(new_char, cursor).unwrap();

    // when
    let txt = table.project();

    // then
    assert_eq!(txt, char::to_string(&new_char));
}

#[test]
fn should_show_added_chars() {
    // given
    let mut table = PieceTable::from_text("a");
    let cursor = 1;
    table.insert_char('b', cursor).unwrap();
    table.insert_char('c', cursor).unwrap();

    // when
    let txt = table.project();

    // then
    assert_eq!(txt, "acb");
}

#[test]
fn should_show_line_appended_at_the_end() {
    // given
    let initial_txt = "initial text";
    let mut table = PieceTable::from_text(initial_txt);
    let new_char = 's';
    let cursor = initial_txt.len();
    table.insert_char(new_char, cursor).unwrap();

    // when
    let txt = table.project();

    // then
    assert_eq!(txt, format!("{initial_txt}{new_char}"));
}

#[test]
fn should_show_line_inserted_in_the_middle() {
    // given
    let mut table = PieceTable::from_text("some initial text");
    let new_char = 's';
    let cursor = 5;
    table.insert_char(new_char, cursor).unwrap();

    // when
    let txt = table.project();

    // then
    assert_eq!(&txt, "some sinitial text");
}

#[test]
fn lib_should_remove_char_from_the_middle() {
    // given
    let mut table = PieceTable::from_text("initial text");
    table.remove_char(7).unwrap();

    // when
    let txt = table.project();

    // then
    assert_eq!(txt, "initialtext");
}

#[test]
fn lib_should_remove_end_char_multiple_times() {
    // given
    let mut table = PieceTable::from_text("initial text");
    table.remove_char(11).unwrap();
    table.remove_char(10).unwrap();
    table.remove_char(9).unwrap();
    table.remove_char(8).unwrap();
    table.remove_char(7).unwrap();

    // when
    let txt = table.project();

    // then
    assert_eq!(txt, "initial");
}

#[test]
fn lib_should_delete_consecutive_chars() {
    // given
    let mut table = PieceTable::from_text("initial text");
    table.remove_char(7).unwrap();
    table.remove_char(7).unwrap();
    table.remove_char(7).unwrap();
    table.remove_char(7).unwrap();
    table.remove_char(7).unwrap();

    // when
    let txt = table.project();

    // then
    assert_eq!(txt, "initial");
}

#[test]
fn lib_should_remove_chars_at_the_end() {
    // given
    let initial_text = "initial text";
    let mut table = PieceTable::from_text(initial_text);
    table.remove_char(initial_text.len() - 1).unwrap();
    table.remove_char(initial_text.len() - 2).unwrap();

    // when
    let txt = table.project();

    // then
    assert_eq!(txt, "initial te");
}

#[test]
fn should_not_show_removed_range() {
    // given
    let mut table = PieceTable::from_text("initial text");
    table.remove(7..12).unwrap();

    // when
    let txt = table.project();

    // then
    assert_eq!(txt, "initial");
}

#[test]
fn empty_piece_table_has_len_zero() {
    // given
    let piece_table = PieceTable::from_text("");

    // when
    let len = piece_table.len();

    // then
    assert_eq!(len, 0);
}

#[test]
fn piece_table_from_text_has_len_equal_to_initial_text() {
    // given
    let initial_txt = "initial text";
    let piece_table = PieceTable::from_text(initial_txt);

    // when
    let len = piece_table.len();

    // then
    assert_eq!(len, initial_txt.len());
}

#[test]
fn len_takes_into_account_modifiec_piece_table() {
    // given
    let mut table = PieceTable::from_text("a");
    let cursor = 1;
    table.insert_char('b', cursor).unwrap();
    table.insert_char('c', cursor).unwrap();

    // when
    let len = table.len();

    // then
    assert_eq!(len, 3);
}

#[test]
fn empty_piece_table_is_empty() {
    // given
    let piece_table = PieceTable::from_text("");

    // when
    let is_empty = piece_table.is_empty();

    // then
    assert!(is_empty);
}

#[test]
fn piece_table_from_text_is_not_empty() {
    // given
    let piece_table = PieceTable::from_text("initial text");

    // when
    let is_empty = piece_table.is_empty();

    // then
    assert!(!is_empty);
}
