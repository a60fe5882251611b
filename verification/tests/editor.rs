use rustor::cursor::CursorPosition;
use rustor::editor::{handle_key_press, Editor};
use rustor::keys::Key;
use rustor::piece_table::PieceTable;

#[test]
fn editor_test_handle_key_press_first_char() {
    // Given
    let key: Key = Key::Char('t');
    let terminal_height: u16 = 50;
    let file_name = String::from("toto");
    let file_name_option = Some(&file_name);
    let mut editor = Editor::from(vec![String::new()]);

    // When
    handle_key_press(key, &mut editor, file_name_option, terminal_height);

    // Then
    assert_eq!(editor.cursor.x, 2);
    assert_eq!(editor.cursor.y, 1);
    assert_eq!(editor.get_all_lines().len(), 1);
    assert_eq!(editor.get_editor_lines(20), vec!["t"]);
    assert_eq!(editor.get_number_of_lines(), 1);
}

#[test]
fn insert_char_should_insert_first_char_with_piece_table() {
    // Given
    let mut editor = Editor::from(vec![String::new()]);

    // When
    editor.insert_in_piece_table('x', 36);

    // Then

    assert_eq!(editor.piece_table.get_text(), "x");
    assert_eq!(editor.cursor.x, 2);
    assert_eq!(editor.cursor.y, 1);
    assert_eq!(editor.cursor.y_offset, 0);
}

#[test]
fn editor_insert_char_should_insert_in_the_middle_of_the_line() {
    // Given
    let cursor = CursorPosition {
        x: 9,
        y: 1,
        y_offset: 0,
    };
    let lines = vec![String::from("this is  test")];
    let piece_table = PieceTable::new(lines.clone().join("\n"));
    let mut editor = Editor {
        piece_table,
        cursor,
    };

    // When
    editor.insert_in_piece_table('a', 36);

    // Then
    assert_eq!(editor.piece_table.get_text(), "this is a test");
    assert_eq!(editor.cursor.x, 10);
    assert_eq!(editor.cursor.y, 1);
    assert_eq!(editor.cursor.y_offset, 0);
}

#[test]
fn editor_insert_char_should_insert_a_new_line_at_the_end() {
    // Given
    let cursor = CursorPosition {
        x: 15,
        y: 1,
        y_offset: 0,
    };
    let lines = vec![String::from("this is a test")];
    let piece_table = PieceTable::new(lines.clone().join("\n"));
    let mut editor = Editor {
        piece_table,
        cursor,
    };

    // When
    editor.insert_in_piece_table('\n', 36);

    // Then
    assert_eq!(editor.piece_table.get_text(), "this is a test\n");
    assert_eq!(editor.cursor.x, 1);
    assert_eq!(editor.cursor.y, 2);
    assert_eq!(editor.cursor.y_offset, 0);
    assert_eq!(editor.get_number_of_lines(), 2);
    assert_eq!(editor.get_editor_lines(20), &vec!["this is a test", ""][..]);
    assert_eq!(editor.get_editor_lines(1), &vec!["this is a test"][..]);
}

#[test]
fn editor_insert_char_should_insert_a_new_line_in_the_middle_of_line() {
    // Given
    let cursor = CursorPosition {
        x: 10,
        y: 1,
        y_offset: 0,
    };
    let lines = vec![String::from("this is a test")];
    let piece_table = PieceTable::new(lines.clone().join("\n"));
    let mut editor = Editor {
        piece_table,
        cursor,
    };

    // When
    editor.insert('\n', 36);

    // Then
    // assert_eq!(editor. vec!["this is a", " test"]);
    assert_eq!(editor.get_editor_lines(20), vec!["this is a", " test"]);
    assert_eq!(editor.cursor.x, 1);
    assert_eq!(editor.cursor.y, 2);
    assert_eq!(editor.cursor.y_offset, 0);
}

#[test]
fn editor_remove_should_remove_char() {
    // Given
    let cursor = CursorPosition {
        x: 11,
        y: 1,
        y_offset: 0,
    };
    let lines = vec![String::from("this is aw test")];
    let piece_table = PieceTable::new(lines.clone().join("\n"));

    let mut editor = Editor {
        piece_table,
        cursor,
    };

    // When
    editor.remove(36);

    // Then
    assert_eq!(editor.get_editor_lines(36), vec!["this is a test"]);
    assert_eq!(editor.cursor.x, 10);
    assert_eq!(editor.cursor.y, 1);
    assert_eq!(editor.cursor.y_offset, 0);
}

#[test]
fn editor_remove_should_remove_empty_line() {
    // Given
    let cursor = CursorPosition {
        x: 1,
        y: 2,
        y_offset: 0,
    };
    let lines = vec![
        String::from("this is a test"),
        String::new(),
        String::from("this is a test2"),
    ];
    let piece_table = PieceTable::new(lines.clone().join("\n"));

    let mut editor = Editor {
        piece_table,
        cursor,
    };

    // When
    editor.remove(36);

    // Then
    assert_eq!(editor.cursor.x, 15);
    assert_eq!(editor.cursor.y, 1);
    assert_eq!(editor.cursor.y_offset, 0);
    assert_eq!(
        editor.get_editor_lines(36),
        vec!["this is a test", "this is a test2"]
    );
}

#[test]
fn editor_remove_should_remove_not_empty_line() {
    // Given
    let cursor = CursorPosition {
        x: 1,
        y: 2,
        y_offset: 0,
    };
    let lines = vec![
        String::from("this is a test"),
        String::from("this is a test2"),
        String::from("this is a test3"),
    ];
    let piece_table = PieceTable::new(lines.clone().join("\n"));

    let mut editor = Editor {
        piece_table,
        cursor,
    };

    // When
    editor.remove(36);

    // Then
    assert_eq!(
        editor.get_editor_lines(36),
        vec!["this is a testthis is a test2", "this is a test3"]
    );
    assert_eq!(editor.cursor.x, 15);
    assert_eq!(editor.cursor.y, 1);
    assert_eq!(editor.cursor.y_offset, 0);
}

#[test]
fn editor_remove_should_not_remove() {
    // Given
    let cursor = CursorPosition {
        x: 1,
        y: 1,
        y_offset: 0,
    };
    let lines = vec![
        String::from("this is a test"),
        String::from("this is a test2"),
    ];
    let piece_table = PieceTable::new(lines.clone().join("\n"));

    let mut editor = Editor {
        piece_table,
        cursor,
    };

    // When
    editor.remove(36);

    // Then
    assert_eq!(
        editor.get_editor_lines(36),
        vec!["this is a test", "this is a test2"]
    );
    assert_eq!(editor.cursor.x, 1);
    assert_eq!(editor.cursor.y, 1);
    assert_eq!(editor.cursor.y_offset, 0);
}

#[test]
fn editor_remove_should_remove_char_with_offset() {
    // Given
    let cursor = CursorPosition {
        x: 5,
        y: 3,
        y_offset: 1,
    };
    let lines = vec![
        String::from("this is a test"),
        String::from("this is a test2"),
        String::from("this is a test3"),
        String::from("this is a test4"),
    ];
    let piece_table = PieceTable::new(lines.clone().join("\n"));

    let mut editor = Editor {
        piece_table,
        cursor,
    };

    // When
    editor.remove(3);

    // Then
    assert_eq!(
        editor.get_range_lines(0, 4),
        vec![
            "this is a test",
            "this is a test2",
            "this is a test3",
            "thi is a test4"
        ]
    );
    assert_eq!(editor.cursor.x, 4);
    assert_eq!(editor.cursor.y, 3);
    assert_eq!(editor.cursor.y_offset, 1);
}

#[test]
fn editor_remove_should_remove_char_with_offset_on_first_line() {
    // Given
    let cursor = CursorPosition {
        x: 5,
        y: 1,
        y_offset: 1,
    };

    let lines = vec![
        String::from("this is a test"),
        String::from("this is a test2"),
        String::from("this is a test3"),
        String::from("this is a test4"),
    ];
    let piece_table = PieceTable::new(lines.clone().join("\n"));

    let mut editor = Editor {
        piece_table,
        cursor,
    };

    // When
    editor.remove(36);

    // Then
    assert_eq!(
        editor.get_range_lines(0, 4),
        vec![
            "this is a test",
            "thi is a test2",
            "this is a test3",
            "this is a test4"
        ]
    );
    assert_eq!(editor.cursor.x, 4);
    assert_eq!(editor.cursor.y, 1);
    assert_eq!(editor.cursor.y_offset, 1);
}

#[test]
fn editor_remove_should_remove_line_with_offset_reduced() {
    // Given
    let cursor = CursorPosition {
        x: 1,
        y: 1,
        y_offset: 1,
    };
    let lines = vec![
        String::from("this is a test"),
        String::from("this is a test2"),
        String::from("this is a test3"),
        String::from("this is a test4"),
    ];
    let piece_table = PieceTable::new(lines.clone().join("\n"));

    let mut editor = Editor {
        piece_table,
        cursor,
    };

    // When
    editor.remove(5);

    // Then
    assert_eq!(
        editor.get_range_lines(0, 4),
        vec![
            "this is a testthis is a test2",
            "this is a test3",
            "this is a test4"
        ]
    );
    assert_eq!(editor.cursor.x, 15);
    assert_eq!(editor.cursor.y, 1);
    assert_eq!(editor.cursor.y_offset, 0);
}

#[test]
fn remove_should_remove_last_empty_line() {
    // Given
    let cursor = CursorPosition {
        x: 1,
        y: 4,
        y_offset: 0,
    };
    let lines = vec![
        String::from("this is a test"),
        String::from(""),
        String::from(""),
        String::from(""),
    ];
    let piece_table = PieceTable::new(lines.clone().join("\n"));

    let mut editor = Editor {
        piece_table,
        cursor,
    };

    // When
    editor.remove(5);

    // Then
    assert_eq!(editor.get_range_lines(0, 4), vec!["this is a test", "", ""]);
    assert_eq!(editor.cursor.x, 1);
    assert_eq!(editor.cursor.y, 3);
    assert_eq!(editor.cursor.y_offset, 0);
}

#[test]
fn get_cursor_position_in_file_should_compute_nb_of_characters() {
    // Given
    let cursor = CursorPosition {
        x: 1,
        y: 2,
        y_offset: 0,
    };
    let lines = vec![
        String::from("this is a test"),
        String::from("this is a test2"),
        String::from("this is a test3"),
    ];
    let piece_table = PieceTable::new(lines.clone().join("\n"));

    let editor = Editor {
        piece_table,
        cursor,
    };

    // When
    let result = editor.get_cursor_position_in_file();

    // Then
    assert_eq!(result, 15);
}

#[test]
fn get_cursor_position_in_file_should_compute_nb_of_characters_with_offset() {
    // Given
    let cursor = CursorPosition {
        x: 5,
        y: 3,
        y_offset: 1,
    };
    let lines = vec![
        String::from("this is a test"),
        String::from("this is a test2"),
        String::from("this is a test3"),
        String::from("this is a test4"),
    ];
    let piece_table = PieceTable::new(lines.clone().join("\n"));

    let editor = Editor {
        piece_table,
        cursor,
    };

    // When
    let result = editor.get_cursor_position_in_file();

    // Then
    assert_eq!(result, 51);
}
