use rustor::content;
use rustor::cursor::CursorPosition;
use rustor::editor::{handle_key_press, Editor};
use rustor::keys::{Key, KeyAction};
use rustor::piece_table::{Node, NodeType, PieceTable};

fn lines(v: &[&str]) -> Vec<String> {
    v.iter().map(|s| String::from(*s)).collect()
}

fn piece_table_editor(v: &[&str], x: u16, y: u16, y_offset: u16) -> Editor {
    let mut editor = Editor::from(lines(v));
    editor.cursor = CursorPosition { x, y, y_offset };
    editor
}

fn line_editor(v: &[&str], x: u16, y: u16, y_offset: u16) -> content::Editor {
    let mut editor = content::Editor::from(lines(v));
    editor.cursor = CursorPosition { x, y, y_offset };
    editor
}

#[test]
fn removing_what_was_just_inserted_gives_back_the_text() {
    let mut piece_table = PieceTable::new(String::from("hello world"));
    piece_table.insert(5, String::from(", big"));
    assert_eq!(piece_table.get_text(), "hello, big world");
    piece_table.remove(5, 5);
    assert_eq!(piece_table.get_text(), "hello world");
}

#[test]
fn removing_what_was_just_inserted_inside_an_added_piece_gives_back_the_text() {
    let mut piece_table = PieceTable::new(String::from("abc"));
    piece_table.insert(3, String::from("def"));
    piece_table.insert(4, String::from("XY"));
    assert_eq!(piece_table.get_text(), "abcdXYef");
    piece_table.remove(4, 2);
    assert_eq!(piece_table.get_text(), "abcdef");
}

#[test]
fn removing_nothing_at_the_start_of_a_piece_empties_that_piece() {
    let mut piece_table = PieceTable::new(String::from("abc"));
    piece_table.remove(0, 0);
    assert_eq!(piece_table.get_text(), "");
    let mut piece_table = PieceTable::new(String::from("abc"));
    piece_table.remove(1, 0);
    assert_eq!(piece_table.get_text(), "abc");
    assert_eq!(piece_table.nodes().len(), 2);
    piece_table.remove(3, 0);
    assert_eq!(piece_table.get_text(), "abc");
}

#[test]
fn removing_inside_a_piece_that_does_not_start_its_buffer() {
    let mut piece_table = PieceTable::new(String::from("abcdef"));
    piece_table.remove(1, 1);
    assert_eq!(piece_table.get_text(), "acdef");
    piece_table.remove(2, 1);
    assert_eq!(piece_table.get_text(), "acef");
    let mut piece_table = PieceTable::new(String::from("abcdefgh"));
    piece_table.remove(2, 1);
    piece_table.remove(3, 1);
    assert_eq!(piece_table.get_text(), "abdfgh");
}

#[test]
fn removing_all_the_text_leaves_no_piece() {
    let mut piece_table = PieceTable::new(String::from("abc"));
    piece_table.remove(0, 3);
    assert_eq!(piece_table.get_text(), "");
    assert_eq!(piece_table.nodes().len(), 0);
    assert_eq!(piece_table.get_number_of_lines(), 1);
}

#[test]
fn lines_of_a_text_joined_give_back_the_text() {
    let piece_table = PieceTable::new(String::from("one\n\ntwo\n"));
    let all = piece_table.get_all_lines();
    assert_eq!(all, lines(&["one", "", "two", ""]));
    assert_eq!(all.join("\n"), piece_table.get_text());
    assert_eq!(piece_table.get_number_of_lines(), all.len());
}

#[test]
fn empty_text_has_one_empty_line() {
    let piece_table = PieceTable::new(String::new());
    assert_eq!(piece_table.get_all_lines(), lines(&[""]));
    assert_eq!(piece_table.get_number_of_lines(), 1);
}

#[test]
fn range_of_lines_is_cut_at_the_end_of_the_text() {
    let piece_table = PieceTable::new(String::from("a\nb\nc"));
    assert_eq!(piece_table.get_range_lines(1, 10), lines(&["b", "c"]));
    assert_eq!(piece_table.get_range_lines(3, 10), Vec::<String>::new());
    assert_eq!(piece_table.get_range_lines(2, 1), Vec::<String>::new());
}

#[test]
fn push_appends_to_the_text() {
    let piece_table = PieceTable::new(String::from("ab")).push(String::from("cd"));
    assert_eq!(piece_table.get_text(), "abcd");
    assert_eq!(piece_table.nodes().len(), 2);
}

#[test]
fn duplicate_is_equal() {
    let mut piece_table = PieceTable::new(String::from("abc"));
    piece_table.insert(1, String::from("x"));
    let copy = piece_table.duplicate();
    assert!(copy == piece_table);
    assert_eq!(copy.get_text(), "axbc");
}

#[test]
fn editor_lines_are_those_of_the_text() {
    let editor = Editor::from(lines(&["first", "second", "", "last"]));
    assert_eq!(editor.get_all_lines(), lines(&["first", "second", "", "last"]));
    assert_eq!(editor.get_number_of_lines(), 4);
}

#[test]
fn editor_lines_shown_start_after_the_scrolled_ones() {
    let editor = piece_table_editor(&["a", "b", "c", "d", "e"], 1, 1, 2);
    assert_eq!(editor.get_editor_lines(2), lines(&["c", "d"]));
    assert_eq!(editor.get_editor_lines(10), lines(&["c", "d", "e"]));
}

#[test]
fn backspace_after_typing_gives_back_the_lines_in_the_piece_table_editor() {
    let mut editor = piece_table_editor(&["ab", "cd"], 2, 2, 0);
    assert!(editor.insert_is_defined('z', 30));
    editor.insert('z', 30);
    assert_eq!(editor.get_all_lines(), lines(&["ab", "czd"]));
    assert!(editor.remove_is_defined());
    editor.remove(30);
    assert_eq!(editor.get_all_lines(), lines(&["ab", "cd"]));
    assert_eq!(editor.cursor.x, 2);
    assert_eq!(editor.cursor.y, 2);
}

#[test]
fn backspace_after_a_line_break_gives_back_the_lines_in_the_piece_table_editor() {
    let mut editor = piece_table_editor(&["ab", "cd"], 2, 1, 0);
    editor.insert('\n', 30);
    assert_eq!(editor.get_all_lines(), lines(&["a", "b", "cd"]));
    assert_eq!(editor.cursor, CursorPosition { x: 1, y: 2, y_offset: 0 });
    editor.remove(30);
    assert_eq!(editor.get_all_lines(), lines(&["ab", "cd"]));
    assert_eq!(editor.cursor, CursorPosition { x: 2, y: 1, y_offset: 0 });
}

#[test]
fn backspace_after_typing_gives_back_the_lines_in_the_line_editor() {
    let mut editor = line_editor(&["ab", "cd"], 3, 1, 0);
    assert!(editor.insert_is_defined('!', 30));
    editor.insert('!', 30);
    assert_eq!(editor.lines, lines(&["ab!", "cd"]));
    assert!(editor.remove_is_defined());
    editor.remove(30);
    assert_eq!(editor.lines, lines(&["ab", "cd"]));
    assert_eq!(editor.cursor.x, 3);
}

#[test]
fn backspace_after_a_line_break_gives_back_the_lines_in_the_line_editor() {
    let mut editor = line_editor(&["abc"], 2, 1, 0);
    editor.insert('\n', 30);
    assert_eq!(editor.lines, lines(&["a", "bc"]));
    editor.remove(30);
    assert_eq!(editor.lines, lines(&["abc"]));
    assert_eq!(editor.cursor, CursorPosition { x: 2, y: 1, y_offset: 0 });
}

#[test]
fn the_two_editors_agree_on_typing() {
    for c in ['x', '\n'] {
        let mut a = piece_table_editor(&["hello", "world"], 3, 2, 0);
        let mut b = line_editor(&["hello", "world"], 3, 2, 0);
        a.insert(c, 10);
        b.insert(c, 10);
        assert_eq!(a.get_all_lines(), b.lines);
        assert_eq!(a.cursor, b.cursor);
    }
}

#[test]
fn the_two_editors_agree_on_backspace() {
    for x in [1, 3] {
        let mut a = piece_table_editor(&["hello", "world"], x, 2, 0);
        let mut b = line_editor(&["hello", "world"], x, 2, 0);
        a.remove(10);
        b.remove(10);
        assert_eq!(a.get_all_lines(), b.lines);
        assert_eq!(a.cursor, b.cursor);
    }
}

#[test]
fn the_two_editors_differ_on_backspace_at_the_first_row_with_lines_scrolled() {
    let text: Vec<String> = (0..20).map(|i| i.to_string()).collect();
    let refs: Vec<&str> = text.iter().map(|s| s.as_str()).collect();
    let mut a = piece_table_editor(&refs, 1, 1, 5);
    let mut b = line_editor(&refs, 1, 1, 5);
    a.remove(10);
    b.remove(10);
    assert_eq!(a.get_all_lines(), b.lines);
    assert_eq!(a.cursor, CursorPosition { x: 2, y: 0, y_offset: 5 });
    assert_eq!(b.cursor, CursorPosition { x: 2, y: 1, y_offset: 4 });
}

#[test]
fn key_press_is_refused_outside_the_text() {
    let editor = piece_table_editor(&["a", "b"], 1, 5, 0);
    assert!(!editor.key_press_is_defined(Key::Right, 10));
    assert!(!editor.key_press_is_defined(Key::Char('x'), 10));
    assert!(!editor.key_press_is_defined(Key::Backspace, 10));
    assert!(editor.key_press_is_defined(Key::Esc, 10));
    let editor = piece_table_editor(&["a", "b"], 0, 1, 0);
    assert!(!editor.key_press_is_defined(Key::Left, 10));
    let editor = line_editor(&["a", "b"], 1, 5, 0);
    assert!(!editor.key_press_is_defined(Key::Right, 10));
    assert!(!editor.key_press_is_defined(Key::Char('x'), 10));
}

#[test]
fn escape_asks_to_quit_and_leaves_the_editor() {
    let mut editor = piece_table_editor(&["abc"], 2, 1, 0);
    let action = handle_key_press(Key::Esc, &mut editor, None, 10);
    assert!(matches!(action, KeyAction::Quit));
    assert!(!action.should_continue());
    assert_eq!(editor.get_all_lines(), lines(&["abc"]));
    assert_eq!(editor.cursor, CursorPosition { x: 2, y: 1, y_offset: 0 });
}

#[test]
fn save_asks_to_write_the_text_when_there_is_a_file() {
    let file_name = String::from("notes.txt");
    let mut editor = piece_table_editor(&["abc", "de"], 2, 1, 0);
    editor.insert('X', 10);
    match handle_key_press(Key::Ctrl('s'), &mut editor, Some(&file_name), 10) {
        KeyAction::Save { file_name, content } => {
            assert_eq!(file_name, "notes.txt");
            assert_eq!(content, "aXbc\nde");
        }
        _ => panic!("a save was expected"),
    }
    let action = handle_key_press(Key::Ctrl('s'), &mut editor, None, 10);
    assert!(matches!(action, KeyAction::Continue));
    assert!(action.should_continue());
}

#[test]
fn save_in_the_line_editor_joins_the_lines() {
    let file_name = String::from("notes.txt");
    let mut editor = line_editor(&["abc", "", "de"], 1, 1, 0);
    match content::handle_key_press(Key::Ctrl('s'), &mut editor, Some(&file_name), 10) {
        KeyAction::Save { file_name, content } => {
            assert_eq!(file_name, "notes.txt");
            assert_eq!(content, "abc\n\nde");
        }
        _ => panic!("a save was expected"),
    }
}

#[test]
fn other_keys_change_nothing() {
    let mut editor = line_editor(&["abc"], 2, 1, 0);
    let action = content::handle_key_press(Key::Home, &mut editor, None, 10);
    assert!(matches!(action, KeyAction::Continue));
    assert_eq!(editor.lines, lines(&["abc"]));
    assert_eq!(editor.cursor, CursorPosition { x: 2, y: 1, y_offset: 0 });
}

#[test]
fn arrows_move_the_cursor_in_the_piece_table_editor() {
    let mut editor = piece_table_editor(&["abcdef", "ab", "abcd"], 5, 1, 0);
    handle_key_press(Key::Down, &mut editor, None, 10);
    assert_eq!(editor.cursor, CursorPosition { x: 3, y: 2, y_offset: 0 });
    handle_key_press(Key::Right, &mut editor, None, 10);
    assert_eq!(editor.cursor.x, 3);
    handle_key_press(Key::Left, &mut editor, None, 10);
    assert_eq!(editor.cursor.x, 2);
    handle_key_press(Key::Up, &mut editor, None, 10);
    assert_eq!(editor.cursor, CursorPosition { x: 2, y: 1, y_offset: 0 });
}

#[test]
fn line_break_on_the_row_before_the_last_scrolls() {
    let text = ["0", "1", "2", "3", "4", "5", "6", "7", "8", "9"];
    let mut editor = piece_table_editor(&text, 2, 9, 0);
    editor.insert('\n', 10);
    assert_eq!(editor.cursor, CursorPosition { x: 1, y: 9, y_offset: 1 });
    assert_eq!(editor.get_number_of_lines(), 11);
    let mut editor = line_editor(&text, 2, 9, 0);
    editor.insert('\n', 10);
    assert_eq!(editor.cursor, CursorPosition { x: 1, y: 9, y_offset: 1 });
    assert_eq!(editor.lines.len(), 11);
}

#[test]
fn key_presses_keep_the_cursor_on_the_screen() {
    let keys = [
        Key::Char('a'),
        Key::Char('\n'),
        Key::Char('\n'),
        Key::Down,
        Key::Up,
        Key::Up,
        Key::Right,
        Key::Backspace,
        Key::Backspace,
        Key::Left,
        Key::Char('z'),
        Key::Down,
        Key::Down,
        Key::Down,
        Key::Backspace,
        Key::Home,
    ];
    let height: u16 = 4;
    let mut a = piece_table_editor(&["one", "two"], 2, 1, 0);
    let mut b = line_editor(&["one", "two"], 2, 1, 0);
    for key in keys {
        assert!(a.key_press_is_defined(key, height));
        assert!(b.key_press_is_defined(key, height));
        handle_key_press(key, &mut a, None, height);
        content::handle_key_press(key, &mut b, None, height);
        let line = (a.cursor.y + a.cursor.y_offset) as usize;
        assert!(a.cursor.x >= 1 && a.cursor.y >= 1 && a.cursor.y < height);
        assert!(1 <= line && line <= a.get_number_of_lines());
        assert!(a.cursor_is_in_text());
        let line = (b.cursor.y + b.cursor.y_offset) as usize;
        assert!(b.cursor.x >= 1 && b.cursor.y >= 1 && b.cursor.y < height);
        assert!(1 <= line && line <= b.lines.len());
    }
    assert_eq!(a.get_all_lines(), lines(&["zo", "ne", "wo"]));
    assert_eq!(b.lines, lines(&["zo", "ne", "wo"]));
    assert_eq!(a.cursor, b.cursor);
}

#[test]
fn backspace_inside_a_typed_piece_removes_the_character_before_the_cursor() {
    let mut piece_table = PieceTable::new(String::from("one\ntwo"));
    piece_table.insert(1, String::from("a"));
    assert_eq!(piece_table.get_text(), "oane\ntwo");
    piece_table.remove(6, 1);
    assert_eq!(piece_table.get_text(), "oane\nto");
}

#[test]
fn backspace_at_the_start_of_a_line_on_the_first_row() {
    let mut editor = piece_table_editor(&["a", "b", "c", "d", "e", "f"], 1, 1, 1);
    assert!(editor.remove_is_defined());
    editor.remove(3);
    assert_eq!(editor.get_all_lines(), lines(&["ab", "c", "d", "e", "f"]));
    assert_eq!(editor.cursor, CursorPosition { x: 2, y: 0, y_offset: 1 });
    let mut editor = line_editor(&["a", "b", "c", "d", "e", "f"], 1, 1, 1);
    editor.remove(3);
    assert_eq!(editor.lines, lines(&["ab", "c", "d", "e", "f"]));
    assert_eq!(editor.cursor, CursorPosition { x: 2, y: 1, y_offset: 0 });
}

#[test]
fn typing_after_from_is_allowed() {
    let mut editor = Editor::from(vec![String::new()]);
    assert!(editor.key_press_is_defined(Key::Char('t'), 50));
    handle_key_press(Key::Char('t'), &mut editor, None, 50);
    assert_eq!(editor.get_editor_lines(20), lines(&["t"]));
}

#[test]
fn piece_table_positions_count_bytes() {
    let mut piece_table = PieceTable::new(String::from("éab"));
    piece_table.insert(2, String::from("x"));
    assert_eq!(piece_table.get_text(), "éxab");
    piece_table.remove(0, 2);
    assert_eq!(piece_table.get_text(), "xab");
    let mut piece_table = PieceTable::new(String::from("aé"));
    piece_table.insert(3, String::from("!"));
    assert_eq!(piece_table.get_text(), "aé!");
    let (_, index, text_index) = piece_table.get_node_where_it_got_inserted_and_index(4);
    assert_eq!((index, text_index), (1, 3));
    assert_eq!(
        piece_table.nodes(),
        vec![
            Node { node_type: NodeType::ORIGINAL, start: 0, length: 3 },
            Node { node_type: NodeType::ADDED, start: 0, length: 1 },
        ]
    );
    let (node, index, text_index) = piece_table.get_node_where_it_got_inserted_and_index(2);
    assert_eq!((node.length, index, text_index), (3, 0, 0));
    let mut piece_table = PieceTable::new(String::from("héllo"));
    piece_table.remove(1, 2);
    assert_eq!(piece_table.get_text(), "hllo");
    assert_eq!(
        piece_table.nodes(),
        vec![
            Node { node_type: NodeType::ORIGINAL, start: 0, length: 1 },
            Node { node_type: NodeType::ORIGINAL, start: 3, length: 3 },
        ]
    );
}

#[test]
fn cursor_offset_counts_bytes() {
    let editor = piece_table_editor(&["é", "ab"], 2, 1, 0);
    assert_eq!(editor.get_cursor_position_in_file(), 2);
    let editor = piece_table_editor(&["é", "ab"], 2, 2, 0);
    assert_eq!(editor.get_cursor_position_in_file(), 4);
}

#[test]
fn typing_after_a_wide_character_and_backspace() {
    let mut editor = piece_table_editor(&["éa"], 2, 1, 0);
    editor.insert('z', 10);
    assert_eq!(editor.get_all_lines(), lines(&["éza"]));
    assert!(editor.remove_is_defined());
    editor.remove(10);
    assert_eq!(editor.get_all_lines(), lines(&["éa"]));
    // the character before the cursor is two bytes long: backspace, which
    // removes one byte, is not allowed
    assert!(!editor.remove_is_defined());
}

#[test]
fn line_editor_columns_count_bytes() {
    let mut editor = line_editor(&["éa"], 3, 1, 0);
    assert!(editor.insert_is_defined('z', 10));
    editor.insert('z', 10);
    assert_eq!(editor.lines, lines(&["éza"]));
    assert_eq!(editor.cursor.x, 4);
    editor.remove(10);
    assert_eq!(editor.lines, lines(&["éa"]));
    let editor = line_editor(&["éa"], 2, 1, 0);
    assert!(!editor.insert_is_defined('z', 10));
    assert!(!editor.insert_is_defined('\n', 10));
    let mut editor = line_editor(&["éa"], 3, 1, 0);
    editor.insert('\n', 10);
    assert_eq!(editor.lines, lines(&["é", "a"]));
}

#[test]
fn moving_right_stops_after_the_last_byte() {
    let mut editor = piece_table_editor(&["é"], 2, 1, 0);
    handle_key_press(Key::Right, &mut editor, None, 10);
    assert_eq!(editor.cursor.x, 3);
    handle_key_press(Key::Right, &mut editor, None, 10);
    assert_eq!(editor.cursor.x, 3);
}

#[test]
fn line_editor_scrolls_twice_on_a_join_at_the_first_row() {
    let mut editor = line_editor(&["a", "b", "c", "d", "e"], 1, 1, 3);
    editor.remove(10);
    assert_eq!(editor.lines, lines(&["a", "b", "cd", "e"]));
    assert_eq!(editor.cursor, CursorPosition { x: 2, y: 1, y_offset: 1 });
    let mut editor = piece_table_editor(&["a", "b", "c", "d", "e"], 1, 1, 3);
    editor.remove(10);
    assert_eq!(editor.get_all_lines(), lines(&["a", "b", "cd", "e"]));
    assert_eq!(editor.cursor, CursorPosition { x: 2, y: 1, y_offset: 2 });
}

#[test]
fn two_pushes_are_one_push_of_both_texts() {
    let mut base = PieceTable::new(String::from("ab"));
    base.insert(1, String::from("é"));
    let two = base.duplicate().push(String::from("cd")).push(String::from("ef"));
    let one = base.duplicate().push(String::from("cdef"));
    assert!(two == one);
    assert_eq!(two.get_text(), "aébcdef");
    let two = PieceTable::new(String::from("ab")).push(String::from("")).push(String::from("x"));
    let one = PieceTable::new(String::from("ab")).push(String::from("x"));
    assert!(two == one);
}

#[test]
fn removing_bytes_shortens_the_text_by_that_many() {
    let mut piece_table = PieceTable::new(String::from("aé€b"));
    let before = piece_table.get_text().len();
    piece_table.remove(1, 5);
    assert_eq!(piece_table.get_text(), "ab");
    assert_eq!(piece_table.get_text().len(), before - 5);
}
