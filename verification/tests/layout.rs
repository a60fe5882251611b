use rustor::cursor::CursorPosition;
use rustor::editor::Editor;
use rustor::window::{
    blank_row, screen_is_defined, screen_view, get_number_of_chars_of_u16,
    get_number_of_lines_under_which_the_text_line_should_be_displayed,
    padding_len, print_line_position, render_line_nb,
};

#[test]
fn number_of_chars_of_the_largest_u16() {
    assert_eq!(get_number_of_chars_of_u16(0), 1);
    assert_eq!(get_number_of_chars_of_u16(9), 1);
    assert_eq!(get_number_of_chars_of_u16(10), 2);
    assert_eq!(get_number_of_chars_of_u16(9999), 4);
    assert_eq!(get_number_of_chars_of_u16(10000), 5);
    assert_eq!(get_number_of_chars_of_u16(u16::MAX), 5);
}

#[test]
fn line_number_fills_its_columns_exactly() {
    assert_eq!(render_line_nb(1, 7), "7");
    assert_eq!(render_line_nb(5, 0), "    0");
    assert_eq!(render_line_nb(6, 65535), " 65535");
}

#[test]
fn rows_of_a_line_as_wide_as_the_terminal() {
    assert_eq!(
        get_number_of_lines_under_which_the_text_line_should_be_displayed("abcdefgh", 2, 10),
        2
    );
    assert_eq!(
        get_number_of_lines_under_which_the_text_line_should_be_displayed("abcdefg", 2, 10),
        1
    );
    assert_eq!(
        get_number_of_lines_under_which_the_text_line_should_be_displayed(
            "abcdefghijklmnopqrstuvwxyz",
            4,
            10
        ),
        4
    );
}

#[test]
fn position_after_a_line_that_fits() {
    let cursor = CursorPosition { x: 4, y: 3, y_offset: 0 };
    assert_eq!(print_line_position(5, 2, &cursor, 1, 80), (8, 4));
    assert_eq!(print_line_position(78, 2, &cursor, 1, 80), (8, 4));
}

#[test]
fn position_after_a_line_that_wraps() {
    let cursor = CursorPosition { x: 4, y: 3, y_offset: 0 };
    // rest = 25 + 2 - 10 = 17: rows 3 + 1 + 17 / 10 + 1, column 17 % 10 + 3
    assert_eq!(print_line_position(25, 2, &cursor, 1, 10), (6, 10));
    // rest = 9 + 2 - 10 = 1
    assert_eq!(print_line_position(9, 2, &cursor, 0, 10), (4, 4));
}

#[test]
fn padding_reaches_the_terminal_width() {
    assert_eq!(padding_len(1, 80), 80);
    assert_eq!(padding_len(8, 80), 73);
    assert_eq!(padding_len(81, 80), 0);
    assert_eq!(padding_len(100, 80), 0);
}

#[test]
fn blank_row_only_above_the_last_two_rows() {
    assert_eq!(blank_row(3, 1, 10), Some(5));
    assert_eq!(blank_row(8, 1, 10), None);
    assert_eq!(blank_row(7, 1, 10), Some(9));
    assert_eq!(blank_row(0, 0, 1), None);
}

#[test]
fn cursor_goes_to_the_end_of_its_line() {
    let lines = vec![String::from("abc"), String::from("hello")];
    let mut cursor = CursorPosition { x: 1, y: 1, y_offset: 1 };
    cursor.move_to_end_of_line(&lines);
    assert_eq!(cursor, CursorPosition { x: 6, y: 1, y_offset: 1 });
}

#[test]
fn new_cursor_is_at_the_start() {
    assert_eq!(CursorPosition::new(), CursorPosition { x: 1, y: 1, y_offset: 0 });
}

#[test]
fn cursor_scrolls_when_moving_down_from_the_row_before_the_last() {
    let lines: Vec<String> = (0..20).map(|i| i.to_string()).collect();
    let mut cursor = CursorPosition { x: 7, y: 9, y_offset: 0 };
    cursor.move_down(&lines, 10);
    assert_eq!(cursor, CursorPosition { x: 7, y: 9, y_offset: 1 });
}

#[test]
fn cursor_scrolls_back_when_moving_up_from_the_first_row() {
    let lines: Vec<String> = (0..20).map(|i| i.to_string()).collect();
    let mut cursor = CursorPosition { x: 7, y: 1, y_offset: 3 };
    cursor.move_up(&lines);
    assert_eq!(cursor, CursorPosition { x: 2, y: 1, y_offset: 2 });
}

#[test]
fn screen_shows_each_line_with_its_number() {
    let mut editor = Editor::from(vec![String::from("ab"), String::from("cdef")]);
    editor.cursor = CursorPosition { x: 2, y: 1, y_offset: 0 };
    assert!(screen_is_defined(&editor, 80, 10));
    let view = screen_view(&editor, 80, 10);
    assert_eq!(view.lines.len(), 2);
    assert_eq!(view.lines[0].text, "ab");
    assert_eq!(view.lines[0].row, 2);
    assert_eq!(view.lines[0].line_nb, "1");
    assert_eq!(view.lines[0].padding, 76);
    assert_eq!(view.lines[0].cursor, (5, 2));
    assert_eq!(view.lines[1].text, "cdef");
    assert_eq!(view.lines[1].row, 3);
    assert_eq!(view.lines[1].line_nb, "2");
    assert_eq!(view.cursor, (5, 2));
    assert_eq!(view.blank_row, Some(4));
}

#[test]
fn screen_wraps_a_line_wider_than_the_terminal() {
    let editor = Editor::from(vec![String::from("abcdefgh")]);
    assert!(screen_is_defined(&editor, 5, 10));
    let view = screen_view(&editor, 5, 10);
    assert_eq!(view.lines.len(), 1);
    assert_eq!(view.lines[0].row, 2);
    assert_eq!(view.lines[0].cursor, (3, 7));
    assert_eq!(view.lines[0].padding, 3);
    assert_eq!(view.blank_row, Some(4));
}

#[test]
fn screen_shows_the_lines_below_the_scrolled_ones() {
    let lines: Vec<String> = (1..=12).map(|i| format!("line {}", i)).collect();
    let mut editor = Editor::from(lines);
    editor.cursor = CursorPosition { x: 1, y: 1, y_offset: 3 };
    let view = screen_view(&editor, 80, 5);
    assert_eq!(view.lines.len(), 4);
    assert_eq!(view.lines[0].text, "line 4");
    assert_eq!(view.lines[0].line_nb, " 4");
    assert_eq!(view.lines[3].line_nb, " 7");
    assert_eq!(view.blank_row, None);
}

#[test]
fn screen_needs_a_row() {
    let editor = Editor::from(vec![String::from("ab")]);
    assert!(!screen_is_defined(&editor, 80, 0));
}
