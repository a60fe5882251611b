use rustor::cursor::CursorPosition;

#[test]
fn should_move_left() {
    // Given
    let mut cursor = CursorPosition { x: 3, y: 4, y_offset: 0 };

    // When
    cursor.move_left();

    // Then
    assert_eq!(cursor.x, 2);
    assert_eq!(cursor.y, 4);
    assert_eq!(cursor.y_offset, 0);
}

#[test]
fn should_not_move_left() {
    // Given
    let mut cursor = CursorPosition { x: 1, y: 4, y_offset: 0 };

    // When
    cursor.move_left();

    // Then
    assert_eq!(cursor.x, 1);
    assert_eq!(cursor.y, 4);
    assert_eq!(cursor.y_offset, 0);
}

#[test]
fn should_move_right() {
    // Given
    let mut cursor = CursorPosition { x: 10, y: 4, y_offset: 0 };

    // When
    cursor.move_right(34);

    // Then
    assert_eq!(cursor.x, 11);
    assert_eq!(cursor.y, 4);
    assert_eq!(cursor.y_offset, 0);
}

#[test]
fn should_not_move_right() {
    // Given
    let mut cursor = CursorPosition { x: 10, y: 4, y_offset: 0 };

    // When
    cursor.move_right(9);

    // Then
    assert_eq!(cursor.x, 10);
    assert_eq!(cursor.y, 4);
    assert_eq!(cursor.y_offset, 0);
}

#[test]
fn should_get_y_position_in_file() {
    // Given
    let mut cursor = CursorPosition { x: 10, y: 4, y_offset: 2 };

    // When
    let result = cursor.get_y_position_in_file();

    // Then
    assert_eq!(result, 6);
}


#[test]
fn should_not_move_up_when_on_the_first_line_of_the_file_and_terminal() {
    // Given
    let mut cursor = CursorPosition { x: 10, y: 1, y_offset: 0 };
    let lines: Vec<String> = vec![String::from("first line")];

    // When
    cursor.move_up(&lines);

    // Then
    assert_eq!(cursor.x, 10);
    assert_eq!(cursor.y, 1);
    assert_eq!(cursor.y_offset, 0);
}

#[test]
fn should_move_up_only_the_offset() {
    // Given
    let mut cursor = CursorPosition { x: 10, y: 1, y_offset: 1 };
    let lines: Vec<String> = vec![String::from("first"),
                                  String::from("we are here")];

    // When
    cursor.move_up(&lines);

    // Then
    assert_eq!(cursor.x, 6);
    assert_eq!(cursor.y, 1);
    assert_eq!(cursor.y_offset, 0);
}

#[test]
fn should_move_up() {
    // Given
    let mut cursor = CursorPosition { x: 10, y: 2, y_offset: 0 };
    let lines: Vec<String> = vec![String::from("first"),
                                  String::from("we are here")];

    // When
    cursor.move_up(&lines);

    // Then
    assert_eq!(cursor.x, 6);
    assert_eq!(cursor.y, 1);
    assert_eq!(cursor.y_offset, 0);
}

#[test]
fn should_not_move_down_when_on_the_last_line_of_the_file() {
    // Given
    let mut cursor = CursorPosition { x: 7, y: 3, y_offset: 0 };
    let lines: Vec<String> = vec![String::from("first line"), String::from("second line"), String::from("first line")];
    let terminal_size: u16 = 4;

    // When
    cursor.move_down(&lines, terminal_size);

    // Then
    assert_eq!(cursor.x, 7);
    assert_eq!(cursor.y, 3);
    assert_eq!(cursor.y_offset, 0);
}

#[test]
fn should_move_only_the_offset() {
    // Given
    let mut cursor = CursorPosition { x: 7, y: 4, y_offset: 0 };
    let lines: Vec<String> = vec![String::from("first line"), String::from("second line"),
                                  String::from("third line"),  String::from("fourth line"),
                                  String::from("fifth line")];
    let terminal_size: u16 = 5;

    // When
    cursor.move_down(&lines, terminal_size);

    // Then
    assert_eq!(cursor.x, 7);
    assert_eq!(cursor.y, 4);
    assert_eq!(cursor.y_offset, 1);
}



#[test]
fn should_move_down() {
    // Given
    let mut cursor = CursorPosition { x: 7, y: 2, y_offset: 0 };
    let lines: Vec<String> = vec![String::from("first line"), String::from("second line"),
                                  String::from("third line"),  String::from("fourth line"),
                                  String::from("fifth line")];
    let terminal_size: u16 = 5;

    // When
    cursor.move_down(&lines, terminal_size);

    // Then
    assert_eq!(cursor.x, 7);
    assert_eq!(cursor.y, 3);
    assert_eq!(cursor.y_offset, 0);
}
