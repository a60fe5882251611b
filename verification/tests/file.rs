use rustor::file::{file_content, get_file_name, init_lines};

#[test]
fn init_lines_should_return_an_empty_line_when_there_is_no_file() {
    // Given
    let file_lines: Option<Vec<String>> = None;
    let expected: Vec<String> = vec![String::new()];

    // When
    let result = init_lines(file_lines);

    // Then
    assert_eq!(expected, result);
}

#[test]
fn init_lines_should_return_an_empty_line_when_there_the_file_is_empty() {
    // Given: an empty file has no line
    let file_lines: Option<Vec<String>> = Some(vec![]);
    let expected: Vec<String> = vec![String::new()];

    // When
    let result = init_lines(file_lines);

    // Then
    assert_eq!(expected, result);
}

#[test]
fn init_lines_should_keep_the_lines_of_the_file() {
    let file_lines = Some(vec![String::from("first"), String::from("second")]);
    let result = init_lines(file_lines);
    assert_eq!(result, vec![String::from("first"), String::from("second")]);
}

#[test]
fn file_content_should_join_lines_with_newlines() {
    let lines = vec![String::from("a"), String::new(), String::from("bc")];
    assert_eq!(file_content(&lines), String::from("a\n\nbc"));
}

#[test]
fn get_file_name_should_return_nothing_if_no_args() {
    // Given
    let args = vec![String::from("rustor")];

    // When
    let result = get_file_name(&args);

    // Then
    assert_eq!(None, result);
}

#[test]
fn get_file_name_should_return_the_name_of_the_file() {
    // Given
    let args = vec![String::from("rustor"), String::from("stuff.txt")];

    // When
    let result = get_file_name(&args);

    // Then
    assert_eq!(Some(&String::from("stuff.txt")), result);
}
