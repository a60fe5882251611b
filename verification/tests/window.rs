use rustor::window::{
    get_number_of_chars_of_u16, get_number_of_lines_under_which_the_text_line_should_be_displayed,
    render_line_nb,
};

#[test]
fn test_get_number_of_chars_of_u16_one_digit() {
    // Given
    let nb = 4 as u16;

    // When
    let result = get_number_of_chars_of_u16(nb);

    // Then
    assert_eq!(result, 1);
}

#[test]
fn test_get_number_of_chars_of_u16_two_digits() {
    // Given
    let nb = 99 as u16;

    // When
    let result = get_number_of_chars_of_u16(nb);

    // Then
    assert_eq!(result, 2);
}

#[test]
fn test_get_number_of_chars_of_u16_three_digits() {
    // Given
    let nb = 666 as u16;

    // When
    let result = get_number_of_chars_of_u16(nb);

    // Then
    assert_eq!(result, 3);
}

#[test]
fn test_render_line_nb_56_out_of_3() {
    // Given
    let padding = 3;
    let line_number = 56;

    // When
    let result = render_line_nb(padding, line_number);

    // Then
    assert_eq!(result, " 56");
}

#[test]
fn test_render_line_nb_57_out_of_2() {
    // Given
    let padding = 2;
    let line_number = 57;

    // When
    let result = render_line_nb(padding, line_number);

    // Then
    assert_eq!(result, "57");
}

#[test]
fn test_render_line_nb_4_out_of_5() {
    // Given
    let padding = 4;
    let line_number = 5;

    // When
    let result = render_line_nb(padding, line_number);

    // Then
    assert_eq!(result, "   5");
}

#[test]
fn should_be_on_1_line_when_length_less_than_terminal_width() {
    // Given
    let line = String::from("this is a test");
    let left_pad = 3;
    let terminal_width = 30;

    // When
    let result = get_number_of_lines_under_which_the_text_line_should_be_displayed(
        &line,
        left_pad,
        terminal_width,
    );

    // Then
    assert_eq!(result, 1);
}

#[test]
fn should_be_on_2_lines_when_length_is_more_than_terminal_width() {
    // Given
    let line = String::from("this is a longer line test.");
    let left_pad = 3;
    let terminal_width = 20;

    // When
    let result = get_number_of_lines_under_which_the_text_line_should_be_displayed(
        &line,
        left_pad,
        terminal_width,
    );

    // Then
    assert_eq!(result, 2);
}

#[test]
fn should_be_on_3_lines_when_length_is_much_more_than_terminal_width() {
    // Given
    let line = String::from("this is a longer line test. More. More. More");
    let left_pad = 3;
    let terminal_width = 20;

    // When
    let result = get_number_of_lines_under_which_the_text_line_should_be_displayed(
        &line,
        left_pad,
        terminal_width,
    );

    // Then
    assert_eq!(result, 3);
}

#[test]
fn should_be_on_2_lines_with_left_pad() {
    // Given
    let line = String::from("123456");
    let left_pad = 5;
    let terminal_width = 10;

    // When
    let result = get_number_of_lines_under_which_the_text_line_should_be_displayed(
        &line,
        left_pad,
        terminal_width,
    );

    // Then
    assert_eq!(result, 2);
}
