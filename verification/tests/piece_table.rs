use rustor::piece_table::{Node, NodeType, PieceTable};

#[test]
fn new_should_init_with_text() {
    // Given
    let input = String::from("This is a text");

    // When
    let piece_table = PieceTable::new(input);

    // Then
    let text = piece_table.get_text();
    assert_eq!(text, String::from("This is a text"))
}

#[test]
fn push_should_add_text_at_end_of_line() {
    // Given
    let input = String::from("This is a text");
    let mut piece_table = PieceTable::new(input);
    let push_str = String::from(".");

    // When
    piece_table = piece_table.push(push_str);

    // Then
    let text = piece_table.get_text();
    assert_eq!(text, String::from("This is a text."))
}

#[test]
fn push_should_add_text_at_end_of_line_2() {
    // Given
    let input = String::from("This is a text");
    let mut piece_table = PieceTable::new(input);
    let push_str = String::from(".");
    let push_str2 = String::from("..");

    // When
    piece_table = piece_table.push(push_str);
    piece_table = piece_table.push(push_str2);

    // Then
    let text = piece_table.get_text();
    assert_eq!(text, String::from("This is a text..."));
    assert_eq!(
        vec![
            Node {
                node_type: NodeType::ORIGINAL,
                start: 0,
                length: 14,
            },
            Node {
                node_type: NodeType::ADDED,
                start: 0,
                length: 3,
            }
        ],
        *piece_table.nodes()
    );
}

#[test]
fn remove_when_index_is_length_of_text_should_remove_characters_at_the_end_of_node() {
    // Given
    let input = String::from("This is a text...");
    let mut piece_table = PieceTable::new(input);

    // When
    piece_table.remove(15, 2);

    // Then
    let text = piece_table.get_text();
    assert_eq!(text, String::from("This is a text."));
}

#[test]
fn remove_when_index_is_length_of_text_should_remove_characters_at_the_beginning_of_node() {
    // Given
    let input = String::from("xxThis is a text.");
    let mut piece_table = PieceTable::new(input);

    // When
    piece_table.remove(0, 2);

    // Then
    let text = piece_table.get_text();
    assert_eq!(text, String::from("This is a text."));
}

#[test]
fn remove_when_index_is_length_of_text_should_remove_characters_all_of_node() {
    // Given
    let input = String::from("This is a text.");
    let mut piece_table = PieceTable::new(input);

    // When
    piece_table.remove(0, 15);

    // Then
    let text = piece_table.get_text();
    assert_eq!(text, String::from(""));
}

#[test]
fn remove_when_index_is_length_of_text_should_remove_characters_within_of_node() {
    // Given
    let input = String::from("This isxxxx a text.");
    let mut piece_table = PieceTable::new(input);

    // When
    piece_table.remove(7, 4);

    // Then
    let text = piece_table.get_text();
    assert_eq!(text, String::from("This is a text."));
}

#[test]
fn remove_when_index_is_length_of_text_should_remove_characters_within_of_second_node() {
    // Given
    let input = String::from("This is a text.");
    let mut piece_table = PieceTable::new(input);
    let input1 = String::from(" This is a xxtext.");
    piece_table = piece_table.push(input1);

    // When
    piece_table.remove(26, 2);

    // Then
    let text = piece_table.get_text();
    assert_eq!(text, String::from("This is a text. This is a text."));
}

#[test]
fn remove_when_index_is_between_two_nodes() {
    // Given
    let input = String::from("This is a text.");
    let mut piece_table = PieceTable::new(input);
    let input1 = String::from(" This is a text.xx");
    piece_table = piece_table.push(input1);
    let input2 = String::from("xx This is a text.");
    piece_table = piece_table.push(input2);

    // When
    piece_table.remove(31, 4);

    // Then
    let text = piece_table.get_text();
    assert_eq!(
        text,
        String::from("This is a text. This is a text. This is a text.")
    );
}

#[test]
fn insert_should_insert_text_in_the_content_first_node() {
    // Given
    let input = String::from("This is a text");
    let pushed_input = String::from("...");
    let mut piece_table = PieceTable::new(input);
    piece_table = piece_table.push(pushed_input);

    let added_str = String::from("new ");

    // When
    piece_table.insert(10, added_str);

    // Then
    let text = piece_table.get_text();
    assert_eq!(text, String::from("This is a new text..."))
}

#[test]
fn insert_should_insert_text_in_the_content_of_second_node() {
    // Given
    let input = String::from("This is a text.");
    let pushed_input = String::from(" This is a second piece.");
    let mut piece_table = PieceTable::new(input);
    piece_table = piece_table.push(pushed_input);

    let added_str = String::from("new ");

    // When
    piece_table.insert(26, added_str);

    // Then
    let text = piece_table.get_text();
    assert_eq!(
        text,
        String::from("This is a text. This is a new second piece.")
    )
}

#[test]
fn insert_should_insert_text_in_the_middle_of_nodes() {
    // Given
    let input = String::from("This is a text");
    let pushed_input = String::from("...");
    let mut piece_table = PieceTable::new(input);
    piece_table = piece_table.push(pushed_input);

    let added_str = String::from(" for unit tests");

    // When
    piece_table.insert(14, added_str);

    // Then
    let text = piece_table.get_text();
    assert_eq!(3, piece_table.nodes().len());
    assert_eq!(text, String::from("This is a text for unit tests..."))
}

#[test]
fn insert_should_insert_text_several_times_in_several_nodes() {
    // Given
    let input = String::from("This is a text.");
    let pushed_input = String::from(" This is a second piece.");
    let mut piece_table = PieceTable::new(input);
    piece_table = piece_table.push(pushed_input);

    let added_str = String::from("new ");
    let added_str_2 = String::from("another ");
    let added_str_3 = String::from("n");

    // When
    piece_table.insert(26, added_str);
    piece_table.insert(10, added_str_2);
    piece_table.insert(9, added_str_3);

    // Then
    let text = piece_table.get_text();
    assert_eq!(
        text,
        String::from("This is an another text. This is a new second piece.")
    )
}

#[test]
fn insert_should_insert_text_several_times_in_several_nodes_consecutively() {
    // Given
    let input = String::from("This is a text.");
    let pushed_input = String::from(" This is a second piece.");
    let mut piece_table = PieceTable::new(input);
    piece_table = piece_table.push(pushed_input);

    let added_str = String::from("n");
    let added_str_2 = String::from("e");
    let added_str_3 = String::from("w ");

    // When
    piece_table.insert(26, added_str);
    piece_table.insert(27, added_str_2);
    piece_table.insert(28, added_str_3);

    // Then
    let text = piece_table.get_text();
    assert_eq!(
        text,
        String::from("This is a text. This is a new second piece.")
    );
    assert_eq!(4, piece_table.nodes().len());
}

#[test]
fn should_find_node_where_it_got_inserted_and_its_index() {
    // Given
    let input = String::from("This is a text");
    let push_str = String::from(".");
    let push_str2 = String::from("..");
    let mut piece_table = PieceTable::new(input);
    piece_table = piece_table.push(push_str);
    piece_table = piece_table.push(push_str2);

    let expected_node = piece_table.nodes().get(0).unwrap().clone();

    // When
    let (result, result_index, text_index) =
        piece_table.get_node_where_it_got_inserted_and_index(5);

    // Then
    assert_eq!(0, result_index);
    assert_eq!(expected_node, result);
    assert_eq!(0, text_index);
}

#[test]
fn should_find_node_where_it_got_inserted_and_its_index_even_on_added_nodes() {
    // Given
    let input = String::from("This is a text");
    let push_str = String::from(". And this is another sentence");
    let push_str2 = String::from("...");
    let mut piece_table = PieceTable::new(input);
    piece_table = piece_table.push(push_str);
    piece_table = piece_table.push(push_str2);

    let expected_node = piece_table.nodes().get(1).unwrap().clone();

    // When
    let (result, result_index, text_index) =
        piece_table.get_node_where_it_got_inserted_and_index(20);
    // Then
    assert_eq!(1, result_index);
    assert_eq!(expected_node, result);
    assert_eq!(14, text_index);
}

#[test]
fn should_be_able_to_compare_two_node_tables() {
    // Given
    let x = PieceTable::new(String::from("test"));
    let y = PieceTable::new(String::from("test"));
    let z = PieceTable::new(String::from("test - false"));

    // When
    let result = x == y;
    let result_1 = x == z;
    let result_2 = x.nodes() == y.nodes();

    // Then
    assert_eq!(result, true);
    assert_eq!(result_1, false);
    assert_eq!(result_2, true);
}

#[test]
fn should_be_able_to_compare_two_nodes() {
    // Given
    let x = Node {
        node_type: NodeType::ORIGINAL,
        length: 2,
        start: 5,
    };
    let y = Node {
        node_type: NodeType::ORIGINAL,
        length: 2,
        start: 5,
    };
    let z = Node {
        node_type: NodeType::ORIGINAL,
        length: 2,
        start: 7,
    };

    // When
    let result = x == y;
    let result_1 = x == z;

    // Then
    assert_eq!(result, true);
    assert_eq!(result_1, false);
}

#[test]
fn get_number_of_lines_should_return_1_for_simple_text() {
    // Given
    let input = String::from("This is a text");

    // When
    let piece_table = PieceTable::new(input);

    // Then
    let number_of_line = piece_table.get_number_of_lines();
    assert_eq!(number_of_line, 1)
}

#[test]
fn get_number_of_lines_should_return_3_for_simple_text() {
    // Given
    let input = String::from("This is a text\n bluh\n blah");

    // When
    let piece_table = PieceTable::new(input);

    // Then
    let number_of_line = piece_table.get_number_of_lines();
    assert_eq!(number_of_line, 3)
}
