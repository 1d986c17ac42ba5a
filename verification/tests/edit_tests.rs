use piranha::edit::{get_tree_sitter_edit, position_for_offset, Point, Range};

#[test]
fn position_counts_rows_and_columns() {
    let text = b"ab\ncd\n\nxyz";
    assert_eq!(position_for_offset(text, 0), Point { row: 0, column: 0 });
    assert_eq!(position_for_offset(text, 2), Point { row: 0, column: 2 });
    assert_eq!(position_for_offset(text, 3), Point { row: 1, column: 0 });
    assert_eq!(position_for_offset(text, 4), Point { row: 1, column: 1 });
    assert_eq!(position_for_offset(text, 7), Point { row: 3, column: 0 });
    assert_eq!(position_for_offset(text, 10), Point { row: 3, column: 3 });
}

#[test]
fn edit_splices_and_sums_up_the_change() {
    let code = b"f(a,\n  b, c)";
    let range = Range { start_byte: 7, end_byte: 8 };
    let (new_code, edit) = get_tree_sitter_edit(code, &range, b"x\nyz");
    assert_eq!(new_code, b"f(a,\n  x\nyz, c)".to_vec());
    assert_eq!(edit.start_byte, 7);
    assert_eq!(edit.old_end_byte, 8);
    assert_eq!(edit.new_end_byte, 11);
    assert_eq!(edit.start_position, Point { row: 1, column: 2 });
    assert_eq!(edit.old_end_position, Point { row: 1, column: 3 });
    assert_eq!(edit.new_end_position, Point { row: 2, column: 2 });
}

#[test]
fn edit_at_the_ends_of_the_text() {
    let (new_code, edit) = get_tree_sitter_edit(b"abc", &Range { start_byte: 0, end_byte: 3 }, b"");
    assert!(new_code.is_empty());
    assert_eq!(edit.new_end_byte, 0);
    let (new_code, edit) = get_tree_sitter_edit(b"abc", &Range { start_byte: 3, end_byte: 3 }, b"d");
    assert_eq!(new_code, b"abcd".to_vec());
    assert_eq!(edit.new_end_position, Point { row: 0, column: 4 });
}

#[test]
fn ranges_enclose_what_lies_within() {
    let outer = Range { start_byte: 2, end_byte: 10 };
    assert!(outer.contains_range(&Range { start_byte: 2, end_byte: 10 }));
    assert!(outer.contains_range(&Range { start_byte: 3, end_byte: 4 }));
    assert!(!outer.contains_range(&Range { start_byte: 1, end_byte: 4 }));
    assert!(!outer.contains_range(&Range { start_byte: 3, end_byte: 11 }));
}
