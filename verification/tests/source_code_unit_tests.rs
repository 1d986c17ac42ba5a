use piranha::edit::{Edit, Range};
use piranha::source_code_unit::{FileAction, SourceCodeUnit, UnitError};
use piranha::tag::TagMap;
use piranha::utilities::eq_without_whitespace;

fn java_parser() -> tree_sitter::Parser {
    let mut parser = tree_sitter::Parser::new();
    parser
        .set_language(tree_sitter_java::language())
        .expect("the Java grammar loads");
    parser
}

fn delete(code: &str, what: &str) -> Edit {
    let start = code.find(what).expect("the text to delete is there");
    Edit {
        replacement_range: Range { start_byte: start, end_byte: start + what.len() },
        replacement_string: String::new(),
        matched_rule: String::from("delete"),
    }
}

#[test]
fn extra_comma_is_removed_after_deleting_an_argument() {
    let mut parser = java_parser();
    let code = "class A { void m() { f(a, b, c); } }";
    let mut unit =
        SourceCodeUnit::new(&mut parser, code.to_string(), &TagMap::new(), "A.java").unwrap();
    let edit = delete(code, "b");
    let done = unit.apply_edit(&edit, &mut parser).unwrap();
    assert_eq!(done.start_byte, 26);
    assert_eq!(done.old_end_byte, 27);
    assert_eq!(done.new_end_byte, 26);
    println!("{}", unit.code());
    assert!(eq_without_whitespace(&unit.code(), "class A { void m() { f(a, c); } }"));
    assert!(!unit.root_node().unwrap().has_error);
}

#[test]
fn edit_without_recovery_keeps_the_damage() {
    let mut parser = java_parser();
    let code = "class A { void m() { f(a, b, c); } }";
    let mut unit =
        SourceCodeUnit::new(&mut parser, code.to_string(), &TagMap::new(), "A.java").unwrap();
    let edit = delete(code, "b");
    unit._apply_edit(&edit.replacement_range, "", &mut parser, false).unwrap();
    assert_eq!(unit.code(), "class A { void m() { f(a, , c); } }");
    assert!(unit.root_node().unwrap().has_error);
}

#[test]
fn range_outside_the_text_is_refused() {
    let mut parser = java_parser();
    let code = "class A {}";
    let mut unit =
        SourceCodeUnit::new(&mut parser, code.to_string(), &TagMap::new(), "A.java").unwrap();
    let edit = Edit {
        replacement_range: Range { start_byte: 4, end_byte: 40 },
        replacement_string: String::new(),
        matched_rule: String::from("delete"),
    };
    assert_eq!(unit.apply_edit(&edit, &mut parser), Err(UnitError::OutOfBounds));
    assert_eq!(unit.code(), code);
}

#[test]
fn empty_file_is_deleted_on_persist() {
    let mut parser = java_parser();
    let unit = SourceCodeUnit::new(&mut parser, String::new(), &TagMap::new(), "Flags.java")
        .unwrap();
    match unit.persist() {
        FileAction::Delete(path) => assert_eq!(path, "Flags.java"),
        FileAction::Write(..) => panic!("an empty file is removed, not written"),
    }
}

#[test]
fn range_that_splits_a_character_is_refused() {
    let mut parser = java_parser();
    let code = "class A { String s = \"\u{e9}\"; }";
    let mut unit =
        SourceCodeUnit::new(&mut parser, code.to_string(), &TagMap::new(), "A.java").unwrap();
    let start = code.find('\u{e9}').unwrap();
    let edit = Edit {
        replacement_range: Range { start_byte: start, end_byte: start + 1 },
        replacement_string: String::new(),
        matched_rule: String::from("delete"),
    };
    assert_eq!(unit.apply_edit(&edit, &mut parser), Err(UnitError::NotText));
    assert_eq!(unit.code(), code);
}

#[test]
fn parser_without_a_language_parses_nothing() {
    let mut parser = tree_sitter::Parser::new();
    let made = SourceCodeUnit::new(&mut parser, "class A {}".to_string(), &TagMap::new(), "A.java");
    assert!(matches!(made, Err(UnitError::ParserFailed)));
}

#[test]
fn damage_that_no_recovery_mends_is_a_syntax_error() {
    let mut parser = java_parser();
    let code = "class A { void m() { f(a); } }";
    let mut unit =
        SourceCodeUnit::new(&mut parser, code.to_string(), &TagMap::new(), "A.java").unwrap();
    let edit = delete(code, "{ f");
    assert_eq!(unit.apply_edit(&edit, &mut parser), Err(UnitError::SyntaxError));
    assert!(unit.root_node().unwrap().has_error);
}

#[test]
fn dry_run_sums_the_edit_up_and_changes_nothing() {
    let mut parser = java_parser();
    let code = "class A {\n  int x = 1;\n}";
    let unit =
        SourceCodeUnit::new(&mut parser, code.to_string(), &TagMap::new(), "A.java").unwrap();
    let start = code.find("1").unwrap();
    let edit = Edit {
        replacement_range: Range { start_byte: start, end_byte: start + 1 },
        replacement_string: String::from("22"),
        matched_rule: String::from("replace"),
    };
    let done = unit.apply_edit_dry(&edit).unwrap();
    assert_eq!(done.start_byte, start);
    assert_eq!(done.old_end_byte, start + 1);
    assert_eq!(done.new_end_byte, start + 2);
    assert_eq!(done.start_position.row, 1);
    assert_eq!(done.start_position.column, 10);
    assert_eq!(done.new_end_position.column, 12);
    assert_eq!(unit.code(), code);
    let outside = Edit {
        replacement_range: Range { start_byte: 5, end_byte: 500 },
        replacement_string: String::new(),
        matched_rule: String::from("delete"),
    };
    assert_eq!(unit.apply_edit_dry(&outside), Err(UnitError::OutOfBounds));
}

#[test]
fn whole_text_can_be_replaced() {
    let mut parser = java_parser();
    let mut unit = SourceCodeUnit::new(&mut parser, "class A {}".to_string(), &TagMap::new(), "A.java")
        .unwrap();
    unit._apply_edit_replace_file_contents("class B { int x; }", &mut parser).unwrap();
    assert_eq!(unit.code(), "class B { int x; }");
    assert_eq!(unit.path(), "A.java");
    assert_eq!(unit.root_node().unwrap().range, Range { start_byte: 0, end_byte: 18 });
    match unit.persist() {
        FileAction::Write(path, contents) => {
            assert_eq!(path, "A.java");
            assert_eq!(contents, "class B { int x; }");
        }
        FileAction::Delete(_) => panic!("a file with text is written"),
    }
}

#[test]
fn sound_text_needs_no_recovery() {
    let mut parser = java_parser();
    let mut unit = SourceCodeUnit::new(&mut parser, "class A {}".to_string(), &TagMap::new(), "A.java")
        .unwrap();
    unit.remove_additional_comma_from_sequence_list(&mut parser).unwrap();
    assert_eq!(unit.code(), "class A {}");
}

#[test]
fn copy_of_a_unit_stands_on_its_own() {
    let mut parser = java_parser();
    let code = "class A { void m() { f(a, b, c); } }";
    let mut unit =
        SourceCodeUnit::new(&mut parser, code.to_string(), &TagMap::new(), "A.java").unwrap();
    let copy = unit.clone();
    unit.apply_edit(&delete(code, "b"), &mut parser).unwrap();
    assert_eq!(copy.code(), code);
    assert!(!copy.root_node().unwrap().has_error);
}

#[test]
fn valid_tree_is_adopted_and_a_damaged_one_is_not() {
    let mut parser = java_parser();
    let mut unit =
        SourceCodeUnit::new(&mut parser, "class A { }".to_string(), &TagMap::new(), "A.java")
            .unwrap();
    let damaged = "class A { void m() { f(a, , c); } }";
    let tree = parser.parse(damaged, None).unwrap();
    assert!(!unit.adopt_if_valid(tree, damaged.to_string()));
    assert_eq!(unit.code(), "class A { }");
    let sound = "class B { }";
    let tree = parser.parse(sound, None).unwrap();
    assert!(unit.adopt_if_valid(tree, sound.to_string()));
    assert_eq!(unit.code(), sound);
    assert!(unit.is_modified());
    assert_eq!(unit.path(), "A.java");
}

#[test]
fn unit_is_modified_once_its_text_differs_from_what_was_read() {
    let mut parser = java_parser();
    let code = "class A { void m() { f(a, b, c); } }";
    let mut unit =
        SourceCodeUnit::new(&mut parser, code.to_string(), &TagMap::new(), "A.java").unwrap();
    assert!(!unit.is_modified());
    unit.apply_edit(&delete(code, "b"), &mut parser).unwrap();
    assert!(unit.is_modified());
    unit._apply_edit_replace_file_contents(code, &mut parser).unwrap();
    assert!(!unit.is_modified());
}

#[test]
fn first_comma_whose_deletion_mends_the_tree_is_the_one_removed() {
    let mut parser = java_parser();
    let code = "class A { void m() { f(a, x, c); g(d, e); } }";
    let mut unit =
        SourceCodeUnit::new(&mut parser, code.to_string(), &TagMap::new(), "A.java").unwrap();
    unit.apply_edit(&delete(code, "x"), &mut parser).unwrap();
    assert!(eq_without_whitespace(&unit.code(), "class A { void m() { f(a, c); g(d, e); } }"));
    assert!(!unit.root_node().unwrap().has_error);
}
