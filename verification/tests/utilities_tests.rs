use piranha::config::CommandLineArguments;
use piranha::pattern::replace_pattern;
use piranha::source_code_unit::{BRACKET_COMMA, CONSECUTIVE_COMMAS};
use piranha::text::{find_chars, from_chars, join_texts, same_text, text_of, to_chars};
use piranha::edit::Range;
use piranha::utilities::{eq_without_whitespace, has_extension, strip_whitespace, MapOfVec};

#[test]
fn whitespace_is_ignored_in_comparison() {
    assert!(eq_without_whitespace("f(a, c)", "f(a,c)"));
    assert!(eq_without_whitespace(" ,\n", ","));
    assert!(eq_without_whitespace("", " \n "));
    assert!(!eq_without_whitespace("a\tb", "ab"));
    assert!(!eq_without_whitespace("ab", "ba"));
    assert_eq!(strip_whitespace(" a \n b "), vec!['a', 'b']);
}

#[test]
fn collect_keeps_the_values_of_a_key_together() {
    let mut groups: Vec<(usize, Vec<&str>)> = Vec::new();
    groups.collect(3, "a");
    groups.collect(1, "b");
    groups.collect(3, "c");
    groups.collect(1, "d");
    groups.collect(2, "e");
    assert_eq!(groups, vec![(3, vec!["a", "c"]), (1, vec!["b", "d"]), (2, vec!["e"])]);
}

#[test]
fn extension_is_what_follows_the_last_dot_of_the_file_name() {
    assert!(has_extension("/code/src/A.java", "java"));
    assert!(has_extension("A.java", "java"));
    assert!(has_extension("archive.tar.gz", "gz"));
    assert!(!has_extension("archive.tar.gz", "tar"));
    assert!(!has_extension("/code.java/A", "java"));
    assert!(!has_extension("/code/.java", "java"));
    assert!(!has_extension("/code/java", "java"));
    assert!(!has_extension("/code/A.javax", "java"));
    assert!(has_extension("/code/.hidden.java", "java"));
}

#[test]
fn command_line_arguments_hold_the_three_paths() {
    let args = CommandLineArguments {
        path_to_codebase: "/code".to_string(),
        path_to_feature_flag_rules: "/rules".to_string(),
        path_to_piranha_arguments: "/args.toml".to_string(),
    };
    let copy = args.clone();
    assert_eq!(copy.path_to_codebase, "/code");
    assert_eq!(copy.path_to_feature_flag_rules, "/rules");
    assert_eq!(copy.path_to_piranha_arguments, "/args.toml");
}

#[test]
fn characters_go_to_strings_and_back() {
    assert_eq!(to_chars("a\u{e9}b"), vec!['a', '\u{e9}', 'b']);
    assert_eq!(from_chars(&vec!['a', '\u{e9}', 'b']), "a\u{e9}b");
    assert!(same_text("abc", "abc"));
    assert!(!same_text("abc", "abd"));
    assert!(!same_text("abc", "ab"));
    assert_eq!(find_chars(&to_chars("abcabc"), &to_chars("ca")), Some(2));
    assert_eq!(find_chars(&to_chars("abcabc"), &to_chars("")), Some(0));
    assert_eq!(find_chars(&to_chars("abc"), &to_chars("abcd")), None);
    assert_eq!(find_chars(&to_chars(""), &to_chars("")), Some(0));
}

#[test]
fn texts_are_joined_with_the_separator_between() {
    let list = vec!["a".to_string(), "".to_string(), "c".to_string()];
    assert_eq!(join_texts(&list, "|"), "a||c");
    assert_eq!(join_texts(&list[..1].to_vec(), "|"), "a");
    assert_eq!(join_texts(&Vec::new(), "|"), "");
}

#[test]
fn text_of_a_range_needs_whole_characters() {
    let code = "a\u{e9}b".as_bytes();
    assert_eq!(text_of(code, &Range { start_byte: 1, end_byte: 3 }).unwrap(), "\u{e9}");
    assert_eq!(text_of(code, &Range { start_byte: 0, end_byte: 4 }).unwrap(), "a\u{e9}b");
    assert!(text_of(code, &Range { start_byte: 1, end_byte: 2 }).is_none());
    assert!(text_of(code, &Range { start_byte: 3, end_byte: 2 }).is_none());
    assert!(text_of(code, &Range { start_byte: 0, end_byte: 5 }).is_none());
}

#[test]
fn comma_patterns_fix_doubled_and_leading_commas() {
    assert_eq!(replace_pattern(CONSECUTIVE_COMMAS, "f(a, \n , c)", ","), "f(a, c)");
    assert_eq!(replace_pattern(CONSECUTIVE_COMMAS, "f(a, c)", ","), "f(a, c)");
    assert_eq!(replace_pattern(BRACKET_COMMA, "x = [ , a]", "["), "x = [ a]");
    assert_eq!(replace_pattern("(unclosed", "text", "x"), "text");
}
