use piranha::text::contains;
use piranha::utilities::eq_without_whitespace;

#[test]
fn contains_finds_a_substring() {
    assert!(contains("(identifier) @name", "@name"));
    assert!(!contains("(identifier) @name", "@names"));
}

#[test]
fn eq_without_whitespace_ignores_layout() {
    assert!(eq_without_whitespace("a b\nc", "abc"));
    assert!(!eq_without_whitespace("a b\nc", "abd"));
}
