use piranha::grep::{
    dedup_texts, drop_literals, gather_heuristics, grep_heuristics, holds_fragment, sort_texts,
    text_precedes,
};
use piranha::rule::Rule;
use piranha::tag::TagMap;

fn strings(items: &[&str]) -> Vec<String> {
    items.iter().map(|s| s.to_string()).collect()
}

fn chars(s: &str) -> Vec<char> {
    s.chars().collect()
}

fn rule_with(heuristics: &[&str]) -> Rule {
    let mut tags = TagMap::new();
    let mut holes = Vec::new();
    let mut query = String::new();
    for (i, text) in heuristics.iter().enumerate() {
        let hole = format!("h{}", i);
        query.push_str(&format!("(@{}) ", hole));
        tags.insert(hole.clone(), text.to_string());
        holes.push(hole);
    }
    Rule::new("r", &query, "n", "", holes, Vec::new(), None).instantiate(&tags)
}

#[test]
fn strings_are_ordered_as_the_standard_library_orders_them() {
    let samples = ["", "a", "ab", "b", "B", "a\u{e9}", "a\u{10348}", "az", "\u{e9}"];
    for a in samples {
        for b in samples {
            assert_eq!(text_precedes(&chars(a), &chars(b)), a <= b, "{:?} <= {:?}", a, b);
        }
    }
}

#[test]
fn sorting_agrees_with_the_standard_library() {
    let list = strings(&["b", "a", "B", "ab", "", "a", "\u{e9}", "z"]);
    let mut expected = list.clone();
    expected.sort();
    assert_eq!(sort_texts(&list), expected);
    assert_eq!(sort_texts(&strings(&["b", "a", "B", "ab"])), strings(&["B", "a", "ab", "b"]));
    assert!(sort_texts(&Vec::new()).is_empty());
}

#[test]
fn dedup_drops_repeats_of_the_neighbour_only() {
    assert_eq!(dedup_texts(&strings(&["a", "a", "b", "a", "a", "a"])), strings(&["a", "b", "a"]));
    assert_eq!(dedup_texts(&strings(&["a"])), strings(&["a"]));
    assert!(dedup_texts(&Vec::new()).is_empty());
}

#[test]
fn boolean_literals_are_dropped() {
    assert_eq!(
        drop_literals(&strings(&["FOO", "true", "false", "True", "falsely"])),
        strings(&["FOO", "True", "falsely"])
    );
}

#[test]
fn heuristics_are_sorted_and_stand_once() {
    let rules = vec![rule_with(&["FOO", "true"]), rule_with(&[]), rule_with(&["BAR", "FOO"])];
    assert_eq!(gather_heuristics(&rules), strings(&["FOO", "true", "BAR", "FOO"]));
    assert_eq!(grep_heuristics(&rules), strings(&["BAR", "FOO"]));
    assert!(grep_heuristics(&vec![rule_with(&["false"])]).is_empty());
    assert!(grep_heuristics(&Vec::new()).is_empty());
}

#[test]
fn text_is_kept_where_it_holds_a_fragment() {
    let fragments = strings(&["FOO", "a.b"]);
    assert!(holds_fragment(&fragments, "x = FOO;"));
    assert!(holds_fragment(&fragments, "call(a.b)"));
    assert!(!holds_fragment(&fragments, "call(axb) foo"));
    assert!(holds_fragment(&Vec::new(), "anything"));
    assert!(holds_fragment(&strings(&[""]), ""));
    assert!(!holds_fragment(&strings(&["F"]), ""));
}
