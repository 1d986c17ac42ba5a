use piranha::rule::{Constraint, Predicate, Rule, FEATURE_FLAG_API_GROUP};
use piranha::tag::TagMap;
use piranha::text::contains;

fn strings(items: &[&str]) -> Vec<String> {
    items.iter().map(|s| s.to_string()).collect()
}

fn tags(pairs: &[(&str, &str)]) -> TagMap {
    let mut map = TagMap::new();
    for (name, text) in pairs {
        map.insert(name.to_string(), text.to_string());
    }
    map
}

fn flag_rule() -> Rule {
    Rule::new(
        "replace_call",
        "((call (string) @s) @c (#eq? @s \"@stale_flag_name\"))",
        "c",
        "@treated",
        strings(&["stale_flag_name", "treated"]),
        strings(&["boolean"]),
        Some(Constraint {
            matcher: "(method) @m".to_string(),
            predicate: Predicate::NoneOf,
            queries: strings(&["(assign @stale_flag_name)"]),
        }),
    )
}

#[test]
fn try_instantiate_fills_query_and_replacement() {
    let rule = flag_rule();
    let bound = tags(&[("stale_flag_name", "FOO"), ("treated", "true"), ("s", "other")]);
    assert!(rule.is_instantiable(&bound));
    let ready = rule.try_instantiate(&bound).unwrap();
    assert_eq!(ready.name, "replace_call");
    assert_eq!(ready.query, "((call (string) @s) @c (#eq? @s \"FOO\"))");
    assert_eq!(ready.replace, "true");
    assert_eq!(ready.replace_node, "c");
    assert_eq!(ready.holes, strings(&["stale_flag_name", "treated"]));
    assert_eq!(ready.groups, strings(&["boolean"]));
    assert_eq!(ready.grep_heuristics, strings(&["FOO"]));
    let constraint = ready.constraint.unwrap();
    assert_eq!(constraint.matcher, "(method) @m");
    assert_eq!(constraint.predicate, Predicate::NoneOf);
    assert_eq!(constraint.queries, strings(&["(assign @stale_flag_name)"]));
}

#[test]
fn try_instantiate_fails_on_an_unbound_hole() {
    let rule = flag_rule();
    let bound = tags(&[("stale_flag_name", "FOO")]);
    assert!(!rule.is_instantiable(&bound));
    let error = rule.try_instantiate(&bound).unwrap_err();
    assert_eq!(error.rule, "replace_call");
}

#[test]
fn instantiate_agrees_with_try_instantiate() {
    let rule = flag_rule();
    let bound = tags(&[("stale_flag_name", "FOO"), ("treated", "false")]);
    let ready = rule.instantiate(&bound);
    assert_eq!(ready.query, rule.try_instantiate(&bound).unwrap().query);
    assert_eq!(ready.replace, "false");
}

#[test]
fn instantiated_query_holds_no_hole_of_the_rule() {
    let rule = flag_rule();
    let bound = tags(&[("stale_flag_name", "FOO"), ("treated", "true")]);
    let ready = rule.instantiate(&bound);
    assert!(!contains(&ready.query, "@stale_flag_name"));
    assert!(!contains(&ready.query, "@treated"));
    assert!(contains(&ready.query, "@s"));
}

#[test]
fn grep_heuristics_come_from_holes_in_the_query_only() {
    let mut rule = flag_rule();
    assert!(rule.grep_heuristics.is_empty());
    rule.derive_grep_heuristics(&tags(&[("treated", "true"), ("stale_flag_name", "FOO")]));
    assert_eq!(rule.grep_heuristics, strings(&["FOO"]));
    rule.derive_grep_heuristics(&tags(&[("treated", "true")]));
    assert!(rule.grep_heuristics.is_empty());
}

#[test]
fn groups_tell_feature_flag_rules_apart() {
    let mut rule = flag_rule();
    assert!(!rule.is_feature_flag_cleanup());
    assert!(rule.is_in_group("boolean"));
    rule.add_to_group("cleanup");
    assert_eq!(rule.groups, strings(&["boolean", "cleanup"]));
    rule.add_to_feature_flag_api_group();
    assert!(rule.is_feature_flag_cleanup());
    assert_eq!(rule.groups, strings(&["boolean", "cleanup", "Feature-flag API cleanup"]));
    assert_eq!(FEATURE_FLAG_API_GROUP, "Feature-flag API cleanup");
}

#[test]
fn clone_keeps_the_rule() {
    let rule = flag_rule();
    let copy = rule.clone();
    assert_eq!(copy.name, rule.name);
    assert_eq!(copy.query, rule.query);
    assert_eq!(copy.holes, rule.holes);
    assert_eq!(copy.constraint.unwrap().queries, rule.constraint.unwrap().queries);
}
