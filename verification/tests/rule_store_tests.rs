use piranha::rule::Rule;
use piranha::rule_store::{is_global_tag, parent_targets, RuleStore};
use piranha::scopes::{find_scope, OutgoingEdges, Scope, ScopeGenerator};
use piranha::tag::TagMap;

fn strings(items: &[&str]) -> Vec<String> {
    items.iter().map(|s| s.to_string()).collect()
}

fn tags(pairs: &[(&str, &str)]) -> TagMap {
    let mut map = TagMap::new();
    for (name, text) in pairs {
        map.insert(name.to_string(), text.to_string());
    }
    map
}

fn rule(name: &str, query: &str, holes: &[&str], groups: &[&str]) -> Rule {
    Rule::new(name, query, "n", "", strings(holes), strings(groups), None)
}

fn names(rules: &[Rule]) -> Vec<String> {
    rules.iter().map(|r| r.name.clone()).collect()
}

fn table() -> Vec<Rule> {
    vec![
        rule("simplify_and", "(and) @n", &[], &["boolean"]),
        rule("simplify_or", "(or) @n", &[], &["boolean"]),
        rule("seed_call", "(call @stale_flag_name) @n", &["stale_flag_name"], &["Feature-flag API cleanup"]),
        rule("seed_other", "(other @missing) @n", &["missing"], &["Feature-flag API cleanup"]),
        rule("use_variable", "(id @global_var_x) @n", &["global_var_x"], &[]),
    ]
}

fn edges() -> Vec<OutgoingEdges> {
    vec![
        OutgoingEdges { from: "seed_call".to_string(), to: strings(&["boolean"]), scope: Scope::Parent },
        OutgoingEdges { from: "boolean".to_string(), to: strings(&["simplify_and"]), scope: Scope::Method },
        OutgoingEdges {
            from: "seed_call".to_string(),
            to: strings(&["use_variable", "simplify_or"]),
            scope: Scope::Global,
        },
    ]
}

fn store() -> RuleStore {
    RuleStore::new(table(), edges(), Vec::new(), tags(&[("stale_flag_name", "FOO")]), "java")
}

#[test]
fn seed_rules_are_the_instantiable_feature_flag_rules() {
    let store = store();
    let seeds = store.seed_rules();
    assert_eq!(names(&seeds), strings(&["seed_call"]));
    assert_eq!(seeds[0].query, "(call FOO) @n");
    assert_eq!(seeds[0].grep_heuristics, strings(&["FOO"]));
    assert!(store.global_rules().is_empty());
    assert!(store.method_rules().is_empty());
    assert!(store.class_rules().is_empty());
    assert_eq!(store.language_name(), "java");
    assert_eq!(store.input_substitutions().get("stale_flag_name").unwrap(), "FOO");
}

#[test]
fn add_global_rule_is_idempotent_by_name() {
    let mut store = store();
    store.add_global_rule(rule("simplify_and", "(and) @n", &[], &[]));
    store.add_global_rule(rule("simplify_or", "(or) @n", &[], &[]));
    assert_eq!(store.global_count(), 2);
    store.add_global_rule(rule("simplify_and", "(and changed) @n", &[], &[]));
    assert_eq!(names(&store.global_rules()), strings(&["simplify_and", "simplify_or"]));
    assert_eq!(store.global_rules()[0].query, "(and) @n");
    store.add_global_rule(rule("seed_call", "(call) @n", &[], &[]));
    assert_eq!(store.global_count(), 2);
    assert_eq!(names(&store.seed_rules()), strings(&["seed_call"]));
}

#[test]
fn promotion_moves_a_rule_out_of_its_partition() {
    let mut store = store();
    store.add_method_rule(rule("simplify_and", "(and) @n", &[], &[]));
    store.add_class_rule(rule("simplify_or", "(or) @n", &[], &[]));
    store.add_class_rule(rule("simplify_and", "(and) @n", &[], &[]));
    assert_eq!(names(&store.method_rules()), strings(&["simplify_and"]));
    assert_eq!(names(&store.class_rules()), strings(&["simplify_or"]));
    store.add_global_rule(rule("simplify_and", "(and) @n", &[], &[]));
    assert!(store.method_rules().is_empty());
    assert_eq!(names(&store.global_rules()), strings(&["simplify_and"]));
    assert_eq!(names(&store.class_rules()), strings(&["simplify_or"]));
}

#[test]
fn outgoing_resolves_groups_and_skips_unbound_holes() {
    let store = store();
    let seed = store.seed_rules().remove(0);
    let next = store.outgoing(&seed, &tags(&[("stale_flag_name", "FOO")]));
    assert_eq!(next.len(), 2);
    assert!(matches!(next[0].0, Scope::Parent));
    assert_eq!(names(&next[0].1), strings(&["simplify_and", "simplify_or"]));
    assert!(matches!(next[1].0, Scope::Global));
    assert_eq!(names(&next[1].1), strings(&["simplify_or"]));

    let bound = tags(&[("stale_flag_name", "FOO"), ("global_var_x", "enabled")]);
    let next = store.outgoing(&seed, &bound);
    assert_eq!(names(&next[1].1), strings(&["simplify_or", "use_variable"]));
    assert_eq!(next[1].1[1].query, "(id enabled) @n");

    let and = rule("simplify_and", "(and) @n", &[], &["boolean"]);
    let next = store.outgoing(&and, &bound);
    assert_eq!(next.len(), 1);
    assert!(matches!(next[0].0, Scope::Method));
    assert_eq!(names(&next[0].1), strings(&["simplify_and"]));
}

#[test]
fn only_global_tags_reach_the_seed_tags() {
    let mut store = store();
    store.add_to_input_substitutions(&tags(&[("global_var_x", "enabled"), ("local", "1")]));
    let seed = store.input_substitutions();
    assert_eq!(seed.get("global_var_x").unwrap(), "enabled");
    assert!(seed.get("local").is_none());
    assert_eq!(seed.get("stale_flag_name").unwrap(), "FOO");
    assert!(is_global_tag("global_var_"));
    assert!(!is_global_tag("global_va"));
    assert!(!is_global_tag("my_global_var_x"));
}

#[test]
fn scopes_are_read_from_their_names() {
    assert!(matches!(Scope::from_name("Parent"), Scope::Parent));
    assert!(matches!(Scope::from_name("Method"), Scope::Method));
    assert!(matches!(Scope::from_name("Class"), Scope::Class));
    assert!(matches!(Scope::from_name("Global"), Scope::Global));
    match Scope::from_name("Block") {
        Scope::Named(name) => assert_eq!(name, "Block"),
        _ => panic!("a name of the configuration stays a name"),
    }
    assert_eq!(Scope::Method.config_name().unwrap(), "Method");
    assert_eq!(Scope::Class.config_name().unwrap(), "Class");
    assert!(Scope::Parent.config_name().is_none());
    assert!(Scope::Global.config_name().is_none());
    let scopes = vec![
        ScopeGenerator { name: "Method".to_string(), rules: Vec::new() },
        ScopeGenerator { name: "Class".to_string(), rules: Vec::new() },
        ScopeGenerator { name: "Method".to_string(), rules: Vec::new() },
    ];
    assert_eq!(find_scope(&scopes, "Class"), Some(1));
    assert_eq!(find_scope(&scopes, "Method"), Some(0));
    assert_eq!(find_scope(&scopes, "Block"), None);
}

#[test]
fn register_follows_the_edges_in_order() {
    let mut store = store();
    let next = vec![
        (Scope::Global, vec![rule("a", "(a) @n", &[], &[]), rule("b", "(b) @n", &[], &[])]),
        (Scope::Method, vec![rule("c", "(c) @n", &[], &[]), rule("a", "(a) @n", &[], &[])]),
        (Scope::Parent, vec![rule("d", "(d) @n", &[], &[])]),
        (Scope::Class, vec![rule("e", "(e) @n", &[], &[])]),
        (Scope::Named("Block".to_string()), vec![rule("f", "(f) @n", &[], &[])]),
        (Scope::Global, vec![rule("e", "(e) @n", &[], &[]), rule("seed_call", "(x) @n", &[], &[])]),
    ];
    store.register(&next);
    assert_eq!(names(&store.global_rules()), strings(&["a", "b", "e"]));
    assert_eq!(names(&store.method_rules()), strings(&["c"]));
    assert!(store.class_rules().is_empty());
    assert_eq!(names(&store.seed_rules()), strings(&["seed_call"]));
    assert_eq!(names(&parent_targets(&next)), strings(&["d"]));
}

#[test]
fn enter_at_goes_by_the_scope_of_the_edge() {
    let mut store = store();
    store.enter_at(&Scope::Parent, rule("a", "(a) @n", &[], &[]));
    store.enter_at(&Scope::Named("Block".to_string()), rule("a", "(a) @n", &[], &[]));
    assert!(store.global_rules().is_empty() && store.method_rules().is_empty());
    store.enter_at(&Scope::Class, rule("a", "(a) @n", &[], &[]));
    assert_eq!(names(&store.class_rules()), strings(&["a"]));
    store.enter_at(&Scope::Global, rule("a", "(a) @n", &[], &[]));
    assert_eq!(names(&store.global_rules()), strings(&["a"]));
    assert!(store.class_rules().is_empty());
}
