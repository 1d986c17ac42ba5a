use piranha::engine::scoped_tasks;
use piranha::rule::{Constraint, Predicate, Rule};
use piranha::scopes::{OutgoingEdges, Scope, ScopeGenerator, ScopeQueryGenerator};
use piranha::rule_store::RuleStore;
use piranha::source_code_unit::SourceCodeUnit;
use piranha::tag::TagMap;

fn java_parser() -> tree_sitter::Parser {
    let mut parser = tree_sitter::Parser::new();
    parser
        .set_language(tree_sitter_java::language())
        .expect("the Java grammar loads");
    parser
}

fn rule(name: &str, query: &str, replace_node: &str, replace: &str) -> Rule {
    Rule::new(name, query, replace_node, replace, Vec::new(), Vec::new(), None)
}

fn run(code: &str, rules: Vec<Rule>, steps: usize) -> (String, bool) {
    let mut parser = java_parser();
    let mut store = RuleStore::new(Vec::new(), Vec::new(), Vec::new(), TagMap::new(), "java");
    let mut unit =
        SourceCodeUnit::new(&mut parser, code.to_string(), &TagMap::new(), "T.java").unwrap();
    let progress = unit
        .apply_rules(&mut store, &rules, &mut parser, None, steps)
        .unwrap();
    (unit.code(), progress.complete)
}

#[test]
fn constant_fold_keeps_the_consequence() {
    let fold = rule(
        "fold_if_true",
        "((if_statement condition: (condition (true)) consequence: (_) @c alternative: (_) @a) @stmt)",
        "stmt",
        "@c",
    );
    let (code, complete) = run(
        "class T { void m() { if (true) { a(); } else { b(); } } }",
        vec![fold],
        100,
    );
    assert_eq!(code, "class T { void m() { { a(); } } }");
    assert!(complete);
}

#[test]
fn negation_of_true_becomes_false() {
    let negate = || {
        rule(
            "negate_true",
            "((unary_expression operator: \"!\" operand: (true)) @u)",
            "u",
            "false",
        )
    };
    let (code, complete) = run("class T { boolean b = !true; }", vec![negate()], 100);
    assert_eq!(code, "class T { boolean b = false; }");
    assert!(complete);
    let (again, complete) = run(&code, vec![negate()], 100);
    assert_eq!(again, code);
    assert!(complete);
}

#[test]
fn deeper_match_is_rewritten_first() {
    let unwrap = || {
        rule(
            "drop_parentheses",
            "((parenthesized_expression (_) @inner) @outer)",
            "outer",
            "@inner",
        )
    };
    let (code, complete) = run("class T { int x = (1) + ((2)); }", vec![unwrap()], 1);
    assert_eq!(code, "class T { int x = (1) + (2); }");
    assert!(!complete);
    let (code, complete) = run("class T { int x = (1) + ((2)); }", vec![unwrap()], 100);
    assert_eq!(code, "class T { int x = 1 + 2; }");
    assert!(complete);
}

#[test]
fn matches_are_the_places_where_the_query_fits() {
    let mut parser = java_parser();
    let code = "class T { int x = (1) + ((2)); }";
    let unit =
        SourceCodeUnit::new(&mut parser, code.to_string(), &TagMap::new(), "T.java").unwrap();
    let query = tree_sitter::Query::new(
        tree_sitter_java::language(),
        "((parenthesized_expression (_) @inner) @outer)",
    )
    .unwrap();
    let hits = unit.matches(&query, &unit.whole(), true);
    let texts: Vec<&str> =
        hits.iter().map(|h| &code[h.range.start_byte..h.range.end_byte]).collect();
    assert_eq!(texts, vec!["(1)", "((2))", "(2)"]);
    let inner = hits[2].range;
    assert_eq!(unit.matches(&query, &inner, false).len(), 1);
    assert_eq!(unit.matches(&query, &inner, true).len(), 1);
}

#[test]
fn captures_become_tags_of_the_file() {
    let mut parser = java_parser();
    let mut store = RuleStore::new(Vec::new(), Vec::new(), Vec::new(), TagMap::new(), "java");
    let code = "class T { boolean global_flag = true; }";
    let mut unit =
        SourceCodeUnit::new(&mut parser, code.to_string(), &TagMap::new(), "T.java").unwrap();
    let rules = vec![rule(
        "delete_field",
        "((field_declaration declarator: (variable_declarator name: (identifier) @global_var_name value: (true) @value)) @decl)",
        "decl",
        "",
    )];
    unit.apply_rules(&mut store, &rules, &mut parser, None, 100).unwrap();
    assert_eq!(unit.code(), "class T {  }");
    assert_eq!(unit.substitutions().get("global_var_name").unwrap(), "global_flag");
    assert_eq!(unit.substitutions().get("value").unwrap(), "true");
    assert_eq!(store.input_substitutions().get("global_var_name").unwrap(), "global_flag");
    assert!(store.input_substitutions().get("value").is_none());
}

#[test]
fn constraint_keeps_a_rule_from_firing() {
    let unused = Rule::new(
        "delete_unused_local",
        "((local_variable_declaration declarator: (variable_declarator name: (identifier) @name)) @decl)",
        "decl",
        "",
        Vec::new(),
        Vec::new(),
        Some(Constraint {
            matcher: "((method_declaration) @m)".to_string(),
            predicate: Predicate::NoneOf,
            queries: vec![
                "((method_invocation arguments: (argument_list (identifier) @use)) (#eq? @use \"@name\"))"
                    .to_string(),
            ],
        }),
    );
    let (code, complete) = run(
        "class T { void m() { int a = 1; int b = 2; f(b); } }",
        vec![unused],
        100,
    );
    assert_eq!(code, "class T { void m() {  int b = 2; f(b); } }");
    assert!(complete);
}

#[test]
fn parent_edge_rewrites_the_node_above_the_change() {
    let call = || rule("replace_call", "((method_invocation name: (identifier) @n (#eq? @n \"isFoo\")) @call)", "call", "true");
    let negate = rule(
        "negate_true",
        "((unary_expression operator: \"!\" operand: (true)) @u)",
        "u",
        "false",
    );
    let edges = vec![OutgoingEdges {
        from: "replace_call".to_string(),
        to: vec!["negate_true".to_string()],
        scope: Scope::Parent,
    }];
    let mut parser = java_parser();
    let code = "class T { boolean a = !isFoo(); boolean b = !true; }";

    let mut store = RuleStore::new(vec![call(), negate], edges, Vec::new(), TagMap::new(), "java");
    let mut unit =
        SourceCodeUnit::new(&mut parser, code.to_string(), &TagMap::new(), "T.java").unwrap();
    let progress = unit.apply_rules(&mut store, &vec![call()], &mut parser, None, 100).unwrap();
    assert!(progress.complete);
    assert_eq!(unit.code(), "class T { boolean a = false; boolean b = !true; }");

    let mut bare = RuleStore::new(vec![call()], Vec::new(), Vec::new(), TagMap::new(), "java");
    let mut unit =
        SourceCodeUnit::new(&mut parser, code.to_string(), &TagMap::new(), "T.java").unwrap();
    unit.apply_rules(&mut bare, &vec![call()], &mut parser, None, 100).unwrap();
    assert_eq!(unit.code(), "class T { boolean a = !true; boolean b = !true; }");
}

#[test]
fn no_rules_or_no_steps_change_nothing() {
    let (code, complete) = run("class T { boolean b = !true; }", Vec::new(), 100);
    assert_eq!(code, "class T { boolean b = !true; }");
    assert!(complete);
    let negate = rule(
        "negate_true",
        "((unary_expression operator: \"!\" operand: (true)) @u)",
        "u",
        "false",
    );
    let (code, complete) = run("class T { boolean b = !true; }", vec![negate], 0);
    assert_eq!(code, "class T { boolean b = !true; }");
    assert!(!complete);
}

#[test]
fn tasks_come_from_edges_whose_scope_was_found() {
    let next = vec![
        (Scope::Global, vec![rule("a", "(a) @n", "n", "")]),
        (Scope::Method, vec![rule("b", "(b) @n", "n", ""), rule("c", "(c) @n", "n", "")]),
        (Scope::Parent, vec![rule("d", "(d) @n", "n", "")]),
        (Scope::Class, vec![rule("e", "(e) @n", "n", "")]),
        (Scope::Named("Block".to_string()), vec![rule("f", "(f) @n", "n", "")]),
    ];
    let queries = vec![
        Some("(global) @g".to_string()),
        Some("(method) @m".to_string()),
        Some("(parent) @p".to_string()),
        None,
        Some("(block) @b".to_string()),
    ];
    let tasks = scoped_tasks(&next, &queries);
    let summary: Vec<(String, Option<String>)> =
        tasks.iter().map(|t| (t.rule.name.clone(), t.scope.clone())).collect();
    assert_eq!(
        summary,
        vec![
            ("b".to_string(), Some("(method) @m".to_string())),
            ("c".to_string(), Some("(method) @m".to_string())),
            ("f".to_string(), Some("(block) @b".to_string())),
        ]
    );
}

#[test]
fn outermost_enclosing_scope_is_taken() {
    let call = || rule("replace_call", "((method_invocation name: (identifier) @n (#eq? @n \"isFoo\")) @call)", "call", "true");
    let negate = rule(
        "negate_true",
        "((unary_expression operator: \"!\" operand: (true)) @u)",
        "u",
        "false",
    );
    let edges = vec![OutgoingEdges {
        from: "replace_call".to_string(),
        to: vec!["negate_true".to_string()],
        scope: Scope::Class,
    }];
    let scopes = vec![ScopeGenerator {
        name: "Class".to_string(),
        rules: vec![ScopeQueryGenerator {
            matcher: "((class_declaration name: (_) @n) @c)".to_string(),
            generator: "((class_declaration name: (_) @z (#eq? @z \"@n\")) @qc)".to_string(),
        }],
    }];
    let mut parser = java_parser();
    let code = "class Outer { boolean a = !true; class Inner { boolean b = isFoo(); } } class Other { boolean c = !true; }";
    let mut store = RuleStore::new(vec![call(), negate], edges, scopes, TagMap::new(), "java");
    let mut unit =
        SourceCodeUnit::new(&mut parser, code.to_string(), &TagMap::new(), "T.java").unwrap();
    let progress = unit.apply_rules(&mut store, &vec![call()], &mut parser, None, 100).unwrap();
    assert!(progress.complete);
    assert_eq!(
        unit.code(),
        "class Outer { boolean a = false; class Inner { boolean b = true; } } class Other { boolean c = !true; }"
    );
    let class_rules: Vec<String> = store.class_rules().iter().map(|r| r.name.clone()).collect();
    assert_eq!(class_rules, vec!["negate_true".to_string()]);
}
