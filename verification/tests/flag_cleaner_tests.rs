use piranha::config::{read_config_files, PiranhaArguments};
use piranha::flag_cleaner::{CleanupError, FlagCleaner, Pass, SourceFile};
use piranha::engine::Progress;
use piranha::rule::Rule;
use piranha::scopes::{OutgoingEdges, Scope, ScopeGenerator, ScopeQueryGenerator};
use piranha::source_code_unit::FileAction;
use piranha::tag::TagMap;
use piranha::utilities::eq_without_whitespace;

fn strings(items: &[&str]) -> Vec<String> {
    items.iter().map(|s| s.to_string()).collect()
}

fn arguments(language: &str) -> PiranhaArguments {
    PiranhaArguments::new("/code", "/config", language, "FOO", "ns", true, &TagMap::new())
}

fn edge(from: &str, to: &[&str], scope: &str) -> OutgoingEdges {
    OutgoingEdges { from: from.to_string(), to: strings(to), scope: Scope::from_name(scope) }
}

fn method_scope() -> ScopeGenerator {
    ScopeGenerator {
        name: "Method".to_string(),
        rules: vec![ScopeQueryGenerator {
            matcher: "((method_declaration name: (_) @n parameters: (_) @fp) @xdn)".to_string(),
            generator: "((method_declaration name: (_) @z parameters: (_) @tp (#eq? @z \"@n\") (#eq? @tp \"@fp\")) @qdn)".to_string(),
        }],
    }
}

fn flag_api_rule() -> Rule {
    Rule::new(
        "replace_is_treated",
        "((method_invocation name: (identifier) @name arguments: (argument_list (string_literal) @flag)) @call (#eq? @name \"isTreated\") (#eq? @flag \"\\\"@stale_flag_name\\\"\"))",
        "call",
        "@treated",
        strings(&["stale_flag_name", "treated"]),
        Vec::new(),
        None,
    )
}

fn cleanup_rules() -> Vec<Rule> {
    vec![
        Rule::new(
            "delete_flag_field",
            "((field_declaration declarator: (variable_declarator name: (identifier) @global_var_flag value: (true))) @decl)",
            "decl",
            "",
            Vec::new(),
            Vec::new(),
            None,
        ),
        Rule::new(
            "replace_flag_usage",
            "((identifier) @id (#eq? @id \"@global_var_flag\"))",
            "id",
            "true",
            strings(&["global_var_flag"]),
            Vec::new(),
            None,
        ),
        Rule::new(
            "fold_if_true",
            "((if_statement condition: (condition (true)) consequence: (_) @c alternative: (_) @a) @stmt)",
            "stmt",
            "@c",
            Vec::new(),
            Vec::new(),
            None,
        ),
    ]
}

fn cleaner() -> FlagCleaner {
    let edges = vec![
        edge("replace_is_treated", &["delete_flag_field"], "Global"),
        edge("delete_flag_field", &["replace_flag_usage"], "Global"),
        edge("replace_flag_usage", &["fold_if_true"], "Method"),
    ];
    let (rules, edges, scopes) = read_config_files(
        cleanup_rules(),
        edges,
        vec![method_scope()],
        vec![flag_api_rule()],
        Vec::new(),
    );
    FlagCleaner::new(arguments("java"), rules, edges, scopes)
}

fn file(path: &str, content: &str) -> SourceFile {
    SourceFile { path: path.to_string(), content: content.to_string() }
}

#[test]
fn flag_cleanup_with_promotion_reaches_every_file() {
    let mut cleaner = cleaner();
    let files = vec![
        file(
            "/code/A.java",
            "class A { boolean FOO_enabled = isTreated(\"FOO\"); void m() { if (FOO_enabled) { a(); } else { b(); } } }",
        ),
        file(
            "/code/B.java",
            "class B { void n() { if (FOO_enabled) { c(); } else { d(); } } }",
        ),
        file("/code/C.java", "class C { void o() { e(); } }"),
        file("/code/notes.txt", "FOO is stale"),
    ];
    let progress = cleaner.perform_cleanup(&files, 10_000).unwrap();
    assert!(progress.complete);
    let updated = cleaner.get_updated_files();
    assert_eq!(updated.len(), 2);
    assert_eq!(updated[0].path(), "/code/A.java");
    assert!(eq_without_whitespace(&updated[0].code(), "class A { void m() { { a(); } } }"));
    assert_eq!(updated[1].path(), "/code/B.java");
    assert!(eq_without_whitespace(&updated[1].code(), "class B { void n() { { c(); } } }"));
    for unit in &updated {
        assert!(!unit.root_node().unwrap().has_error);
    }
}

#[test]
fn second_run_changes_nothing() {
    let mut cleaner = cleaner();
    let files = vec![file(
        "/code/A.java",
        "class A { boolean FOO_enabled = isTreated(\"FOO\"); void m() { if (FOO_enabled) { a(); } else { b(); } } }",
    )];
    cleaner.perform_cleanup(&files, 10_000).unwrap();
    let once = cleaner.get_updated_files()[0].code();
    let rules = cleaner.rules_for_every_file().len();
    let heuristics = cleaner.get_grep_heuristics();
    let worth = cleaner.get_files_containing_feature_flag_api_usage(&files).len();
    let progress = cleaner.perform_cleanup(&files, 10_000).unwrap();
    assert!(progress.complete);
    assert_eq!(progress.steps_left, 10_000 - 1 - worth * rules);
    assert_eq!(cleaner.get_updated_files().len(), 1);
    assert_eq!(cleaner.get_updated_files()[0].code(), once);
    assert_eq!(cleaner.rules_for_every_file().len(), rules);
    assert_eq!(cleaner.get_grep_heuristics(), heuristics);
    let short = cleaner.perform_cleanup(&files, worth * rules).unwrap();
    assert!(!short.complete || worth * rules == 0);
    assert_eq!(cleaner.get_updated_files()[0].code(), once);
}

#[test]
fn file_without_the_flag_is_never_parsed() {
    let mut cleaner = cleaner();
    let files = vec![file("/code/C.java", "class C { void o() { e(); } }")];
    assert!(cleaner.get_files_containing_feature_flag_api_usage(&files).is_empty());
    let progress = cleaner.perform_cleanup(&files, 100).unwrap();
    assert!(progress.complete);
    assert_eq!(cleaner.get_updated_files().len(), 0);
}

#[test]
fn file_reduced_to_nothing_is_deleted() {
    let delete_class = Rule::new(
        "delete_flag_class",
        "((class_declaration name: (identifier) @n) @c (#eq? @n \"@stale_flag_name\"))",
        "c",
        "",
        strings(&["stale_flag_name"]),
        Vec::new(),
        None,
    );
    let (rules, edges, scopes) =
        read_config_files(Vec::new(), Vec::new(), Vec::new(), vec![delete_class], Vec::new());
    let mut cleaner = FlagCleaner::new(arguments("java"), rules, edges, scopes);
    let files = vec![file("/code/FOO.java", "class FOO { }")];
    cleaner.perform_cleanup(&files, 100).unwrap();
    let updated = cleaner.get_updated_files();
    assert_eq!(updated.len(), 1);
    assert_eq!(updated[0].code(), "");
    match updated[0].persist() {
        FileAction::Delete(path) => assert_eq!(path, "/code/FOO.java"),
        FileAction::Write(..) => panic!("a file left empty is removed"),
    }
}

#[test]
fn promotion_only_adds_global_rules() {
    let mut cleaner = cleaner();
    let files = vec![file(
        "/code/A.java",
        "class A { boolean FOO_enabled = isTreated(\"FOO\"); void m() { if (FOO_enabled) { a(); } else { b(); } } }",
    )];
    assert_eq!(cleaner.get_grep_heuristics(), strings(&["FOO"]));
    cleaner.perform_cleanup(&files, 10_000).unwrap();
    assert_eq!(cleaner.get_grep_heuristics(), strings(&["FOO", "FOO_enabled"]));
    let names: Vec<String> =
        cleaner.rules_for_every_file().iter().map(|r| r.name.clone()).collect();
    assert_eq!(names, strings(&["replace_is_treated", "delete_flag_field", "replace_flag_usage"]));
}

#[test]
fn allowance_of_steps_bounds_the_work() {
    let mut cleaner = cleaner();
    let files = vec![file(
        "/code/A.java",
        "class A { boolean FOO_enabled = isTreated(\"FOO\"); void m() { if (FOO_enabled) { a(); } else { b(); } } }",
    )];
    let progress = cleaner.perform_cleanup(&files, 2).unwrap();
    assert!(!progress.complete);
    assert_eq!(progress.steps_left, 0);
}

#[test]
fn unknown_language_is_refused() {
    let (rules, edges, scopes) =
        read_config_files(Vec::new(), Vec::new(), Vec::new(), vec![flag_api_rule()], Vec::new());
    let mut cleaner = FlagCleaner::new(arguments("cobol"), rules, edges, scopes);
    let files = vec![file("/code/A.cobol", "FOO")];
    assert_eq!(cleaner.perform_cleanup(&files, 10), Err(CleanupError::UnknownLanguage));
}

#[test]
fn file_that_was_parsed_and_not_changed_is_not_handed_back() {
    let mut cleaner = cleaner();
    let files = vec![
        file("/code/A.java", "class A { boolean b = isTreated(\"FOO\"); }"),
        file("/code/D.java", "class D { String s = \"FOO\"; }"),
    ];
    assert_eq!(cleaner.get_files_containing_feature_flag_api_usage(&files), vec![0, 1]);
    let progress = cleaner.perform_cleanup(&files, 10_000).unwrap();
    assert!(progress.complete);
    let updated = cleaner.get_updated_files();
    assert_eq!(updated.len(), 1);
    assert_eq!(updated[0].path(), "/code/A.java");
    assert!(updated[0].is_modified());
}

#[test]
fn heuristics_are_plain_fragments() {
    let rule = Rule::new(
        "replace_flag",
        "((identifier) @id (#eq? @id \"@stale_flag_name\"))",
        "id",
        "true",
        strings(&["stale_flag_name"]),
        Vec::new(),
        None,
    );
    let (rules, edges, scopes) =
        read_config_files(Vec::new(), Vec::new(), Vec::new(), vec![rule], Vec::new());
    let args =
        PiranhaArguments::new("/code", "/config", "java", "a.b(", "ns", true, &TagMap::new());
    let cleaner = FlagCleaner::new(args, rules, edges, scopes);
    assert_eq!(cleaner.get_grep_heuristics(), strings(&["a.b("]));
    let files = vec![
        file("/code/A.java", "class A { int x = axb(1); }"),
        file("/code/B.java", "class B { int x = a.b(1); }"),
    ];
    assert_eq!(cleaner.get_files_containing_feature_flag_api_usage(&files), vec![1]);
}

#[test]
fn with_no_file_worth_parsing_the_cleaner_stays() {
    let mut cleaner = cleaner();
    let files = vec![file("/code/C.java", "class C { }"), file("/code/notes.txt", "FOO")];
    let progress = cleaner.perform_cleanup(&files, 5).unwrap();
    assert!(progress.complete);
    assert_eq!(progress.steps_left, 4);
    assert_eq!(cleaner.get_grep_heuristics(), strings(&["FOO"]));
    assert!(cleaner.get_updated_files().is_empty());
}

fn java_parser() -> tree_sitter::Parser {
    let mut parser = tree_sitter::Parser::new();
    parser
        .set_language(tree_sitter_java::language())
        .expect("the Java grammar loads");
    parser
}

#[test]
fn pass_ends_with_the_file_that_promotes_a_rule() {
    let mut parser = java_parser();
    let mut cleaner = cleaner();
    let files = vec![
        file(
            "/code/A.java",
            "class A { boolean FOO_enabled = isTreated(\"FOO\"); void m() { if (FOO_enabled) { a(); } else { b(); } } }",
        ),
        file("/code/Z.java", "class Z { boolean z = isTreated(\"FOO\"); }"),
    ];
    let pass = cleaner.run_pass(&files, &mut parser, 1_000).unwrap();
    assert!(pass.grew);
    assert_eq!(pass.handled, 1);
    assert!(pass.progress.complete);
    let updated = cleaner.get_updated_files();
    assert_eq!(updated.len(), 1);
    assert_eq!(updated[0].path(), "/code/A.java");
    assert!(eq_without_whitespace(
        &updated[0].code(),
        "class A { boolean FOO_enabled = true; void m() { if (FOO_enabled) { a(); } else { b(); } } }",
    ));
    let names: Vec<String> =
        cleaner.rules_for_every_file().iter().map(|r| r.name.clone()).collect();
    assert_eq!(names, strings(&["replace_is_treated", "delete_flag_field"]));
}

#[test]
fn pass_without_a_new_rule_goes_through_every_file_worth_parsing() {
    let mut parser = java_parser();
    let mut cleaner = cleaner();
    let files = vec![
        file("/code/C.java", "class C { }"),
        file("/code/D.java", "class D { String s = \"FOO\"; }"),
        file("/code/E.java", "class E { String t = \"FOO\"; }"),
    ];
    let pass = cleaner.run_pass(&files, &mut parser, 10).unwrap();
    assert_eq!(
        pass,
        Pass { progress: Progress { steps_left: 8, complete: true }, handled: 2, grew: false }
    );
    assert!(cleaner.get_updated_files().is_empty());
    let again = cleaner.run_pass(&files, &mut parser, 1).unwrap();
    assert_eq!(
        again,
        Pass { progress: Progress { steps_left: 0, complete: false }, handled: 2, grew: false }
    );
    let none = cleaner.run_pass(&Vec::new(), &mut parser, 7).unwrap();
    assert_eq!(
        none,
        Pass { progress: Progress { steps_left: 7, complete: true }, handled: 0, grew: false }
    );
}
