use piranha::edit::Range;
use piranha::matching::{
    ancestors_of, capture_range, collect_hits, depth_of, find_enclosing, find_node,
    gather_captures, group_by_node, hit_tags, parent_of, pick_outermost, predicate_holds,
    select_match,
    texts_of_capture, Candidate,
};
use piranha::rule::Predicate;
use piranha::syntax::{Capture, QueryMatch, SyntaxNode};

fn node(id: usize, parent: Option<usize>, start: usize, end: usize) -> SyntaxNode {
    SyntaxNode {
        id,
        parent,
        range: Range { start_byte: start, end_byte: end },
        is_extra: false,
        is_error: false,
        has_error: false,
    }
}

fn capture(index: usize, node_id: usize, start: usize, end: usize) -> Capture {
    Capture { index, node_id, range: Range { start_byte: start, end_byte: end } }
}

/// A tree in post order: two leaves under a node, that node and a third
/// leaf under the root.
fn tree() -> Vec<SyntaxNode> {
    vec![
        node(11, Some(13), 0, 2),
        node(12, Some(13), 3, 5),
        node(13, Some(15), 0, 5),
        node(14, Some(15), 6, 9),
        node(15, None, 0, 9),
    ]
}

#[test]
fn parents_and_depths_follow_the_links() {
    let nodes = tree();
    assert_eq!(find_node(&nodes, 13), Some(2));
    assert_eq!(find_node(&nodes, 99), None);
    assert_eq!(parent_of(&nodes, 0), Some(2));
    assert_eq!(parent_of(&nodes, 2), Some(4));
    assert_eq!(parent_of(&nodes, 4), None);
    assert_eq!(depth_of(&nodes, 0), 2);
    assert_eq!(depth_of(&nodes, 3), 1);
    assert_eq!(depth_of(&nodes, 4), 0);
    assert_eq!(ancestors_of(&nodes, 1), vec![2, 4]);
    assert!(ancestors_of(&nodes, 4).is_empty());
}

#[test]
fn parent_listed_earlier_counts_as_none() {
    let nodes = vec![node(1, None, 0, 9), node(2, Some(1), 0, 2)];
    assert_eq!(parent_of(&nodes, 1), None);
    assert_eq!(depth_of(&nodes, 1), 0);
}

#[test]
fn enclosing_node_is_the_smallest() {
    let nodes = tree();
    assert_eq!(find_enclosing(&nodes, &Range { start_byte: 3, end_byte: 4 }), Some(1));
    assert_eq!(find_enclosing(&nodes, &Range { start_byte: 1, end_byte: 4 }), Some(2));
    assert_eq!(find_enclosing(&nodes, &Range { start_byte: 4, end_byte: 7 }), Some(4));
    assert_eq!(find_enclosing(&nodes, &Range { start_byte: 4, end_byte: 17 }), None);
}

#[test]
fn deepest_then_earliest_match_is_selected() {
    let candidates = vec![
        Candidate { depth: 1, start_byte: 10 },
        Candidate { depth: 3, start_byte: 50 },
        Candidate { depth: 3, start_byte: 20 },
        Candidate { depth: 2, start_byte: 0 },
        Candidate { depth: 3, start_byte: 20 },
    ];
    let mut open = vec![true; 5];
    assert_eq!(select_match(&candidates, &open), Some(2));
    open[2] = false;
    assert_eq!(select_match(&candidates, &open), Some(4));
    open[4] = false;
    assert_eq!(select_match(&candidates, &open), Some(1));
    open[1] = false;
    assert_eq!(select_match(&candidates, &open), Some(3));
    open[3] = false;
    assert_eq!(select_match(&candidates, &open), Some(0));
    open[0] = false;
    assert_eq!(select_match(&candidates, &open), None);
    assert_eq!(select_match(&Vec::new(), &Vec::new()), None);
}

#[test]
fn predicates_decide_over_what_the_queries_found() {
    assert!(predicate_holds(Predicate::AllOf, &vec![true, true]));
    assert!(!predicate_holds(Predicate::AllOf, &vec![true, false]));
    assert!(predicate_holds(Predicate::AllOf, &vec![]));
    assert!(predicate_holds(Predicate::AnyOf, &vec![false, true]));
    assert!(!predicate_holds(Predicate::AnyOf, &vec![false, false]));
    assert!(!predicate_holds(Predicate::AnyOf, &vec![]));
    assert!(predicate_holds(Predicate::NoneOf, &vec![false, false]));
    assert!(!predicate_holds(Predicate::NoneOf, &vec![false, true]));
    assert!(predicate_holds(Predicate::NoneOf, &vec![]));
}

fn raw() -> Vec<QueryMatch> {
    vec![
        QueryMatch { pattern_index: 0, captures: vec![capture(0, 7, 0, 10), capture(1, 8, 2, 4)] },
        QueryMatch { pattern_index: 0, captures: vec![capture(0, 9, 20, 30)] },
        QueryMatch { pattern_index: 1, captures: vec![capture(2, 7, 0, 10), capture(1, 6, 5, 6)] },
        QueryMatch { pattern_index: 1, captures: vec![] },
    ]
}

#[test]
fn matches_are_grouped_by_their_outermost_node() {
    let groups = group_by_node(&raw());
    assert_eq!(groups, vec![(7, vec![0, 2]), (9, vec![1])]);
    assert_eq!(
        gather_captures(&raw(), &vec![0, 2]),
        vec![capture(0, 7, 0, 10), capture(1, 8, 2, 4), capture(2, 7, 0, 10), capture(1, 6, 5, 6)]
    );
}

#[test]
fn hits_need_every_pattern_and_the_scope() {
    let whole = Range { start_byte: 0, end_byte: 40 };
    let hits = collect_hits(&raw(), 2, &whole, true);
    assert_eq!(hits.len(), 1);
    assert_eq!(hits[0].node_id, 7);
    assert_eq!(hits[0].range, Range { start_byte: 0, end_byte: 10 });
    assert_eq!(hits[0].captures.len(), 4);

    let hits = collect_hits(&raw(), 1, &whole, true);
    assert_eq!(hits.len(), 1);
    assert_eq!(hits[0].node_id, 9);

    let hits = collect_hits(&raw(), 1, &Range { start_byte: 0, end_byte: 25 }, true);
    assert!(hits.is_empty());
    let hits = collect_hits(&raw(), 1, &Range { start_byte: 20, end_byte: 30 }, false);
    assert_eq!(hits.len(), 1);
    let hits = collect_hits(&raw(), 1, &Range { start_byte: 19, end_byte: 30 }, false);
    assert!(hits.is_empty());
}

#[test]
fn tags_join_the_texts_of_one_name_by_lines() {
    let code = "a b c\u{e9}".as_bytes();
    let captures =
        vec![capture(0, 1, 0, 1), capture(1, 2, 2, 3), capture(1, 3, 4, 5), capture(1, 4, 6, 7)];
    assert_eq!(texts_of_capture(&captures, 1, code), vec!["b".to_string(), "c".to_string()]);
    let names = vec!["x".to_string(), "y".to_string(), "z".to_string()];
    let tags = hit_tags(&captures, &names, code);
    assert_eq!(tags.get("x").unwrap(), "a");
    assert_eq!(tags.get("y").unwrap(), "b\nc");
    assert_eq!(tags.get("z").unwrap(), "");
    assert_eq!(
        capture_range(&captures, &names, "y"),
        Some(Range { start_byte: 2, end_byte: 3 })
    );
    assert_eq!(capture_range(&captures, &names, "z"), None);
    assert_eq!(capture_range(&captures, &names, "w"), None);
}

#[test]
fn outermost_fitting_node_is_picked() {
    assert_eq!(pick_outermost(&vec![None, Some(1), None, Some(0), None]), Some(3));
    assert_eq!(pick_outermost(&vec![Some(2)]), Some(0));
    assert_eq!(pick_outermost(&vec![None, None]), None);
    assert_eq!(pick_outermost(&Vec::new()), None);
}
