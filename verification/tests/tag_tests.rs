use piranha::tag::{substitute, TagMap};
use piranha::text::contains;

fn tags(pairs: &[(&str, &str)]) -> TagMap {
    let mut map = TagMap::new();
    for (name, text) in pairs {
        map.insert(name.to_string(), text.to_string());
    }
    map
}

#[test]
fn insert_binds_and_rebinds() {
    let mut map = TagMap::new();
    assert_eq!(map.len(), 0);
    assert!(map.get("flag").is_none());
    map.insert("flag".to_string(), "FOO".to_string());
    map.insert("treated".to_string(), "true".to_string());
    assert_eq!(map.get("flag").unwrap(), "FOO");
    map.insert("flag".to_string(), "BAR".to_string());
    assert_eq!(map.len(), 2);
    assert_eq!(map.get("flag").unwrap(), "BAR");
    assert_eq!(map.name_at(0), "flag");
    assert_eq!(map.name_at(1), "treated");
    assert!(map.contains_key("treated"));
    assert!(!map.contains_key("treate"));
}

#[test]
fn extend_prefers_the_new_bindings() {
    let mut map = tags(&[("a", "1"), ("b", "2")]);
    map.extend(&tags(&[("b", "20"), ("c", "30")]));
    assert_eq!(map.len(), 3);
    assert_eq!(map.get("a").unwrap(), "1");
    assert_eq!(map.get("b").unwrap(), "20");
    assert_eq!(map.get("c").unwrap(), "30");
}

#[test]
fn clone_keeps_every_binding() {
    let map = tags(&[("a", "1"), ("b", "2")]);
    let copy = map.clone();
    assert_eq!(copy.keys(), vec!["a".to_string(), "b".to_string()]);
    assert_eq!(copy.get("b").unwrap(), "2");
}

#[test]
fn substitute_fills_every_hole_of_a_bound_name() {
    let map = tags(&[("stale_flag_name", "FOO"), ("treated", "true")]);
    assert_eq!(
        substitute("(call \"@stale_flag_name\") @treated @stale_flag_name", &map),
        "(call \"FOO\") true FOO"
    );
}

#[test]
fn substitute_leaves_unbound_holes_intact() {
    let map = tags(&[("treated", "true")]);
    assert_eq!(substitute("(if @cond) @treated", &map), "(if @cond) true");
    assert_eq!(substitute("@", &map), "@");
    assert_eq!(substitute("", &map), "");
    assert_eq!(substitute("end @", &TagMap::new()), "end @");
}

#[test]
fn substitute_takes_the_longest_name() {
    let map = tags(&[("treated", "true"), ("treated_complement", "false")]);
    assert_eq!(substitute("@treated_complement && @treated", &map), "false && true");
    let other_order = tags(&[("treated_complement", "false"), ("treated", "true")]);
    assert_eq!(substitute("@treated_complement && @treated", &other_order), "false && true");
}

#[test]
fn substitute_reads_the_template_once() {
    let map = tags(&[("a", "@b"), ("b", "2")]);
    assert_eq!(substitute("@a@b", &map), "@b2");
}

#[test]
fn hole_cut_short_by_a_sign_can_come_back() {
    let map = tags(&[("x", "")]);
    let out = substitute("@@xx", &map);
    assert_eq!(out, "@x");
    assert!(contains(&out, "@x"));
}

#[test]
fn sign_before_a_cut_name_can_meet_the_rest_of_the_name() {
    let map = tags(&[("ab", "b")]);
    assert_eq!(substitute("@a@ab", &map), "@ab");
    let kept = tags(&[("ab", "zzz")]);
    assert_eq!(substitute("@a@ab", &kept), "@azzz");
    assert!(!contains(&substitute("@a@ab", &kept), "@ab"));
}

#[test]
fn sign_that_opens_a_bound_hole_cuts_no_name_short() {
    let map = tags(&[("x", "1"), ("h", "q"), ("xq", "2")]);
    let out = substitute("@x@h", &map);
    assert_eq!(out, "1q");
    assert!(!contains(&out, "@xq"));
    assert!(!contains(&out, "@x"));
    assert!(!contains(&out, "@h"));
    let open = tags(&[("h", "hello")]);
    assert_eq!(substitute("@@h", &open), "@hello");
}
