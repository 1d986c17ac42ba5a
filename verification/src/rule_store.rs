//! The registry of the rules that are active in a run, and the rule graph.
use vstd::prelude::*;
use crate::rule::{covers, has_text, instantiated, Rule, RuleView, FEATURE_FLAG_API_GROUP};
use crate::scopes::{EdgeView, OutgoingEdges, Scope, ScopeGenerator, ScopeView};
use crate::tag::TagMap;
use crate::text::{matches_at, same_text, to_chars};
use crate::utilities::{first_index, lemma_first_index, lemma_first_index_is, lemma_select_push};

verus! {
/// The lifecycle class of an active rule.
#[derive(Clone, Copy, Debug, PartialEq, Eq, Structural)]
pub enum Partition {
    /// Bound directly by the input of the run.
    Seed,
    /// Confined to the method around a change.
    Method,
    /// Confined to the class around a change.
    Class,
    /// Applies to every file.
    Global,
}

/// An active rule, with the partition it is in.
#[derive(Debug)]
pub struct ActiveRule {
    pub partition: Partition,
    pub rule: Rule,
}

/// The prefix of the names of tags that every file sees.
pub const GLOBAL_TAG_PREFIX: &'static str = "global_var_";

/// The names of a list of active rules.
pub open spec fn names_of(active: Seq<(Partition, RuleView)>) -> Seq<Seq<char>> {
    active.map_values(|e: (Partition, RuleView)| e.1.name)
}

/// The test for an active rule of the name.
pub open spec fn named(name: Seq<char>) -> spec_fn((Partition, RuleView)) -> bool {
    |e: (Partition, RuleView)| e.1.name == name
}

/// The test for an active rule of the partition.
pub open spec fn in_partition(partition: Partition) -> spec_fn((Partition, RuleView)) -> bool {
    |e: (Partition, RuleView)| e.0 == partition
}

/// Where the rule of the name stands among the active rules, if it does.
pub open spec fn index_of_name(active: Seq<(Partition, RuleView)>, name: Seq<char>) -> Option<
    int,
> {
    first_index(active, named(name))
}

/// The rules of one partition, in the order in which they became active.
pub open spec fn part(active: Seq<(Partition, RuleView)>, partition: Partition) -> Seq<RuleView> {
    active.filter(in_partition(partition)).map_values(|e: (Partition, RuleView)| e.1)
}

/// What one more active rule adds to a partition.
pub proof fn lemma_part_push(
    active: Seq<(Partition, RuleView)>,
    entry: (Partition, RuleView),
    partition: Partition,
)
    ensures
        part(active.push(entry), partition) == (if entry.0 == partition {
            part(active, partition).push(entry.1)
        } else {
            part(active, partition)
        }),
        part(Seq::<(Partition, RuleView)>::empty(), partition) == Seq::<RuleView>::empty(),
{
    active.lemma_filter_push(entry, in_partition(partition));
}

/// The active rules after `rule` was promoted to the global partition. A
/// rule whose name is among the seed or global rules changes nothing; one
/// whose name is among the method or class rules moves; any other is added.
pub open spec fn promoted(active: Seq<(Partition, RuleView)>, rule: RuleView) -> Seq<
    (Partition, RuleView),
> {
    match index_of_name(active, rule.name) {
        Some(i) => if active[i].0 == Partition::Seed || active[i].0 == Partition::Global {
            active
        } else {
            active.remove(i).push((Partition::Global, rule))
        },
        None => active.push((Partition::Global, rule)),
    }
}

/// The active rules after `rule` was added to `partition`, which happens
/// only where no active rule has its name.
pub open spec fn admitted(
    active: Seq<(Partition, RuleView)>,
    partition: Partition,
    rule: RuleView,
) -> Seq<(Partition, RuleView)> {
    match index_of_name(active, rule.name) {
        Some(_) => active,
        None => active.push((partition, rule)),
    }
}

/// The active rules after an edge of the scope `scope` has led to `rule`:
/// at the global scope the rule is promoted, at the scope of a method or a
/// class it is added to that partition, and at any other scope the active
/// rules stay as they are.
pub open spec fn entered(active: Seq<(Partition, RuleView)>, scope: ScopeView, rule: RuleView) -> Seq<
    (Partition, RuleView),
> {
    match scope {
        ScopeView::Global => promoted(active, rule),
        ScopeView::Method => admitted(active, Partition::Method, rule),
        ScopeView::Class => admitted(active, Partition::Class, rule),
        _ => active,
    }
}

/// The active rules after an edge of the scope `scope` has led to each of
/// `rules`, in order.
pub open spec fn entered_all(
    active: Seq<(Partition, RuleView)>,
    scope: ScopeView,
    rules: Seq<RuleView>,
) -> Seq<(Partition, RuleView)>
    decreases rules.len(),
{
    if rules.len() == 0 {
        active
    } else {
        entered(entered_all(active, scope, rules.drop_last()), scope, rules.last())
    }
}

/// The active rules after the edges of `next` were followed, in order.
pub open spec fn routed(
    active: Seq<(Partition, RuleView)>,
    next: Seq<(ScopeView, Seq<RuleView>)>,
) -> Seq<(Partition, RuleView)>
    decreases next.len(),
{
    if next.len() == 0 {
        active
    } else {
        entered_all(routed(active, next.drop_last()), next.last().0, next.last().1)
    }
}

/// The targets of the edges of `next` that are at the parent scope, edge
/// after edge.
pub open spec fn parents_of(next: Seq<(ScopeView, Seq<RuleView>)>) -> Seq<RuleView>
    decreases next.len(),
{
    if next.len() == 0 {
        Seq::empty()
    } else if next.last().0 == ScopeView::Parent {
        parents_of(next.drop_last()) + next.last().1
    } else {
        parents_of(next.drop_last())
    }
}

/// The seed rules that a rule table gives under the tags of the input: each
/// rule of the feature-flag group whose holes are all bound, instantiated,
/// the first of each name.
pub open spec fn seeds_of(table: Seq<RuleView>, tags: Map<Seq<char>, Seq<char>>) -> Seq<
    (Partition, RuleView),
>
    decreases table.len(),
{
    if table.len() == 0 {
        Seq::empty()
    } else {
        let before = seeds_of(table.drop_last(), tags);
        let rule = table.last();
        if rule.groups.contains(FEATURE_FLAG_API_GROUP@) && covers(tags, rule.holes)
            && index_of_name(before, rule.name) is None {
            before.push((Partition::Seed, instantiated(rule, tags)))
        } else {
            before
        }
    }
}

/// The edge leaves from `rule`: it names the rule or one of its groups.
pub open spec fn leaves_from(edge: EdgeView, rule: RuleView) -> bool {
    edge.from == rule.name || rule.groups.contains(edge.from)
}

/// The edge leads to `rule`: it names the rule or one of its groups among
/// its targets.
pub open spec fn leads_to(edge: EdgeView, rule: RuleView) -> bool {
    exists|i: int|
        0 <= i < edge.to.len() && (#[trigger] edge.to[i] == rule.name || rule.groups.contains(
            edge.to[i],
        ))
}

/// The test for a rule that the edge leads to and whose holes `tags` binds.
pub open spec fn reachable(edge: EdgeView, tags: Map<Seq<char>, Seq<char>>) -> spec_fn(
    RuleView,
) -> bool {
    |r: RuleView| leads_to(edge, r) && covers(tags, r.holes)
}

/// The test for an edge that leaves from the rule.
pub open spec fn leaving(rule: RuleView) -> spec_fn(EdgeView) -> bool {
    |e: EdgeView| leaves_from(e, rule)
}

/// The rules that an edge leads to, instantiated: those of the table, in its
/// order, that the edge names and whose holes `tags` binds.
pub open spec fn targets(edge: EdgeView, table: Seq<RuleView>, tags: Map<Seq<char>, Seq<char>>) -> Seq<
    RuleView,
> {
    table.filter(reachable(edge, tags)).map_values(instantiating(tags))
}

/// Instantiation under `tags`, as a function of the rule.
pub open spec fn instantiating(tags: Map<Seq<char>, Seq<char>>) -> spec_fn(RuleView) -> RuleView {
    |r: RuleView| instantiated(r, tags)
}

/// What an edge contributes to what comes after a rule: its scope and its
/// instantiated targets.
pub open spec fn following(table: Seq<RuleView>, tags: Map<Seq<char>, Seq<char>>) -> spec_fn(
    EdgeView,
) -> (ScopeView, Seq<RuleView>) {
    |e: EdgeView| (e.scope, targets(e, table, tags))
}

/// What comes after `rule`: for each edge that leaves from it, in declared
/// order, the scope of the edge and its instantiated targets.
pub open spec fn outgoing_of(
    rule: RuleView,
    graph: Seq<EdgeView>,
    table: Seq<RuleView>,
    tags: Map<Seq<char>, Seq<char>>,
) -> Seq<(ScopeView, Seq<RuleView>)> {
    graph.filter(leaving(rule)).map_values(following(table, tags))
}

/// The bindings of `tags` whose names begin with the global prefix.
pub open spec fn global_bindings(tags: Map<Seq<char>, Seq<char>>) -> Map<Seq<char>, Seq<char>> {
    tags.restrict(Set::new(|name: Seq<char>| GLOBAL_TAG_PREFIX@.is_prefix_of(name)))
}

/// The views of a list of rules.
pub open spec fn rule_views(rules: Seq<Rule>) -> Seq<RuleView> {
    rules.map_values(|r: Rule| r@)
}

/// The views of a list of edges.
pub open spec fn edge_views(edges: Seq<OutgoingEdges>) -> Seq<EdgeView> {
    edges.map_values(|e: OutgoingEdges| e@)
}

/// The views of a list of active rules.
pub open spec fn active_views(active: Seq<ActiveRule>) -> Seq<(Partition, RuleView)> {
    active.map_values(|a: ActiveRule| (a.partition, a.rule@))
}

/// The views of what comes after a rule.
pub open spec fn outgoing_views(next: Seq<(Scope, Vec<Rule>)>) -> Seq<(ScopeView, Seq<RuleView>)> {
    next.map_values(|e: (Scope, Vec<Rule>)| (e.0@, rule_views(e.1@)))
}

/// Whether the edge leads to the rule.
pub fn edge_leads_to(edge: &OutgoingEdges, rule: &Rule) -> (b: bool)
    ensures
        b == leads_to(edge@, rule@),
{
    let mut i: usize = 0;
    while i < edge.to.len()
        invariant
            i <= edge.to@.len(),
            forall|j: int|
                0 <= j < i ==> !(#[trigger] edge@.to[j] == rule@.name || rule@.groups.contains(
                    edge@.to[j],
                )),
        decreases edge.to.len() - i,
    {
        let target = edge.to[i].as_str();
        assert(edge@.to[i as int] == target@);
        if same_text(target, rule.name.as_str()) || has_text(&rule.groups, target) {
            return true;
        }
        i += 1;
    }
    false
}

/// Whether the edge leaves from the rule.
pub fn edge_leaves_from(edge: &OutgoingEdges, rule: &Rule) -> (b: bool)
    ensures
        b == leaves_from(edge@, rule@),
{
    same_text(edge.from.as_str(), rule.name.as_str()) || has_text(&rule.groups, edge.from.as_str())
}

/// Whether `name` begins with the prefix of the tags that every file sees.
pub fn is_global_tag(name: &str) -> (b: bool)
    ensures
        b == GLOBAL_TAG_PREFIX@.is_prefix_of(name@),
{
    let chars = to_chars(name);
    let prefix = to_chars(GLOBAL_TAG_PREFIX);
    matches_at(&chars, 0, &prefix)
}

/// Where the rule of the name stands among `active`, if it does.
pub fn find_by_name(active: &Vec<ActiveRule>, name: &str) -> (r: Option<usize>)
    ensures
        match r {
            Some(i) => index_of_name(active_views(active@), name@) == Some(i as int) && i
                < active@.len(),
            None => index_of_name(active_views(active@), name@) is None,
        },
{
    let ghost p = named(name@);
    let ghost views = active_views(active@);
    let mut i: usize = 0;
    while i < active.len()
        invariant
            i <= active@.len(),
            p == named(name@),
            views == active_views(active@),
            forall|j: int| 0 <= j < i ==> !p(#[trigger] views[j]),
        decreases active.len() - i,
    {
        if same_text(active[i].rule.name.as_str(), name) {
            proof {
                lemma_first_index_is(views, p, i as int);
            }
            return Some(i);
        }
        i += 1;
    }
    proof {
        lemma_first_index_is(views, p, i as int);
    }
    None
}

/// A rule whose name no active rule has can be added without a clash.
pub proof fn lemma_push_fresh_name(active: Seq<(Partition, RuleView)>, entry: (Partition, RuleView))
    requires
        names_of(active).no_duplicates(),
        index_of_name(active, entry.1.name) is None,
    ensures
        names_of(active.push(entry)).no_duplicates(),
{
    lemma_first_index(active, named(entry.1.name));
    let after = names_of(active.push(entry));
    assert forall|i: int, j: int| 0 <= i < after.len() && 0 <= j < after.len() && i != j implies after[i]
        != after[j] by {
        if i < active.len() && j < active.len() {
            assert(names_of(active)[i] != names_of(active)[j]);
        }
    }
}

/// With one rule taken out, the names stay distinct and the name taken out
/// is free.
pub proof fn lemma_remove_frees_name(active: Seq<(Partition, RuleView)>, i: int)
    requires
        names_of(active).no_duplicates(),
        0 <= i < active.len(),
    ensures
        names_of(active.remove(i)).no_duplicates(),
        index_of_name(active.remove(i), active[i].1.name) is None,
{
    let rest = active.remove(i);
    let after = names_of(rest);
    assert forall|a: int, b: int| 0 <= a < after.len() && 0 <= b < after.len() && a != b implies after[a]
        != after[b] by {
        let x = if a < i { a } else { a + 1 };
        let y = if b < i { b } else { b + 1 };
        assert(names_of(active)[x] != names_of(active)[y]);
    }
    assert forall|a: int| 0 <= a < rest.len() implies !named(active[i].1.name)(
        #[trigger] rest[a],
    ) by {
        let x = if a < i { a } else { a + 1 };
        assert(names_of(active)[x] != names_of(active)[i]);
    }
    lemma_first_index_is(rest, named(active[i].1.name), rest.len() as int);
}

/// The seed rules of a table have distinct names.
pub proof fn lemma_seeds_distinct(table: Seq<RuleView>, tags: Map<Seq<char>, Seq<char>>)
    ensures
        names_of(seeds_of(table, tags)).no_duplicates(),
    decreases table.len(),
{
    if table.len() > 0 {
        lemma_seeds_distinct(table.drop_last(), tags);
        let before = seeds_of(table.drop_last(), tags);
        let rule = table.last();
        if rule.groups.contains(FEATURE_FLAG_API_GROUP@) && covers(tags, rule.holes)
            && index_of_name(before, rule.name) is None {
            lemma_push_fresh_name(before, (Partition::Seed, instantiated(rule, tags)));
        }
    }
}

/// A rule name stands in one partition at most: rules of two partitions
/// never share a name.
pub proof fn lemma_one_partition(
    active: Seq<(Partition, RuleView)>,
    p: Partition,
    q: Partition,
    i: int,
    j: int,
)
    requires
        names_of(active).no_duplicates(),
        p != q,
        0 <= i < part(active, p).len(),
        0 <= j < part(active, q).len(),
    ensures
        part(active, p)[i].name != part(active, q)[j].name,
{
    let first = active.filter(in_partition(p));
    let second = active.filter(in_partition(q));
    active.lemma_filter_contains_rev(in_partition(p), first[i]);
    active.lemma_filter_contains_rev(in_partition(q), second[j]);
    let a = choose|a: int| 0 <= a < active.len() && active[a] == first[i];
    let b = choose|b: int| 0 <= b < active.len() && active[b] == second[j];
    assert(names_of(active)[a] != names_of(active)[b]);
}

/// Taking out a rule of another partition leaves a partition as it is.
pub proof fn lemma_part_remove(active: Seq<(Partition, RuleView)>, i: int, partition: Partition)
    requires
        0 <= i < active.len(),
        active[i].0 != partition,
    ensures
        part(active.remove(i), partition) == part(active, partition),
{
    let p = in_partition(partition);
    let head = active.take(i);
    let tail = active.skip(i + 1);
    let one = seq![active[i]];
    assert(active =~= head + one + tail);
    let none = Seq::<(Partition, RuleView)>::empty();
    none.lemma_filter_push(active[i], p);
}

/// Promotion monotonicity: promoting a rule adds it at the end of the global
/// rules or leaves them as they are; it never removes one. The seed rules
/// stay as they are.
pub proof fn lemma_promotion_monotone(active: Seq<(Partition, RuleView)>, rule: RuleView)
    ensures
        part(promoted(active, rule), Partition::Global) == part(active, Partition::Global)
            || part(promoted(active, rule), Partition::Global) == part(
            active,
            Partition::Global,
        ).push(rule),
        part(active, Partition::Global).len() <= part(
            promoted(active, rule),
            Partition::Global,
        ).len(),
        part(promoted(active, rule), Partition::Seed) == part(active, Partition::Seed),
{
    lemma_first_index(active, named(rule.name));
    match index_of_name(active, rule.name) {
        Some(i) => {
            if !(active[i].0 == Partition::Seed || active[i].0 == Partition::Global) {
                lemma_part_remove(active, i, Partition::Global);
                lemma_part_remove(active, i, Partition::Seed);
                lemma_part_push(active.remove(i), (Partition::Global, rule), Partition::Global);
                lemma_part_push(active.remove(i), (Partition::Global, rule), Partition::Seed);
            }
        },
        None => {
            lemma_part_push(active, (Partition::Global, rule), Partition::Global);
            lemma_part_push(active, (Partition::Global, rule), Partition::Seed);
        },
    }
}

/// Promotion is idempotent: promoting a rule a second time changes nothing.
pub proof fn lemma_promotion_idempotent(active: Seq<(Partition, RuleView)>, rule: RuleView)
    requires
        names_of(active).no_duplicates(),
    ensures
        promoted(promoted(active, rule), rule) == promoted(active, rule),
{
    let once = promoted(active, rule);
    let p = named(rule.name);
    lemma_first_index(active, p);
    match index_of_name(active, rule.name) {
        Some(i) => {
            if !(active[i].0 == Partition::Seed || active[i].0 == Partition::Global) {
                lemma_remove_frees_name(active, i);
                let rest = active.remove(i);
                lemma_first_index(rest, p);
                lemma_first_index_is(once, p, rest.len() as int);
            }
        },
        None => {
            lemma_first_index_is(once, p, active.len() as int);
        },
    }
}

/// Adding a rule to the method or class rules leaves the global and the
/// seed rules as they are.
pub proof fn lemma_admitted_keeps_global(
    active: Seq<(Partition, RuleView)>,
    partition: Partition,
    rule: RuleView,
)
    requires
        partition == Partition::Method || partition == Partition::Class,
    ensures
        part(admitted(active, partition, rule), Partition::Global) == part(
            active,
            Partition::Global,
        ),
        part(admitted(active, partition, rule), Partition::Seed) == part(active, Partition::Seed),
{
    lemma_part_push(active, (partition, rule), Partition::Global);
    lemma_part_push(active, (partition, rule), Partition::Seed);
}

/// Following an edge never removes a global rule, nor touches a seed rule.
pub proof fn lemma_entered_monotone(
    active: Seq<(Partition, RuleView)>,
    scope: ScopeView,
    rule: RuleView,
)
    ensures
        part(active, Partition::Global).is_prefix_of(
            part(entered(active, scope, rule), Partition::Global),
        ),
        part(entered(active, scope, rule), Partition::Seed) == part(active, Partition::Seed),
{
    lemma_promotion_monotone(active, rule);
    lemma_admitted_keeps_global(active, Partition::Method, rule);
    lemma_admitted_keeps_global(active, Partition::Class, rule);
}

/// Promotion monotonicity over the edges of a rule: following them adds
/// global rules at the end, if any, and leaves the seed rules as they are.
pub proof fn lemma_routed_monotone(
    active: Seq<(Partition, RuleView)>,
    next: Seq<(ScopeView, Seq<RuleView>)>,
)
    ensures
        part(active, Partition::Global).is_prefix_of(part(routed(active, next), Partition::Global)),
        part(routed(active, next), Partition::Seed) == part(active, Partition::Seed),
    decreases next.len(),
{
    if next.len() > 0 {
        lemma_routed_monotone(active, next.drop_last());
        lemma_entered_all_monotone(routed(active, next.drop_last()), next.last().0, next.last().1);
    }
}

/// Following one edge to all its targets adds global rules at the end, if
/// any, and leaves the seed rules as they are.
pub proof fn lemma_entered_all_monotone(
    active: Seq<(Partition, RuleView)>,
    scope: ScopeView,
    rules: Seq<RuleView>,
)
    ensures
        part(active, Partition::Global).is_prefix_of(
            part(entered_all(active, scope, rules), Partition::Global),
        ),
        part(entered_all(active, scope, rules), Partition::Seed) == part(active, Partition::Seed),
    decreases rules.len(),
{
    if rules.len() > 0 {
        lemma_entered_all_monotone(active, scope, rules.drop_last());
        lemma_entered_monotone(entered_all(active, scope, rules.drop_last()), scope, rules.last());
    }
}

/// The seed rules of a table are all in the seed partition.
pub proof fn lemma_seeds_are_seeds(table: Seq<RuleView>, tags: Map<Seq<char>, Seq<char>>)
    ensures
        part(seeds_of(table, tags), Partition::Global) == Seq::<RuleView>::empty(),
        part(seeds_of(table, tags), Partition::Method) == Seq::<RuleView>::empty(),
        part(seeds_of(table, tags), Partition::Class) == Seq::<RuleView>::empty(),
    decreases table.len(),
{
    if table.len() > 0 {
        lemma_seeds_are_seeds(table.drop_last(), tags);
        let before = seeds_of(table.drop_last(), tags);
        let entry = (Partition::Seed, instantiated(table.last(), tags));
        lemma_part_push(before, entry, Partition::Global);
        lemma_part_push(before, entry, Partition::Method);
        lemma_part_push(before, entry, Partition::Class);
    }
}

/// The bindings of `tags` whose names begin with the global prefix.
pub fn global_part(tags: &TagMap) -> (r: TagMap)
    ensures
        r@ == global_bindings(tags@),
{
    let keys = tags.keys();
    let ghost names = tags.names();
    let mut r = TagMap::new();
    let mut i: usize = 0;
    while i < keys.len()
        invariant
            i <= keys@.len(),
            names == tags.names(),
            keys@.len() == names.len(),
            forall|j: int| 0 <= j < keys@.len() ==> (#[trigger] keys@[j])@ == names[j],
            r@ == global_bindings(tags@).restrict(names.take(i as int).to_set()),
        decreases keys.len() - i,
    {
        let name = &keys[i];
        proof {
            assert(names.take(i + 1) =~= names.take(i as int).push(names[i as int]));
            names.take(i as int).lemma_push_to_set_commute(names[i as int]);
        }
        if is_global_tag(name.as_str()) {
            match tags.get(name.as_str()) {
                Some(text) => {
                    r.insert(name.clone(), text.clone());
                },
                None => {},
            }
        }
        i += 1;
    }
    proof {
        assert(names.take(names.len() as int) =~= names);
        tags.lemma_names_cover();
    }
    r
}

/// The targets of the edges of `next` that are at the parent scope.
pub fn parent_targets(next: &Vec<(Scope, Vec<Rule>)>) -> (parents: Vec<Rule>)
    ensures
        rule_views(parents@) == parents_of(outgoing_views(next@)),
{
    let ghost edges = outgoing_views(next@);
    let mut parents: Vec<Rule> = Vec::new();
    let mut e: usize = 0;
    while e < next.len()
        invariant
            e <= next@.len(),
            edges == outgoing_views(next@),
            rule_views(parents@) == parents_of(edges.take(e as int)),
        decreases next.len() - e,
    {
        let targets = &next[e].1;
        proof {
            assert(edges.take(e + 1).drop_last() =~= edges.take(e as int));
        }
        match &next[e].0 {
            Scope::Parent => {
                let ghost before = rule_views(parents@);
                let mut t: usize = 0;
                while t < targets.len()
                    invariant
                        t <= targets@.len(),
                        rule_views(parents@) == before + rule_views(targets@).take(t as int),
                    decreases targets.len() - t,
                {
                    let ghost seen = rule_views(parents@);
                    let copy = targets[t].clone();
                    parents.push(copy);
                    assert(rule_views(parents@) =~= seen.push(copy@));
                    t += 1;
                }
            },
            _ => {},
        }
        e += 1;
    }
    assert(edges.take(edges.len() as int) =~= edges);
    parents
}

/// The registry of active rules, partitioned by lifecycle class, with the
/// rule table and the edges of the rule graph.
pub struct RuleStore {
    rules: Vec<Rule>,
    edges: Vec<OutgoingEdges>,
    scopes: Vec<ScopeGenerator>,
    active: Vec<ActiveRule>,
    input_substitutions: TagMap,
    language_name: String,
}

impl RuleStore {
    /// The rules as the configuration gave them, holes unfilled.
    pub closed spec fn table(&self) -> Seq<RuleView> {
        rule_views(self.rules@)
    }

    /// The edges of the rule graph, in declared order.
    pub closed spec fn graph(&self) -> Seq<EdgeView> {
        edge_views(self.edges@)
    }

    /// The scope configuration.
    pub closed spec fn scope_config(&self) -> Seq<ScopeGenerator> {
        self.scopes@
    }

    /// The active rules, each with its partition, in the order in which
    /// they became active.
    pub closed spec fn active(&self) -> Seq<(Partition, RuleView)> {
        active_views(self.active@)
    }

    /// The tags that every file starts with.
    pub closed spec fn seed_tags(&self) -> Map<Seq<char>, Seq<char>> {
        self.input_substitutions@
    }

    /// The name of the language of the run.
    pub closed spec fn language(&self) -> Seq<char> {
        self.language_name@
    }

    /// The seed rules.
    pub open spec fn seed(&self) -> Seq<RuleView> {
        part(self.active(), Partition::Seed)
    }

    /// The rules confined to a method.
    pub open spec fn method(&self) -> Seq<RuleView> {
        part(self.active(), Partition::Method)
    }

    /// The rules confined to a class.
    pub open spec fn class(&self) -> Seq<RuleView> {
        part(self.active(), Partition::Class)
    }

    /// The rules promoted to every file.
    pub open spec fn global(&self) -> Seq<RuleView> {
        part(self.active(), Partition::Global)
    }

    /// No two active rules have the same name.
    pub open spec fn wf(&self) -> bool {
        names_of(self.active()).no_duplicates()
    }

    /// The rules of one partition.
    fn rules_in(&self, partition: Partition) -> (rules: Vec<Rule>)
        ensures
            rule_views(rules@) == part(self.active(), partition),
    {
        let mut rules: Vec<Rule> = Vec::new();
        let mut i: usize = 0;
        while i < self.active.len()
            invariant
                i <= self.active@.len(),
                rule_views(rules@) == part(self.active().take(i as int), partition),
            decreases self.active.len() - i,
        {
            proof {
                let seen = self.active().take(i as int);
                assert(self.active().take(i + 1) =~= seen.push(self.active()[i as int]));
                lemma_part_push(seen, self.active()[i as int], partition);
            }
            if self.active[i].partition == partition {
                let copy = self.active[i].rule.clone();
                rules.push(copy);
            }
            i += 1;
        }
        assert(self.active().take(self.active().len() as int) =~= self.active());
        rules
    }

    /// The seed rules.
    pub fn seed_rules(&self) -> (rules: Vec<Rule>)
        ensures
            rule_views(rules@) == self.seed(),
    {
        self.rules_in(Partition::Seed)
    }

    /// The rules confined to a method.
    pub fn method_rules(&self) -> (rules: Vec<Rule>)
        ensures
            rule_views(rules@) == self.method(),
    {
        self.rules_in(Partition::Method)
    }

    /// The rules confined to a class.
    pub fn class_rules(&self) -> (rules: Vec<Rule>)
        ensures
            rule_views(rules@) == self.class(),
    {
        self.rules_in(Partition::Class)
    }

    /// The rules promoted to every file.
    pub fn global_rules(&self) -> (rules: Vec<Rule>)
        ensures
            rule_views(rules@) == self.global(),
    {
        self.rules_in(Partition::Global)
    }

    /// The number of rules promoted to every file.
    pub fn global_count(&self) -> (n: usize)
        ensures
            n == self.global().len(),
    {
        self.rules_in(Partition::Global).len()
    }

    /// The tags that every file starts with.
    pub fn input_substitutions(&self) -> (tags: &TagMap)
        ensures
            tags@ == self.seed_tags(),
    {
        &self.input_substitutions
    }

    /// The name of the language of the run.
    pub fn language_name(&self) -> (name: &String)
        ensures
            name@ == self.language(),
    {
        &self.language_name
    }

    /// The scope configuration.
    pub fn scopes(&self) -> (scopes: &Vec<ScopeGenerator>)
        ensures
            scopes@ == self.scope_config(),
    {
        &self.scopes
    }

    /// The configuration of `other` is that of `self`: the rule table, the
    /// edges, the scopes and the language.
    pub open spec fn same_config(&self, other: &Self) -> bool {
        &&& self.table() == other.table()
        &&& self.graph() == other.graph()
        &&& self.scope_config() == other.scope_config()
        &&& self.language() == other.language()
    }

    /// A store over the given configuration. Its seed rules are the rules of
    /// the feature-flag group that `input_substitutions` can instantiate.
    pub fn new(
        rules: Vec<Rule>,
        edges: Vec<OutgoingEdges>,
        scopes: Vec<ScopeGenerator>,
        input_substitutions: TagMap,
        language_name: &str,
    ) -> (store: RuleStore)
        ensures
            store.wf(),
            store.table() == rule_views(rules@),
            store.graph() == edge_views(edges@),
            store.scope_config() == scopes@,
            store.seed_tags() == input_substitutions@,
            store.language() == language_name@,
            store.active() == seeds_of(rule_views(rules@), input_substitutions@),
    {
        let mut active: Vec<ActiveRule> = Vec::new();
        let ghost table = rule_views(rules@);
        let ghost tags = input_substitutions@;
        let mut i: usize = 0;
        while i < rules.len()
            invariant
                i <= rules@.len(),
                table == rule_views(rules@),
                tags == input_substitutions@,
                active_views(active@) == seeds_of(table.take(i as int), tags),
            decreases rules.len() - i,
        {
            let rule = &rules[i];
            proof {
                assert(table.take(i + 1).drop_last() =~= table.take(i as int));
            }
            if rule.is_feature_flag_cleanup() && rule.is_instantiable(&input_substitutions)
                && find_by_name(&active, rule.name.as_str()).is_none() {
                let seed = rule.instantiate(&input_substitutions);
                active.push(ActiveRule { partition: Partition::Seed, rule: seed });
            }
            i += 1;
        }
        proof {
            assert(table.take(table.len() as int) =~= table);
            lemma_seeds_distinct(table, tags);
        }
        RuleStore {
            rules,
            edges,
            scopes,
            active,
            input_substitutions,
            language_name: language_name.to_owned(),
        }
    }

    /// Extends the seed tags with those bindings of `new_entries` whose
    /// names begin with the global prefix.
    pub fn add_to_input_substitutions(&mut self, new_entries: &TagMap)
        ensures
            final(self).seed_tags() == old(self).seed_tags().union_prefer_right(
                global_bindings(new_entries@),
            ),
            final(self).active() == old(self).active(),
            final(self).same_config(old(self)),
    {
        let visible = global_part(new_entries);
        self.input_substitutions.extend(&visible);
    }

    /// Promotes `rule` to the global partition. Insertion goes by name and
    /// is idempotent: a rule whose name is among the seed or global rules
    /// changes nothing.
    pub fn add_global_rule(&mut self, rule: Rule)
        requires
            old(self).wf(),
        ensures
            final(self).wf(),
            final(self).active() == promoted(old(self).active(), rule@),
            final(self).seed_tags() == old(self).seed_tags(),
            final(self).same_config(old(self)),
    {
        let ghost before = self.active();
        match find_by_name(&self.active, rule.name.as_str()) {
            Some(i) => {
                let partition = self.active[i].partition;
                if partition == Partition::Method || partition == Partition::Class {
                    proof {
                        lemma_first_index(before, named(rule@.name));
                        lemma_remove_frees_name(before, i as int);
                        lemma_push_fresh_name(before.remove(i as int), (Partition::Global, rule@));
                    }
                    self.active.remove(i);
                    self.active.push(ActiveRule { partition: Partition::Global, rule });
                    assert(self.active() =~= before.remove(i as int).push(
                        (Partition::Global, rule@),
                    ));
                }
            },
            None => {
                proof {
                    lemma_push_fresh_name(before, (Partition::Global, rule@));
                }
                self.active.push(ActiveRule { partition: Partition::Global, rule });
                assert(self.active() =~= before.push((Partition::Global, rule@)));
            },
        }
    }

    /// Adds `rule` to `partition` where no active rule has its name.
    fn enter(&mut self, partition: Partition, rule: Rule)
        requires
            old(self).wf(),
        ensures
            final(self).wf(),
            final(self).active() == admitted(old(self).active(), partition, rule@),
            final(self).seed_tags() == old(self).seed_tags(),
            final(self).same_config(old(self)),
    {
        let ghost before = self.active();
        if find_by_name(&self.active, rule.name.as_str()).is_none() {
            proof {
                lemma_push_fresh_name(before, (partition, rule@));
            }
            self.active.push(ActiveRule { partition, rule });
            assert(self.active() =~= before.push((partition, rule@)));
        }
    }

    /// Adds `rule` to the rules confined to a method, where no active rule
    /// has its name.
    pub fn add_method_rule(&mut self, rule: Rule)
        requires
            old(self).wf(),
        ensures
            final(self).wf(),
            final(self).active() == admitted(old(self).active(), Partition::Method, rule@),
            final(self).seed_tags() == old(self).seed_tags(),
            final(self).same_config(old(self)),
    {
        self.enter(Partition::Method, rule)
    }

    /// Adds `rule` to the rules confined to a class, where no active rule
    /// has its name.
    pub fn add_class_rule(&mut self, rule: Rule)
        requires
            old(self).wf(),
        ensures
            final(self).wf(),
            final(self).active() == admitted(old(self).active(), Partition::Class, rule@),
            final(self).seed_tags() == old(self).seed_tags(),
            final(self).same_config(old(self)),
    {
        self.enter(Partition::Class, rule)
    }

    /// Takes in a rule that an edge of the scope `scope` has led to: at the
    /// global scope the rule is promoted, at the scope of a method or a
    /// class it is added to that partition.
    pub fn enter_at(&mut self, scope: &Scope, rule: Rule)
        requires
            old(self).wf(),
        ensures
            final(self).wf(),
            final(self).active() == entered(old(self).active(), scope@, rule@),
            final(self).seed_tags() == old(self).seed_tags(),
            final(self).same_config(old(self)),
    {
        match scope {
            Scope::Global => self.add_global_rule(rule),
            Scope::Method => self.add_method_rule(rule),
            Scope::Class => self.add_class_rule(rule),
            _ => {},
        }
    }

    /// Follows the edges of `next`, in order: what they lead to at the
    /// global scope is promoted, and what they lead to at the scope of a
    /// method or a class is added to that partition.
    pub fn register(&mut self, next: &Vec<(Scope, Vec<Rule>)>)
        requires
            old(self).wf(),
        ensures
            final(self).wf(),
            final(self).active() == routed(old(self).active(), outgoing_views(next@)),
            final(self).seed_tags() == old(self).seed_tags(),
            final(self).same_config(old(self)),
    {
        let ghost edges = outgoing_views(next@);
        let mut e: usize = 0;
        while e < next.len()
            invariant
                e <= next@.len(),
                edges == outgoing_views(next@),
                self.wf(),
                self.active() == routed(old(self).active(), edges.take(e as int)),
                self.seed_tags() == old(self).seed_tags(),
                self.same_config(old(self)),
            decreases next.len() - e,
        {
            let scope = &next[e].0;
            let targets = &next[e].1;
            let ghost before = self.active();
            let ghost views = rule_views(targets@);
            proof {
                assert(edges.take(e + 1).drop_last() =~= edges.take(e as int));
            }
            let mut t: usize = 0;
            while t < targets.len()
                invariant
                    t <= targets@.len(),
                    views == rule_views(targets@),
                    self.wf(),
                    self.active() == entered_all(before, scope@, views.take(t as int)),
                    self.seed_tags() == old(self).seed_tags(),
                    self.same_config(old(self)),
                decreases targets.len() - t,
            {
                proof {
                    assert(views.take(t + 1).drop_last() =~= views.take(t as int));
                }
                self.enter_at(scope, targets[t].clone());
                t += 1;
            }
            assert(views.take(views.len() as int) =~= views);
            e += 1;
        }
        assert(edges.take(edges.len() as int) =~= edges);
    }

    /// The rules of the table that `edge` leads to, instantiated under `tags`.
    fn targets_of(&self, edge: &OutgoingEdges, tags: &TagMap) -> (rules: Vec<Rule>)
        ensures
            rule_views(rules@) == targets(edge@, self.table(), tags@),
    {
        let mut rules: Vec<Rule> = Vec::new();
        let ghost table = self.table();
        let ghost p = reachable(edge@, tags@);
        let ghost f = instantiating(tags@);
        let mut i: usize = 0;
        while i < self.rules.len()
            invariant
                i <= self.rules@.len(),
                table == self.table(),
                table == rule_views(self.rules@),
                p == reachable(edge@, tags@),
                f == instantiating(tags@),
                rule_views(rules@) == table.take(i as int).filter(p).map_values(f),
            decreases self.rules.len() - i,
        {
            let rule = &self.rules[i];
            proof {
                assert(table.take(i + 1) =~= table.take(i as int).push(rule@));
                lemma_select_push(table.take(i as int), rule@, p, f);
            }
            if edge_leads_to(edge, rule) && rule.is_instantiable(tags) {
                let next = rule.instantiate(tags);
                rules.push(next);
            }
            i += 1;
        }
        assert(table.take(table.len() as int) =~= table);
        rules
    }

    /// What comes after `rule` has fired: for each edge that leaves from the
    /// rule or one of its groups, in declared order, the scope of the edge
    /// and the rules it leads to. Groups stand for their members; a target
    /// whose holes `tags` does not bind is left out.
    pub fn outgoing(&self, rule: &Rule, tags: &TagMap) -> (next: Vec<(Scope, Vec<Rule>)>)
        ensures
            outgoing_views(next@) == outgoing_of(rule@, self.graph(), self.table(), tags@),
    {
        let mut next: Vec<(Scope, Vec<Rule>)> = Vec::new();
        let ghost graph = self.graph();
        let ghost p = leaving(rule@);
        let ghost f = following(self.table(), tags@);
        let mut i: usize = 0;
        while i < self.edges.len()
            invariant
                i <= self.edges@.len(),
                graph == self.graph(),
                graph == edge_views(self.edges@),
                p == leaving(rule@),
                f == following(self.table(), tags@),
                outgoing_views(next@) == graph.take(i as int).filter(p).map_values(f),
            decreases self.edges.len() - i,
        {
            let edge = &self.edges[i];
            proof {
                assert(graph.take(i + 1) =~= graph.take(i as int).push(edge@));
                lemma_select_push(graph.take(i as int), edge@, p, f);
            }
            if edge_leaves_from(edge, rule) {
                let found = self.targets_of(edge, tags);
                let scope = edge.scope.clone();
                next.push((scope, found));
            }
            i += 1;
        }
        assert(graph.take(graph.len() as int) =~= graph);
        next
    }
}
} // verus!
