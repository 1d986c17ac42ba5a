//! The per-file loop: match a rule, rewrite, and follow the rule graph.
use vstd::prelude::*;
use vstd::utf8::{decode_utf8, encode_utf8, valid_utf8};
use tree_sitter::{Parser, Query};
use crate::course::{
    asks, led, lemma_moved, lemma_reached_on, lemma_spent_edits, lemma_stayed, lemma_task_edited,
    lemma_task_stalled, picking, picks, reached, routes, routing, spent, start_of, Course, Phase,
};
use crate::edit::{Edit, Range};
use crate::matching::{
    ancestors_of, capture_range, collect_hits, depth_of, find_enclosing, find_node, hit_tags,
    parent_of, pick_outermost, predicate_holds, select_match, Candidate, Hit,
};
use crate::rule::{covers, instantiated, Constraint, ConstraintView, Rule, RuleView};
use crate::rule_store::{
    global_bindings, lemma_routed_monotone, outgoing_of, outgoing_views, parent_targets,
    rule_views, RuleStore,
};
use crate::scopes::{
    find_scope, scope_index, scope_name, Scope, ScopeGenerator, ScopeQueryGenerator, ScopeView,
};
use crate::text::texts;
use crate::utilities::{first_index, lemma_first_index_is};
use crate::source_code_unit::{accepted, recovers, SourceCodeUnit, UnitError};
use crate::matching::{
    lemma_choice_unique, ancestors, depth, enclosing_index, hit_views, hits_of, holds, is_choice, node_index,
    outermost, parent_index, range_named, tags_of, HitView,
};
use crate::syntax::{
    capture_names, capture_names_of, matches_of, pattern_count_of, post_order, query_accepts,
    query_language, query_matches, query_text, tree_language, tree_nodes, SyntaxNode,
};
use crate::tag::{substitute, substituted, TagMap};

verus! {
/// A rule waiting to be applied, with the query that finds the node it is
/// confined to, if it is confined.
#[derive(Debug)]
pub struct Task {
    pub rule: Rule,
    pub scope: Option<String>,
}

/// How far a run over one file got.
#[derive(Clone, Copy, Debug, PartialEq, Eq, Structural)]
pub struct Progress {
    /// The steps of the allowance that were not used.
    pub steps_left: usize,
    /// No rule was left waiting: the file has reached its fixed point.
    pub complete: bool,
}

/// An edit that was carried out: the rule that asked for it, and where the
/// replacement stands now.
pub struct Applied {
    pub rule: Rule,
    pub range: Range,
}

/// A copy of an optional string.
pub fn clone_scope(scope: &Option<String>) -> (copy: Option<String>)
    ensures
        match (scope, copy) {
            (Some(a), Some(b)) => a@ == b@,
            (None, None) => true,
            _ => false,
        },
{
    match scope {
        Some(text) => Some(text.clone()),
        None => None,
    }
}

/// A task, as plain values.
pub struct TaskView {
    pub rule: RuleView,
    pub scope: Option<Seq<char>>,
}

impl View for Task {
    type V = TaskView;

    open spec fn view(&self) -> TaskView {
        TaskView {
            rule: self.rule@,
            scope: match self.scope {
                Some(query) => Some(query@),
                None => None,
            },
        }
    }
}

/// The views of a list of tasks.
pub open spec fn task_views(tasks: Seq<Task>) -> Seq<TaskView> {
    tasks.map_values(|t: Task| t@)
}

/// The views of a list of optional queries.
pub open spec fn query_views(queries: Seq<Option<String>>) -> Seq<Option<Seq<char>>> {
    queries.map_values(
        |q: Option<String>|
            match q {
                Some(text) => Some(text@),
                None => None,
            },
    )
}

/// The task of a rule confined by `query`, as a function of the rule.
pub open spec fn confined_by(query: Seq<char>) -> spec_fn(RuleView) -> TaskView {
    |rule: RuleView| TaskView { rule, scope: Some(query) }
}

/// The tasks that the edges of `next` give: for each edge at the scope of
/// a method, a class or a named scope whose scope was found, its targets,
/// each confined by the query of that scope. `queries` holds for each edge
/// the query that finds its scope, if one was found.
pub open spec fn tasks_of(
    next: Seq<(ScopeView, Seq<RuleView>)>,
    queries: Seq<Option<Seq<char>>>,
) -> Seq<TaskView>
    decreases next.len(),
{
    if next.len() == 0 || queries.len() != next.len() {
        Seq::empty()
    } else {
        let before = tasks_of(next.drop_last(), queries.drop_last());
        match (scope_name(next.last().0), queries.last()) {
            (Some(_), Some(query)) => before + next.last().1.map_values(confined_by(query)),
            _ => before,
        }
    }
}

/// The tasks that the edges of `next` give.
pub fn scoped_tasks(next: &Vec<(Scope, Vec<Rule>)>, queries: &Vec<Option<String>>) -> (tasks: Vec<
    Task,
>)
    requires
        queries@.len() == next@.len(),
    ensures
        task_views(tasks@) == tasks_of(outgoing_views(next@), query_views(queries@)),
{
    let ghost edges = outgoing_views(next@);
    let ghost found = query_views(queries@);
    let mut tasks: Vec<Task> = Vec::new();
    let mut e: usize = 0;
    while e < next.len()
        invariant
            e <= next@.len(),
            queries@.len() == next@.len(),
            edges == outgoing_views(next@),
            found == query_views(queries@),
            task_views(tasks@) == tasks_of(edges.take(e as int), found.take(e as int)),
        decreases next.len() - e,
    {
        let targets = &next[e].1;
        proof {
            assert(edges.take(e + 1).drop_last() =~= edges.take(e as int));
            assert(found.take(e + 1).drop_last() =~= found.take(e as int));
        }
        match (next[e].0.config_name(), &queries[e]) {
            (Some(_), Some(query)) => {
                let ghost before = task_views(tasks@);
                let ghost wrap = confined_by(query@);
                let mut t: usize = 0;
                while t < targets.len()
                    invariant
                        t <= targets@.len(),
                        wrap == confined_by(query@),
                        task_views(tasks@) == before + rule_views(targets@).take(
                            t as int,
                        ).map_values(wrap),
                    decreases targets.len() - t,
                {
                    let ghost seen = task_views(tasks@);
                    let task = Task { rule: targets[t].clone(), scope: Some(query.clone()) };
                    tasks.push(task);
                    assert(task_views(tasks@) =~= seen.push(task@));
                    t += 1;
                }
            },
            _ => {},
        }
        e += 1;
    }
    assert(edges.take(edges.len() as int) =~= edges);
    assert(found.take(found.len() as int) =~= found);
    tasks
}

/// What a run may have done to a file and to the store: both stay well
/// formed; the file stays where it is and its tags only grow; the store
/// keeps its configuration and its seed rules, its seed tags only grow, and
/// its global rules are only added to, at the end.
pub open spec fn carried_on(
    before: SourceCodeUnit,
    after: SourceCodeUnit,
    store_before: RuleStore,
    store_after: RuleStore,
) -> bool {
    &&& after.wf()
    &&& store_after.wf()
    &&& after.location() == before.location()
    &&& after.first_text() == before.first_text()
    &&& before.tags().dom().subset_of(after.tags().dom())
    &&& store_after.same_config(&store_before)
    &&& store_after.seed() == store_before.seed()
    &&& store_before.global().is_prefix_of(store_after.global())
    &&& store_before.seed_tags().dom().subset_of(store_after.seed_tags().dom())
}

/// An edit was carried out: `range` of the text of `before` was replaced by
/// `replacement` and recovery has left a tree that is accepted, which is
/// the tree of that very text unless it reported an error; the
/// replacement stands at `place`, where recovery has not moved it; the tags
/// `local` of the match are among the tags of the file, and those of them
/// that every file sees are among the seed tags of the store.
pub open spec fn edited(
    before: SourceCodeUnit,
    after: SourceCodeUnit,
    store_before: RuleStore,
    store_after: RuleStore,
    range: Range,
    replacement: Seq<char>,
    local: Map<Seq<char>, Seq<char>>,
    place: Range,
) -> bool {
    &&& range.within(before.bytes().len() as int)
    &&& valid_utf8(before.spliced(range, replacement))
    &&& place.start_byte == range.start_byte
    &&& place.end_byte == range.start_byte + encode_utf8(replacement).len()
    &&& accepted(after.tree())
    &&& recovers(decode_utf8(before.spliced(range, replacement)), after.text())
    &&& before.settled(range, replacement, after, Ok(()))
    &&& after.tags() == before.tags().union_prefer_right(local)
    &&& store_after.seed_tags() == store_before.seed_tags().union_prefer_right(
        global_bindings(local),
    )
    &&& store_after.active() == store_before.active()
}

/// One edit that a rule asks for has made `after` of `before`: the rule
/// asks for it within some scope of `before`, it was carried out with
/// recovery, and the tags of its match were folded into the tags of the file.
pub open spec fn one_edit(before: SourceCodeUnit, after: SourceCodeUnit) -> bool {
    exists|
        rule: RuleView,
        scope: Range,
        range: Range,
        replacement: Seq<char>,
        local: Map<Seq<char>, Seq<char>>,
    |
        {
            &&& #[trigger] before.asks_for(
                rule,
                scope,
                tree_nodes(before.tree()),
                range,
                replacement,
                local,
            )
            &&& !before.refuses(range, replacement)
            &&& accepted(after.tree())
            &&& before.settled(range, replacement, after, Ok(()))
            &&& after.tags() == before.tags().union_prefer_right(local)
            &&& after.location() == before.location()
            &&& after.first_text() == before.first_text()
        }
}

/// `n` edits, each of which a rule asks for, have made `after` of `before`,
/// and nothing else has touched the file.
pub open spec fn edits_made(before: SourceCodeUnit, after: SourceCodeUnit, n: nat) -> bool
    decreases n,
{
    if n == 0 {
        after == before
    } else {
        exists|mid: SourceCodeUnit|
            edits_made(before, mid, (n - 1) as nat) && #[trigger] one_edit(mid, after)
    }
}

/// At most `most` edits, each of which a rule asks for, have made `after`
/// of `before`, and nothing else has touched the file.
pub open spec fn edits_within(before: SourceCodeUnit, after: SourceCodeUnit, most: int) -> bool {
    exists|n: nat| n <= most && #[trigger] edits_made(before, after, n)
}

/// An edit that was asked for and carried out is one edit.
pub proof fn lemma_one_edit(
    before: SourceCodeUnit,
    after: SourceCodeUnit,
    store_before: RuleStore,
    store_after: RuleStore,
    rule: RuleView,
    scope: Range,
    place: Range,
)
    requires
        carried_on(before, after, store_before, store_after),
        exists|range: Range, replacement: Seq<char>, local: Map<Seq<char>, Seq<char>>|
            #[trigger] before.asks_for(
                rule,
                scope,
                tree_nodes(before.tree()),
                range,
                replacement,
                local,
            ) && edited(
                before,
                after,
                store_before,
                store_after,
                range,
                replacement,
                local,
                place,
            ),
    ensures
        one_edit(before, after),
{
    let (range, replacement, local) = choose|
        range: Range,
        replacement: Seq<char>,
        local: Map<Seq<char>, Seq<char>>,
    |
        #[trigger] before.asks_for(
            rule,
            scope,
            tree_nodes(before.tree()),
            range,
            replacement,
            local,
        ) && edited(before, after, store_before, store_after, range, replacement, local, place);
    assert(before.asks_for(rule, scope, tree_nodes(before.tree()), range, replacement, local));
}

/// A file that stays as it is has come by no edit.
pub proof fn lemma_no_edit(unit: SourceCodeUnit, most: int)
    requires
        0 <= most,
    ensures
        edits_within(unit, unit, most),
{
    assert(edits_made(unit, unit, 0));
}

/// What at most `most` edits have made, at most `more` have made.
pub proof fn lemma_edits_more(before: SourceCodeUnit, after: SourceCodeUnit, most: int, more: int)
    requires
        edits_within(before, after, most),
        most <= more,
    ensures
        edits_within(before, after, more),
{
    let n = choose|n: nat| n <= most && #[trigger] edits_made(before, after, n);
    assert(edits_made(before, after, n));
}

/// One more edit makes one more.
pub proof fn lemma_edit_follows(
    before: SourceCodeUnit,
    then: SourceCodeUnit,
    after: SourceCodeUnit,
    most: int,
)
    requires
        edits_within(before, then, most),
        one_edit(then, after),
    ensures
        edits_within(before, after, most + 1),
{
    let n = choose|n: nat| n <= most && #[trigger] edits_made(before, then, n);
    assert(edits_made(before, then, ((n + 1) - 1) as nat));
    assert(edits_made(before, after, n + 1));
}

/// Edits that follow edits add up.
pub proof fn lemma_edits_add(
    before: SourceCodeUnit,
    then: SourceCodeUnit,
    after: SourceCodeUnit,
    n: nat,
    m: nat,
)
    requires
        edits_made(before, then, n),
        edits_made(then, after, m),
    ensures
        edits_made(before, after, n + m),
    decreases m,
{
    if m > 0 {
        let mid = choose|mid: SourceCodeUnit|
            edits_made(then, mid, (m - 1) as nat) && #[trigger] one_edit(mid, after);
        lemma_edits_add(before, then, mid, n, (m - 1) as nat);
        assert(edits_made(before, mid, ((n + m) - 1) as nat));
    }
}

/// What was carried on and then carried on again was carried on.
pub proof fn lemma_carried_twice(
    before: SourceCodeUnit,
    then: SourceCodeUnit,
    after: SourceCodeUnit,
    store_before: RuleStore,
    store_then: RuleStore,
    store_after: RuleStore,
)
    requires
        carried_on(before, then, store_before, store_then),
        carried_on(then, after, store_then, store_after),
    ensures
        carried_on(before, after, store_before, store_after),
{
    assert(store_before.global() =~= store_then.global().subrange(
        0,
        store_before.global().len() as int,
    ));
    assert(store_then.global() =~= store_after.global().subrange(
        0,
        store_then.global().len() as int,
    ));
    assert(store_before.global() =~= store_after.global().subrange(
        0,
        store_before.global().len() as int,
    ));
}

/// The text of the query of a scope, where there is one.
pub open spec fn scope_text(scope: Option<String>) -> Option<Seq<char>> {
    match scope {
        Some(query) => Some(query@),
        None => None,
    }
}

/// The task of the rule at `i`, confined by `scope`.
pub open spec fn seed_task(rules: Seq<RuleView>, scope: Option<Seq<char>>, i: int) -> TaskView {
    TaskView { rule: rules[i], scope }
}

/// The file is as it was, or its tree is accepted as syntactically valid.
pub open spec fn untouched_or_valid(before: SourceCodeUnit, after: SourceCodeUnit) -> bool {
    (after.tree() == before.tree() && after.text() == before.text()) || accepted(after.tree())
}

impl SourceCodeUnit {
    /// The stretch of the whole text.
    pub fn whole(&self) -> (range: Range)
        ensures
            range.start_byte == 0,
            range.end_byte == self.bytes().len(),
            range == self.all(),
    {
        Range { start_byte: 0, end_byte: self.source().as_bytes().len() }
    }

    /// The places within `scope` at which the query fits: the nodes at
    /// which every pattern of the query matches and which lie within the
    /// scope or, where `recursive` is not set, cover exactly the scope.
    pub fn matches(&self, query: &Query, scope: &Range, recursive: bool) -> (hits: Vec<Hit>)
        requires
            self.wf(),
        ensures
            hit_views(hits@) == hits_of(
                matches_of(
                    query_language(*query),
                    query_text(*query),
                    self.tree(),
                    scope.start_byte as int,
                    scope.end_byte as int,
                    self.bytes(),
                ),
                pattern_count_of(query_language(*query), query_text(*query)),
                *scope,
                recursive,
            ),
    {
        let code = self.source().as_bytes();
        let raw = query_matches(query, self.ast(), scope.start_byte, scope.end_byte, code);
        collect_hits(&raw, query.pattern_count(), scope, recursive)
    }

    /// The stretch of the whole text.
    pub open spec fn all(&self) -> Range {
        Range { start_byte: 0, end_byte: self.bytes().len() as usize }
    }

    /// The places within `scope` at which the query that `query` reads fits,
    /// with the capture names of the query; nothing where `query` is no
    /// query of the language of the tree. The query is compiled with a line
    /// feed behind it.
    pub open spec fn hits(&self, query: Seq<char>, scope: Range, recursive: bool) -> Option<
        (Seq<HitView>, Seq<Seq<char>>),
    > {
        let language = tree_language(self.tree());
        let query = query.push('\n');
        if query_accepts(language, query) {
            Some(
                (
                    hits_of(
                        matches_of(
                            language,
                            query,
                            self.tree(),
                            scope.start_byte as int,
                            scope.end_byte as int,
                            self.bytes(),
                        ),
                        pattern_count_of(language, query),
                        scope,
                        recursive,
                    ),
                    capture_names_of(language, query),
                ),
            )
        } else {
            None
        }
    }

    /// Whether `query` is a query and fits somewhere within `scope`, or
    /// exactly at `scope` where `recursive` is not set.
    pub open spec fn fits(&self, query: Seq<char>, scope: Range, recursive: bool) -> bool {
        match self.hits(query, scope, recursive) {
            Some((hits, _)) => hits.len() > 0,
            None => false,
        }
    }

    /// The stretch that a task is confined to: the whole text where it has
    /// no scope, else the first place at which the query of its scope fits.
    pub open spec fn scope_of(&self, scope: Option<Seq<char>>) -> Option<Range> {
        match scope {
            None => Some(self.all()),
            Some(query) => match self.hits(query, self.all(), true) {
                Some((hits, _)) => if hits.len() > 0 {
                    Some(hits[0].range)
                } else {
                    None
                },
                None => None,
            },
        }
    }

    /// The test for a way of finding a scope whose matcher fits exactly `range`.
    pub open spec fn fitting(&self, range: Range) -> spec_fn(ScopeQueryGenerator) -> bool {
        |way: ScopeQueryGenerator| self.fits(way.matcher@, range, false)
    }

    /// The first of `ways` whose matcher fits exactly `range`.
    pub open spec fn first_way(&self, ways: Seq<ScopeQueryGenerator>, range: Range) -> Option<int> {
        first_index(ways, self.fitting(range))
    }

    /// The places within `scope` at which the query fits, with the capture
    /// names of the query; nothing where the text is no query.
    fn hits_for(&self, query_source: &str, scope: &Range, recursive: bool) -> (r: Option<
        (Vec<Hit>, Vec<String>),
    >)
        requires
            self.wf(),
        ensures
            match r {
                Some((hits, names)) => self.hits(query_source@, *scope, recursive) == Some(
                    (hit_views(hits@), texts(names@)),
                ),
                None => self.hits(query_source@, *scope, recursive) is None,
            },
    {
        let language = self.ast().language();
        let mut text = query_source.to_owned();
        text.push('\n');
        match Query::new(language, text.as_str()) {
            Ok(query) => {
                let hits = self.matches(&query, scope, recursive);
                let names = capture_names(&query);
                Some((hits, names))
            },
            Err(_) => None,
        }
    }

    /// Whether the query fits somewhere within `scope`.
    fn fits_within(&self, query_source: &str, scope: &Range) -> (b: bool)
        requires
            self.wf(),
        ensures
            b == self.fits(query_source@, *scope, true),
    {
        match self.hits_for(query_source, scope, true) {
            Some((hits, _)) => hits.len() > 0,
            None => false,
        }
    }

    /// The stretch that a task is confined to: the whole text, or the first
    /// place at which the query of its scope fits.
    fn scope_range(&self, scope: &Option<String>) -> (r: Option<Range>)
        requires
            self.wf(),
        ensures
            r == self.scope_of(
                match scope {
                    Some(query) => Some(query@),
                    None => None,
                },
            ),
    {
        let whole = self.whole();
        match scope {
            None => Some(whole),
            Some(query) => match self.hits_for(query.as_str(), &whole, true) {
                Some((hits, _)) => if hits.len() > 0 {
                    Some(hits[0].range)
                } else {
                    None
                },
                None => None,
            },
        }
    }

    /// The test for a node of `nodes`, by its index, that `matcher` fits exactly.
    pub open spec fn matcher_fits(&self, matcher: Seq<char>, nodes: Seq<SyntaxNode>) -> spec_fn(
        int,
    ) -> bool {
        |at: int| 0 <= at < nodes.len() && self.fits(matcher, nodes[at].range, false)
    }

    /// Whether a query of a constraint, its holes filled from `tags`, fits
    /// somewhere within `scope`, as a function of the query.
    pub open spec fn query_fits(&self, tags: Map<Seq<char>, Seq<char>>, scope: Range) -> spec_fn(
        Seq<char>,
    ) -> bool {
        |query: Seq<char>| self.fits(substituted(query, tags), scope, true)
    }

    /// Whether the surroundings of the node of the number `node_id` meet the
    /// constraint. The matcher of the constraint, its holes filled from
    /// `tags`, must fit a node above that node; within the nearest such
    /// node the queries of the constraint are run, and its predicate
    /// decides over which of them fit.
    pub open spec fn constraint_met(
        &self,
        node_id: usize,
        constraint: ConstraintView,
        tags: Map<Seq<char>, Seq<char>>,
        nodes: Seq<SyntaxNode>,
    ) -> bool {
        match node_index(nodes, node_id) {
            None => false,
            Some(start) => {
                let above = ancestors(nodes, start);
                let matcher = substituted(constraint.matcher, tags);
                match first_index(above, self.matcher_fits(matcher, nodes)) {
                    None => false,
                    Some(k) => holds(
                        constraint.predicate,
                        constraint.queries.map_values(self.query_fits(tags, nodes[above[k]].range)),
                    ),
                }
            },
        }
    }

    /// Whether the surroundings of the node of the number `node_id` meet the
    /// constraint: the matcher of the constraint must fit a node above it,
    /// and within the nearest such node the queries of the constraint are
    /// run and its predicate decides.
    fn satisfies_constraint(
        &self,
        node_id: usize,
        constraint: &Constraint,
        tags: &TagMap,
        nodes: &Vec<SyntaxNode>,
    ) -> (b: bool)
        requires
            self.wf(),
        ensures
            b == self.constraint_met(node_id, constraint@, tags@, nodes@),
    {
        let start = match find_node(nodes, node_id) {
            Some(i) => i,
            None => {
                return false;
            },
        };
        let above = ancestors_of(nodes, start);
        let matcher = substitute(constraint.matcher.as_str(), tags);
        let ghost up = ancestors(nodes@, start as int);
        let ghost p = self.matcher_fits(matcher@, nodes@);
        let mut a: usize = 0;
        while a < above.len()
            invariant
                self.wf(),
                a <= above@.len(),
                node_index(nodes@, node_id) == Some(start as int),
                matcher@ == substituted(constraint@.matcher, tags@),
                up == ancestors(nodes@, start as int),
                above@.len() == up.len(),
                forall|k: int| 0 <= k < above@.len() ==> (#[trigger] above@[k]) < nodes@.len(),
                forall|k: int| 0 <= k < above@.len() ==> (#[trigger] above@[k]) as int == up[k],
                p == self.matcher_fits(matcher@, nodes@),
                forall|j: int| 0 <= j < a ==> !p(#[trigger] up[j]),
            decreases above.len() - a,
        {
            let scope = nodes[above[a]].range;
            let found = match self.hits_for(matcher.as_str(), &scope, false) {
                Some((hits, _)) => hits.len() > 0,
                None => false,
            };
            if found {
                let ghost fit = self.query_fits(tags@, scope);
                let ghost queries = constraint@.queries;
                let mut results: Vec<bool> = Vec::new();
                let mut q: usize = 0;
                while q < constraint.queries.len()
                    invariant
                        self.wf(),
                        q <= constraint.queries@.len(),
                        queries == constraint@.queries,
                        fit == self.query_fits(tags@, scope),
                        results@ == queries.take(q as int).map_values(fit),
                    decreases constraint.queries.len() - q,
                {
                    let query = substitute(constraint.queries[q].as_str(), tags);
                    let one = self.fits_within(query.as_str(), &scope);
                    results.push(one);
                    q += 1;
                }
                proof {
                    assert(queries.take(queries.len() as int) =~= queries);
                    lemma_first_index_is(up, p, a as int);
                }
                return predicate_holds(constraint.predicate, &results);
            }
            a += 1;
        }
        proof {
            lemma_first_index_is(up, p, a as int);
        }
        false
    }

    /// A hit as the choice among hits sees it: how deep its outermost node
    /// lies among `nodes`, and where it starts.
    pub open spec fn candidate_at(hit: HitView, nodes: Seq<SyntaxNode>) -> Candidate {
        Candidate {
            depth: match node_index(nodes, hit.node_id) {
                Some(at) => depth(nodes, at) as usize,
                None => 0,
            },
            start_byte: hit.range.start_byte,
        }
    }

    /// Whether `rule` can rewrite at `hit`: the node to replace was
    /// captured, and the constraint of the rule, if it has one, is met
    /// under the tags of the file with those of the hit on top.
    pub open spec fn open_at(
        &self,
        rule: RuleView,
        hit: HitView,
        names: Seq<Seq<char>>,
        nodes: Seq<SyntaxNode>,
    ) -> bool {
        &&& range_named(hit.captures, names, rule.replace_node) is Some
        &&& match rule.constraint {
            Some(constraint) => self.constraint_met(
                hit.node_id,
                constraint,
                self.tags().union_prefer_right(tags_of(hit.captures, names, self.bytes())),
                nodes,
            ),
            None => true,
        }
    }

    /// The hits as the choice among them sees them.
    pub open spec fn candidates_in(hits: Seq<HitView>, nodes: Seq<SyntaxNode>) -> Seq<Candidate> {
        Seq::new(hits.len(), |k: int| Self::candidate_at(hits[k], nodes))
    }

    /// For each hit, whether `rule` can rewrite at it.
    pub open spec fn open_in(
        &self,
        rule: RuleView,
        hits: Seq<HitView>,
        names: Seq<Seq<char>>,
        nodes: Seq<SyntaxNode>,
    ) -> Seq<bool> {
        Seq::new(hits.len(), |k: int| self.open_at(rule, hits[k], names, nodes))
    }

    /// The edit that `rule` makes at `hit`: the stretch of the node to
    /// replace gets the replacement of the rule, filled in from the tags of
    /// the file with those of the hit, `local`, on top.
    pub open spec fn edit_at(
        &self,
        rule: RuleView,
        hit: HitView,
        names: Seq<Seq<char>>,
        range: Range,
        replacement: Seq<char>,
        local: Map<Seq<char>, Seq<char>>,
    ) -> bool {
        &&& range_named(hit.captures, names, rule.replace_node) == Some(range)
        &&& local == tags_of(hit.captures, names, self.bytes())
        &&& replacement == substituted(rule.replace, self.tags().union_prefer_right(local))
    }

    /// `rule` asks for the replacement of `range` by `replacement` within
    /// `scope`, with `local` the tags of the match: among the places at
    /// which its query fits and at which it can rewrite, this is the edit
    /// at the deepest, and among the deepest at the earliest.
    pub open spec fn asks_for(
        &self,
        rule: RuleView,
        scope: Range,
        nodes: Seq<SyntaxNode>,
        range: Range,
        replacement: Seq<char>,
        local: Map<Seq<char>, Seq<char>>,
    ) -> bool {
        match self.hits(rule.query, scope, true) {
            Some(found) => exists|k: int|
                #[trigger] is_choice(
                    Self::candidates_in(found.0, nodes),
                    self.open_in(rule, found.0, found.1, nodes),
                    k,
                ) && self.edit_at(rule, found.0[k], found.1, range, replacement, local),
            None => false,
        }
    }

    /// `rule` asks for no edit within `scope`: its query is no query, or
    /// there is no place at which it fits and can rewrite.
    pub open spec fn asks_nothing(&self, rule: RuleView, scope: Range, nodes: Seq<SyntaxNode>) -> bool {
        match self.hits(rule.query, scope, true) {
            Some(found) => forall|k: int|
                0 <= k < found.0.len() ==> !#[trigger] self.open_in(
                    rule,
                    found.0,
                    found.1,
                    nodes,
                )[k],
            None => true,
        }
    }

    /// The next edit that `rule` asks for within `scope`: among the places at
    /// which its query fits and its constraint is met, the deepest, and
    /// among the deepest the earliest. With it come the tags of the match.
    fn next_edit(&self, rule: &Rule, scope: &Range, nodes: &Vec<SyntaxNode>) -> (r: Option<
        (Edit, TagMap),
    >)
        requires
            self.wf(),
        ensures
            match r {
                Some((edit, local)) => edit.matched_rule@ == rule.name@ && self.asks_for(
                    rule@,
                    *scope,
                    nodes@,
                    edit.replacement_range,
                    edit.replacement_string@,
                    local@,
                ),
                None => self.asks_nothing(rule@, *scope, nodes@),
            },
    {
        let (hits, names) = match self.hits_for(rule.query.as_str(), scope, true) {
            Some(found) => found,
            None => {
                return None;
            },
        };
        let code = self.source().as_bytes();
        let ghost found = hit_views(hits@);
        let ghost wanted = Self::candidates_in(found, nodes@);
        let ghost free = self.open_in(rule@, found, texts(names@), nodes@);
        let mut candidates: Vec<Candidate> = Vec::new();
        let mut open: Vec<bool> = Vec::new();
        let mut i: usize = 0;
        while i < hits.len()
            invariant
                self.wf(),
                i <= hits@.len(),
                candidates@.len() == i,
                open@.len() == i,
                code@ == self.bytes(),
                found == hit_views(hits@),
                wanted == Self::candidates_in(found, nodes@),
                free == self.open_in(rule@, found, texts(names@), nodes@),
                forall|k: int| 0 <= k < i ==> (#[trigger] candidates@[k]) == wanted[k],
                forall|k: int| 0 <= k < i ==> (#[trigger] open@[k]) == free[k],
            decreases hits.len() - i,
        {
            let hit = &hits[i];
            let depth = match find_node(nodes, hit.node_id) {
                Some(at) => depth_of(nodes, at),
                None => 0,
            };
            let rewritable = capture_range(
                &hit.captures,
                &names,
                rule.replace_node.as_str(),
            ).is_some();
            let passes = rewritable && match &rule.constraint {
                Some(constraint) => {
                    let tags = self.tags_with(&hit_tags(&hit.captures, &names, code));
                    self.satisfies_constraint(hit.node_id, constraint, &tags, nodes)
                },
                None => true,
            };
            let candidate = Candidate { depth, start_byte: hit.range.start_byte };
            candidates.push(candidate);
            open.push(passes);
            i += 1;
        }
        assert(candidates@ =~= wanted);
        assert(open@ =~= free);
        let k = match select_match(&candidates, &open) {
            Some(k) => k,
            None => {
                return None;
            },
        };
        let hit = &hits[k];
        let local = hit_tags(&hit.captures, &names, code);
        let tags = self.tags_with(&local);
        match capture_range(&hit.captures, &names, rule.replace_node.as_str()) {
            Some(range) => {
                let edit = Edit {
                    replacement_range: range,
                    replacement_string: substitute(rule.replace.as_str(), &tags),
                    matched_rule: rule.name.clone(),
                };
                proof {
                    let got = self.hits(rule@.query, *scope, true);
                    let pair = got->0;
                    assert(pair.0 == found);
                    assert(pair.1 == texts(names@));
                }
                Some((edit, local))
            },
            None => None,
        }
    }

    /// The tags of the file with those of a match on top.
    fn tags_with(&self, local: &TagMap) -> (tags: TagMap)
        ensures
            tags@ == self.tags().union_prefer_right(local@),
    {
        let mut tags = self.substitutions().clone();
        tags.extend(local);
        tags
    }

    /// The replacement of `range` by `replacement` cannot be made: the range
    /// does not lie within the text, or what is left would be no text.
    pub open spec fn refuses(&self, range: Range, replacement: Seq<char>) -> bool {
        !range.within(self.bytes().len() as int) || !valid_utf8(self.spliced(range, replacement))
    }

    /// The task has nothing to do on the file: its rule has a hole that the
    /// tags of the file do not bind, its scope is not found, its rule asks
    /// for no edit within the scope, or the edit asked for cannot be made.
    pub open spec fn stalls(&self, task: TaskView) -> bool {
        let rule = instantiated(task.rule, self.tags());
        let scope = self.scope_of(task.scope);
        let nodes = tree_nodes(self.tree());
        ||| !covers(self.tags(), task.rule.holes)
        ||| scope is None
        ||| self.asks_nothing(rule, scope->0, nodes)
        ||| exists|range: Range, replacement: Seq<char>, local: Map<Seq<char>, Seq<char>>|
            #[trigger] self.asks_for(rule, scope->0, nodes, range, replacement, local)
                && self.refuses(range, replacement)
    }

    /// The task has an edit to make on the file, and the edit can be made:
    /// the tags of the file bind the holes of its rule, its scope is found,
    /// and its rule asks for an edit within the scope whose range lies
    /// within the text and which leaves text behind.
    pub open spec fn attempts(&self, task: TaskView) -> bool {
        let rule = instantiated(task.rule, self.tags());
        let scope = self.scope_of(task.scope);
        let nodes = tree_nodes(self.tree());
        &&& covers(self.tags(), task.rule.holes)
        &&& scope is Some
        &&& exists|range: Range, replacement: Seq<char>, local: Map<Seq<char>, Seq<char>>|
            #[trigger] self.asks_for(rule, scope->0, nodes, range, replacement, local)
                && !self.refuses(range, replacement)
    }

    /// Carries out an edit and folds the tags of its match into the tags of
    /// the file.
    fn carry_out(
        &mut self,
        edit: &Edit,
        tags: &TagMap,
        rule_store: &mut RuleStore,
        parser: &mut Parser,
    ) -> (r: Result<Range, UnitError>)
        requires
            old(self).wf(),
            old(rule_store).wf(),
        ensures
            carried_on(*old(self), *final(self), *old(rule_store), *final(rule_store)),
            r is Ok ==> accepted(final(self).tree()),
            r matches Err(e) ==> (e == UnitError::OutOfBounds || e == UnitError::NotText
                ==> untouched_or_valid(*old(self), *final(self))),
            match r {
                Ok(place) => edited(
                    *old(self),
                    *final(self),
                    *old(rule_store),
                    *final(rule_store),
                    edit.replacement_range,
                    edit.replacement_string@,
                    tags@,
                    place,
                ),
                Err(e) => {
                    &&& e == UnitError::OutOfBounds <==> !edit.replacement_range.within(
                        old(self).bytes().len() as int,
                    )
                    &&& e == UnitError::OutOfBounds || e == UnitError::NotText <==> old(self).refuses(
                        edit.replacement_range,
                        edit.replacement_string@,
                    )
                    &&& e == UnitError::OutOfBounds || e == UnitError::NotText ==> *final(self)
                        == *old(self)
                    &&& e == UnitError::SyntaxError ==> !accepted(final(self).tree())
                    &&& final(self).tags() == old(self).tags()
                    &&& *final(rule_store) == *old(rule_store)
                },
            },
    {
        match self.apply_edit(edit, parser) {
            Ok(done) => {
                self.add_to_substitutions(tags, rule_store);
                Ok(Range { start_byte: done.start_byte, end_byte: done.new_end_byte })
            },
            Err(e) => Err(e),
        }
    }

    /// Applies the rule of a task once, where it fits.
    fn apply_task(&mut self, task: &Task, rule_store: &mut RuleStore, parser: &mut Parser) -> (r:
        Result<Option<Applied>, UnitError>)
        requires
            old(self).wf(),
            old(rule_store).wf(),
        ensures
            carried_on(*old(self), *final(self), *old(rule_store), *final(rule_store)),
            r is Ok ==> untouched_or_valid(*old(self), *final(self)),
            r matches Ok(Some(_)) ==> accepted(final(self).tree()),
            !(r matches Ok(None)) ==> old(self).attempts(task@),
            match r {
                Ok(Some(applied)) => {
                    &&& covers(old(self).tags(), task@.rule.holes)
                    &&& applied.rule@ == instantiated(task@.rule, old(self).tags())
                    &&& old(self).scope_of(task@.scope) is Some
                    &&& exists|range: Range, replacement: Seq<char>, local: Map<Seq<char>, Seq<char>>|
                        #[trigger] old(self).asks_for(
                            applied.rule@,
                            old(self).scope_of(task@.scope)->0,
                            tree_nodes(old(self).tree()),
                            range,
                            replacement,
                            local,
                        ) && edited(
                            *old(self),
                            *final(self),
                            *old(rule_store),
                            *final(rule_store),
                            range,
                            replacement,
                            local,
                            applied.range,
                        )
                },
                Ok(None) => *final(self) == *old(self) && *final(rule_store) == *old(rule_store)
                    && old(self).stalls(task@),
                Err(e) => (e == UnitError::ParserFailed || e == UnitError::SyntaxError)
                    && final(self).tags() == old(self).tags()
                    && *final(rule_store) == *old(rule_store) && old(self).attempts(task@)
                    && (e == UnitError::SyntaxError ==> !accepted(final(self).tree())),
            },
    {
        let rule = match task.rule.try_instantiate(self.substitutions()) {
            Ok(rule) => rule,
            Err(_) => {
                return Ok(None);
            },
        };
        let scope = match self.scope_range(&task.scope) {
            Some(scope) => scope,
            None => {
                return Ok(None);
            },
        };
        let nodes = post_order(self.ast());
        let (edit, tags) = match self.next_edit(&rule, &scope, &nodes) {
            Some(found) => found,
            None => {
                return Ok(None);
            },
        };
        match self.carry_out(&edit, &tags, rule_store, parser) {
            Ok(place) => {
                let applied = Applied { rule, range: place };
                Ok(Some(applied))
            },
            Err(UnitError::OutOfBounds) => Ok(None),
            Err(UnitError::NotText) => Ok(None),
            Err(e) => Err(e),
        }
    }

    /// For each of the nodes `above`, the first of `ways` whose matcher fits
    /// it exactly, if there is one.
    pub open spec fn ways_found(
        &self,
        ways: Seq<ScopeQueryGenerator>,
        above: Seq<int>,
        nodes: Seq<SyntaxNode>,
    ) -> Seq<Option<usize>> {
        Seq::new(
            above.len(),
            |k: int|
                match self.first_way(ways, nodes[above[k]].range) {
                    Some(m) => Some(m as usize),
                    None => None,
                },
        )
    }

    /// The query that finds the scope `name` around `range`. Of the nodes
    /// above the smallest node that encloses `range`, the outermost that a
    /// matcher of the scope fits is taken, and of the matchers that fit it
    /// the first; the generator that goes with that matcher, filled in with
    /// what the matcher captured, is the query.
    pub open spec fn scope_query(
        &self,
        name: Seq<char>,
        range: Range,
        scopes: Seq<ScopeGenerator>,
        nodes: Seq<SyntaxNode>,
    ) -> Option<Seq<char>> {
        match (scope_index(scopes, name), enclosing_index(nodes, range)) {
            (Some(g), Some(start)) => {
                let ways = scopes[g].rules@;
                let above = ancestors(nodes, start);
                let found = self.ways_found(ways, above, nodes);
                match outermost(found) {
                    Some(outer) => match found[outer] {
                        Some(m) => match self.hits(
                            ways[m as int].matcher@,
                            nodes[above[outer]].range,
                            false,
                        ) {
                            Some((hits, names)) => if hits.len() > 0 {
                                Some(
                                    substituted(
                                        ways[m as int].generator@,
                                        tags_of(hits[0].captures, names, self.bytes()),
                                    ),
                                )
                            } else {
                                None
                            },
                            None => None,
                        },
                        None => None,
                    },
                    None => None,
                }
            },
            _ => None,
        }
    }

    /// The query that finds the scope `name` around `range`: the outermost
    /// node above the change that a matcher of the scope fits gives its
    /// generator, filled in with what the matcher captured. Where several
    /// matchers fit that node, the first one counts.
    fn scope_query_for(
        &self,
        name: &str,
        range: &Range,
        scopes: &Vec<ScopeGenerator>,
        nodes: &Vec<SyntaxNode>,
    ) -> (r: Option<String>)
        requires
            self.wf(),
        ensures
            match r {
                Some(query) => self.scope_query(name@, *range, scopes@, nodes@) == Some(query@),
                None => self.scope_query(name@, *range, scopes@, nodes@) is None,
            },
    {
        let generator = match find_scope(scopes, name) {
            Some(g) => &scopes[g],
            None => {
                return None;
            },
        };
        let start = match find_enclosing(nodes, range) {
            Some(i) => i,
            None => {
                return None;
            },
        };
        let above = ancestors_of(nodes, start);
        let ghost up = ancestors(nodes@, start as int);
        let ghost wanted = self.ways_found(generator.rules@, up, nodes@);
        let mut found: Vec<Option<usize>> = Vec::new();
        let mut a: usize = 0;
        while a < above.len()
            invariant
                self.wf(),
                a <= above@.len(),
                found@.len() == a,
                up == ancestors(nodes@, start as int),
                above@.len() == up.len(),
                wanted == self.ways_found(generator.rules@, up, nodes@),
                forall|k: int| 0 <= k < above@.len() ==> (#[trigger] above@[k]) < nodes@.len(),
                forall|k: int| 0 <= k < above@.len() ==> (#[trigger] above@[k]) as int == up[k],
                forall|k: int|
                    0 <= k < a ==> ((#[trigger] found@[k]) matches Some(m) ==> m
                        < generator.rules@.len()),
                forall|k: int| 0 <= k < a ==> (#[trigger] found@[k]) == wanted[k],
            decreases above.len() - a,
        {
            let way = self.first_matcher(generator, &nodes[above[a]].range);
            found.push(way);
            a += 1;
        }
        assert(found@ =~= wanted);
        let outer = match pick_outermost(&found) {
            Some(outer) => outer,
            None => {
                return None;
            },
        };
        let way = match found[outer] {
            Some(m) => &generator.rules[m],
            None => {
                return None;
            },
        };
        match self.hits_for(way.matcher.as_str(), &nodes[above[outer]].range, false) {
            Some((hits, names)) => {
                if hits.len() > 0 {
                    let tags = hit_tags(&hits[0].captures, &names, self.source().as_bytes());
                    Some(substitute(way.generator.as_str(), &tags))
                } else {
                    None
                }
            },
            None => None,
        }
    }

    /// The first way of finding the scope whose matcher fits the node that
    /// covers exactly `range`.
    fn first_matcher(&self, generator: &ScopeGenerator, range: &Range) -> (r: Option<usize>)
        requires
            self.wf(),
        ensures
            match r {
                Some(m) => m < generator.rules@.len() && self.first_way(generator.rules@, *range)
                    == Some(m as int),
                None => self.first_way(generator.rules@, *range) is None,
            },
    {
        let ghost p = self.fitting(*range);
        let mut m: usize = 0;
        while m < generator.rules.len()
            invariant
                self.wf(),
                m <= generator.rules@.len(),
                p == self.fitting(*range),
                forall|j: int| 0 <= j < m ==> !p(#[trigger] generator.rules@[j]),
            decreases generator.rules.len() - m,
        {
            let fits = match self.hits_for(generator.rules[m].matcher.as_str(), range, false) {
                Some((hits, _)) => hits.len() > 0,
                None => false,
            };
            if fits {
                proof {
                    lemma_first_index_is(generator.rules@, p, m as int);
                }
                return Some(m);
            }
            m += 1;
        }
        proof {
            lemma_first_index_is(generator.rules@, p, m as int);
        }
        None
    }

    /// The stretch of the node directly above the smallest node that
    /// encloses `range`, where there is one.
    pub open spec fn parent_scope(nodes: Seq<SyntaxNode>, range: Range) -> Option<Range> {
        match enclosing_index(nodes, range) {
            Some(at) => match parent_index(nodes, at) {
                Some(above) => Some(nodes[above].range),
                None => None,
            },
            None => None,
        }
    }

    /// None of the first `count` of `rules` asks for an edit within `scope`.
    pub open spec fn none_asks(
        &self,
        rules: Seq<RuleView>,
        count: int,
        scope: Range,
        nodes: Seq<SyntaxNode>,
    ) -> bool {
        forall|j: int| 0 <= j < count ==> self.asks_nothing(#[trigger] rules[j], scope, nodes)
    }

    /// The rule at `i` is the first of `rules` to ask for an edit within
    /// `scope`, and the edit is the replacement of `range` by `replacement`.
    pub open spec fn first_asks(
        &self,
        rules: Seq<RuleView>,
        i: int,
        scope: Range,
        nodes: Seq<SyntaxNode>,
        range: Range,
        replacement: Seq<char>,
        local: Map<Seq<char>, Seq<char>>,
    ) -> bool {
        &&& 0 <= i < rules.len()
        &&& self.none_asks(rules, i, scope, nodes)
        &&& self.asks_for(rules[i], scope, nodes, range, replacement, local)
    }

    /// The edit that the first of `parents` to fit asks for within the node
    /// directly above the change at `range`.
    fn parent_edit(&self, parents: &Vec<Rule>, range: &Range, nodes: &Vec<SyntaxNode>) -> (r:
        Option<(Edit, TagMap, Rule)>)
        requires
            self.wf(),
        ensures
            r matches Some(found) ==> {
                &&& Self::parent_scope(nodes@, *range) is Some
                &&& found.0.matched_rule@ == found.2@.name
                &&& exists|i: int|
                    found.2@ == rule_views(parents@)[i] && #[trigger] self.first_asks(
                        rule_views(parents@),
                        i,
                        Self::parent_scope(nodes@, *range)->0,
                        nodes@,
                        found.0.replacement_range,
                        found.0.replacement_string@,
                        found.1@,
                    )
            },
            r is None ==> (Self::parent_scope(nodes@, *range) matches Some(scope)
                ==> self.none_asks(rule_views(parents@), parents@.len() as int, scope, nodes@)),
    {
        let at = match find_enclosing(nodes, range) {
            Some(i) => i,
            None => {
                return None;
            },
        };
        let parent = match parent_of(nodes, at) {
            Some(j) => j,
            None => {
                return None;
            },
        };
        let scope = nodes[parent].range;
        let ghost rules = rule_views(parents@);
        let mut i: usize = 0;
        while i < parents.len()
            invariant
                self.wf(),
                i <= parents@.len(),
                rules == rule_views(parents@),
                Self::parent_scope(nodes@, *range) == Some(scope),
                self.none_asks(rules, i as int, scope, nodes@),
            decreases parents.len() - i,
        {
            match self.next_edit(&parents[i], &scope, nodes) {
                Some((edit, tags)) => {
                    let rule = parents[i].clone();
                    assert(self.first_asks(
                        rules,
                        i as int,
                        Self::parent_scope(nodes@, *range)->0,
                        nodes@,
                        edit.replacement_range,
                        edit.replacement_string@,
                        tags@,
                    ));
                    let ghost local = tags@;
                    let result = (edit, tags, rule);
                    assert(result.1@ == local);
                    return Some(result);
                },
                None => {},
            }
            i += 1;
        }
        None
    }

    /// For each edge of `next`, the query that finds its scope around
    /// `range`, where the edge is at the scope of a method, a class or a
    /// named scope and the scope is found.
    pub open spec fn scope_queries(
        &self,
        next: Seq<(ScopeView, Seq<RuleView>)>,
        range: Range,
        scopes: Seq<ScopeGenerator>,
        nodes: Seq<SyntaxNode>,
    ) -> Seq<Option<Seq<char>>> {
        Seq::new(
            next.len(),
            |e: int|
                match scope_name(next[e].0) {
                    Some(name) => self.scope_query(name, range, scopes, nodes),
                    None => None,
                },
        )
    }

    /// The edges that leave from `rule`, with their targets, as the store
    /// and the tags of the file give them.
    pub open spec fn edges_after(&self, store: RuleStore, rule: RuleView) -> Seq<
        (ScopeView, Seq<RuleView>),
    > {
        outgoing_of(rule, store.graph(), store.table(), self.tags())
    }

    /// The tasks that an edit of `rule` at `place` leads to: the targets of
    /// the edges at the scope of a method, a class or a named scope, each
    /// confined by the query that finds that scope around `place`.
    pub open spec fn tasks_after(&self, store: RuleStore, rule: RuleView, place: Range) -> Seq<
        TaskView,
    > {
        let next = self.edges_after(store, rule);
        tasks_of(
            next,
            self.scope_queries(next, place, store.scope_config(), tree_nodes(self.tree())),
        )
    }

    /// None of `parents` asks for an edit within the node directly above
    /// `place`, or there is no such node.
    pub open spec fn quiet(&self, parents: Seq<RuleView>, place: Range) -> bool {
        let nodes = tree_nodes(self.tree());
        match Self::parent_scope(nodes, place) {
            Some(scope) => self.none_asks(parents, parents.len() as int, scope, nodes),
            None => true,
        }
    }

    /// A rule that asks for an edit does not ask for nothing.
    pub proof fn lemma_asking(
        &self,
        rule: RuleView,
        scope: Range,
        nodes: Seq<SyntaxNode>,
        range: Range,
        replacement: Seq<char>,
        local: Map<Seq<char>, Seq<char>>,
    )
        requires
            self.asks_for(rule, scope, nodes, range, replacement, local),
        ensures
            !self.asks_nothing(rule, scope, nodes),
    {
        let found = self.hits(rule.query, scope, true)->0;
        let k = choose|k: int|
            #[trigger] is_choice(
                Self::candidates_in(found.0, nodes),
                self.open_in(rule, found.0, found.1, nodes),
                k,
            ) && self.edit_at(rule, found.0[k], found.1, range, replacement, local);
        assert(self.open_in(rule, found.0, found.1, nodes)[k]);
    }

    /// A rule asks for one edit at most.
    pub proof fn lemma_asks_once(
        &self,
        rule: RuleView,
        scope: Range,
        nodes: Seq<SyntaxNode>,
        range: Range,
        replacement: Seq<char>,
        local: Map<Seq<char>, Seq<char>>,
        other_range: Range,
        other_replacement: Seq<char>,
        other_local: Map<Seq<char>, Seq<char>>,
    )
        requires
            self.asks_for(rule, scope, nodes, range, replacement, local),
            self.asks_for(rule, scope, nodes, other_range, other_replacement, other_local),
        ensures
            range == other_range,
            replacement == other_replacement,
            local == other_local,
    {
        let found = self.hits(rule.query, scope, true)->0;
        let candidates = Self::candidates_in(found.0, nodes);
        let open = self.open_in(rule, found.0, found.1, nodes);
        let a = choose|k: int|
            #[trigger] is_choice(candidates, open, k) && self.edit_at(
                rule,
                found.0[k],
                found.1,
                range,
                replacement,
                local,
            );
        let b = choose|k: int|
            #[trigger] is_choice(candidates, open, k) && self.edit_at(
                rule,
                found.0[k],
                found.1,
                other_range,
                other_replacement,
                other_local,
            );
        lemma_choice_unique(candidates, open, a, b);
    }

    /// A task that has an edit to make that can be made does not stall.
    pub proof fn lemma_attempting(&self, task: TaskView)
        requires
            self.attempts(task),
        ensures
            !self.stalls(task),
    {
        let rule = instantiated(task.rule, self.tags());
        let scope = self.scope_of(task.scope)->0;
        let nodes = tree_nodes(self.tree());
        let (range, replacement, local) = choose|
            range: Range,
            replacement: Seq<char>,
            local: Map<Seq<char>, Seq<char>>,
        |
            #[trigger] self.asks_for(rule, scope, nodes, range, replacement, local)
                && !self.refuses(range, replacement);
        self.lemma_asking(rule, scope, nodes, range, replacement, local);
        assert forall|
            other_range: Range,
            other_replacement: Seq<char>,
            other_local: Map<Seq<char>, Seq<char>>,
        | #[trigger]
            self.asks_for(
                rule,
                scope,
                nodes,
                other_range,
                other_replacement,
                other_local,
            ) implies !self.refuses(other_range, other_replacement) by {
            self.lemma_asks_once(
                rule,
                scope,
                nodes,
                range,
                replacement,
                local,
                other_range,
                other_replacement,
                other_local,
            );
        }
    }

    /// Follows the edges that leave from the rule of an edit: global targets
    /// are promoted, targets at the scope of a method, a class or a named
    /// scope are put on `tasks` with the query of their scope, and targets at
    /// the parent scope are tried at once on the node above the change.
    /// The rules put on `tasks` for the parent rule that fired are followed
    /// in turn, while steps are left.
    fn propagate(
        &mut self,
        applied: Applied,
        rule_store: &mut RuleStore,
        parser: &mut Parser,
        tasks: &mut Vec<Task>,
        steps: usize,
        Ghost(from): Ghost<Course>,
        Ghost(rules): Ghost<Seq<RuleView>>,
        Ghost(scope): Ghost<Option<Seq<char>>>,
    ) -> (r: Result<usize, UnitError>)
        requires
            old(self).wf(),
            old(rule_store).wf(),
            accepted(old(self).tree()),
            from.unit == *old(self),
            from.store == *old(rule_store),
            from.tasks == task_views(old(tasks)@),
            from.phase == (Phase::Route { rule: applied.rule@, place: applied.range }),
        ensures
            carried_on(*old(self), *final(self), *old(rule_store), *final(rule_store)),
            r matches Ok(left) ==> left <= steps && accepted(final(self).tree()),
            r matches Ok(left) ==> led(
                from,
                *final(self),
                *final(rule_store),
                task_views(final(tasks)@),
                rules,
                scope,
                (steps - left) as nat,
                left == 0,
            ),
    {
        let mut current = applied;
        let mut left = steps;
        let ghost mut m = from;
        proof {
            lemma_stayed(from, rules, scope);
        }
        loop
            invariant
                carried_on(*old(self), *self, *old(rule_store), *rule_store),
                accepted(self.tree()),
                left <= steps,
                reached(from, m, rules, scope, (steps - left) as nat),
                m.unit == *self,
                m.store == *rule_store,
                m.tasks == task_views(tasks@),
                m.at == from.at,
                m.changed == from.changed,
                m.phase == (Phase::Route { rule: current.rule@, place: current.range }),
            decreases left,
        {
            let next = rule_store.outgoing(&current.rule, self.substitutions());
            let nodes = post_order(self.ast());
            let ghost edges = outgoing_views(next@);
            let ghost wanted = self.scope_queries(
                edges,
                current.range,
                rule_store.scope_config(),
                nodes@,
            );
            let mut queries: Vec<Option<String>> = Vec::new();
            let mut e: usize = 0;
            while e < next.len()
                invariant
                    self.wf(),
                    e <= next@.len(),
                    queries@.len() == e,
                    edges == outgoing_views(next@),
                    wanted == self.scope_queries(
                        edges,
                        current.range,
                        rule_store.scope_config(),
                        nodes@,
                    ),
                    forall|k: int| 0 <= k < e ==> (#[trigger] query_views(queries@)[k]) == wanted[k],
                decreases next.len() - e,
            {
                let query = match next[e].0.config_name() {
                    Some(name) => self.scope_query_for(
                        name.as_str(),
                        &current.range,
                        rule_store.scopes(),
                        &nodes,
                    ),
                    None => None,
                };
                let ghost seen = query_views(queries@);
                let ghost one = match &query {
                    Some(text) => Some(text@),
                    None => None,
                };
                queries.push(query);
                assert(query_views(queries@) =~= seen.push(one));
                e += 1;
            }
            assert(query_views(queries@) =~= wanted);
            let scoped = scoped_tasks(&next, &queries);
            let parents = parent_targets(&next);
            proof {
                lemma_routed_monotone(rule_store.active(), edges);
            }
            let ghost store_then = *rule_store;
            rule_store.register(&next);
            let ghost before = task_views(tasks@);
            let ghost added = task_views(scoped@);
            let mut s: usize = scoped.len();
            while s > 0
                invariant
                    s <= scoped@.len(),
                    added == task_views(scoped@),
                    task_views(tasks@) == before + added.reverse().take(scoped@.len() - s),
                decreases s,
            {
                s -= 1;
                let ghost seen = task_views(tasks@);
                let task = Task {
                    rule: scoped[s].rule.clone(),
                    scope: clone_scope(&scoped[s].scope),
                };
                tasks.push(task);
                assert(task_views(tasks@) =~= seen.push(added[s as int]));
            }
            let ghost parents_then = rule_views(parents@);
            proof {
                let asking = Course {
                    unit: *self,
                    store: *rule_store,
                    tasks: task_views(tasks@),
                    at: m.at,
                    changed: m.changed,
                    phase: Phase::Ask { parents: parents_then, place: current.range },
                };
                assert(added.reverse().take(scoped@.len() as int) =~= added.reverse());
                assert(store_then.global().is_prefix_of(rule_store.global()));
                assert(carried_on(m.unit, asking.unit, m.store, asking.store));
                assert(routes(m, asking, current.rule@, current.range, 0));
                lemma_moved(from, m, asking, rules, scope, (steps - left) as nat, 0);
                m = asking;
            }
            if left == 0 {
                return Ok(0);
            }
            let ghost mut which: int = 0;
            let ghost mut asker = (current.rule@, current.range);
            let (edit, tags, rule) = match self.parent_edit(&parents, &current.range, &nodes) {
                Some(found) => {
                    proof {
                        let rules = rule_views(parents@);
                        let scope = Self::parent_scope(nodes@, current.range)->0;
                        let i = choose|i: int|
                            found.2@ == rules[i] && #[trigger] self.first_asks(
                                rules,
                                i,
                                scope,
                                nodes@,
                                found.0.replacement_range,
                                found.0.replacement_string@,
                                found.1@,
                            );
                        self.lemma_asking(
                            rules[i],
                            scope,
                            nodes@,
                            found.0.replacement_range,
                            found.0.replacement_string@,
                            found.1@,
                        );
                        assert(!self.quiet(rules, current.range));
                        asker = (rules[i], scope);
                        which = i;
                    }
                    found
                },
                None => {
                    proof {
                        let idle = picking(m, m.tasks, m.at);
                        assert(asks(m, idle, parents_then, current.range, 0));
                        lemma_moved(from, m, idle, rules, scope, (steps - left) as nat, 0);
                    }
                    return Ok(left);
                },
            };
            left -= 1;
            let ghost asked = (edit.replacement_range, edit.replacement_string@);
            let ghost unit_before = *self;
            let ghost store_before = *rule_store;
            let outcome = self.carry_out(&edit, &tags, rule_store, parser);
            proof {
                match outcome {
                    Ok(place) => {
                        let routing = Course {
                            unit: *self,
                            store: *rule_store,
                            tasks: m.tasks,
                            at: m.at,
                            changed: m.changed,
                            phase: Phase::Route { rule: rule@, place },
                        };
                        assert(m.unit.first_asks(
                            parents_then,
                            which,
                            Self::parent_scope(tree_nodes(m.unit.tree()), current.range)->0,
                            tree_nodes(m.unit.tree()),
                            asked.0,
                            asked.1,
                            tags@,
                        ));
                        assert(!m.unit.refuses(asked.0, asked.1));
                        assert(asks(m, routing, parents_then, current.range, 1));
                        lemma_moved(from, m, routing, rules, scope, (steps - left - 1) as nat, 1);
                        m = routing;
                    },
                    Err(e) => {
                        if e == UnitError::OutOfBounds || e == UnitError::NotText {
                            let idle = picking(m, m.tasks, m.at);
                            assert(m.unit.first_asks(
                                parents_then,
                                which,
                                Self::parent_scope(tree_nodes(m.unit.tree()), current.range)->0,
                                tree_nodes(m.unit.tree()),
                                asked.0,
                                asked.1,
                                tags@,
                            ));
                            assert(m.unit.refuses(asked.0, asked.1));
                            assert(asks(m, idle, parents_then, current.range, 1));
                            lemma_moved(from, m, idle, rules, scope, (steps - left - 1) as nat, 1);
                            m = idle;
                        }
                    },
                }
            }
            match outcome {
                Ok(range) => {
                    current = Applied { rule, range };
                },
                Err(UnitError::OutOfBounds) => {
                    return Ok(left);
                },
                Err(UnitError::NotText) => {
                    return Ok(left);
                },
                Err(e) => {
                    return Err(e);
                },
            }
        }
    }

    /// Every one of the first `count` of `rules`, confined by `scope`, has
    /// nothing to do on the file.
    pub open spec fn all_stall(
        &self,
        rules: Seq<RuleView>,
        scope: Option<Seq<char>>,
        count: int,
    ) -> bool {
        forall|k: int| 0 <= k < count ==> self.stalls(#[trigger] seed_task(rules, scope, k))
    }

    /// Applies `rules` to the file until none of them, nor any rule that
    /// they lead to within the file, fits any more, or until `steps` edits
    /// and attempts were made. The rules are tried in order, each on the
    /// deepest, then the earliest place at which it fits, again and again;
    /// after each edit the edges that leave from the rule are followed and
    /// the rules they lead to within the file are applied. A pass over the
    /// rules in which none of them had anything to do ends the run. Rules
    /// reached at the global scope are promoted in the store and not tried
    /// on this file. What was done is `spent`: the steps of the run, one
    /// after the other, at the cost of the steps that are gone.
    pub fn apply_rules(
        &mut self,
        rule_store: &mut RuleStore,
        rules: &Vec<Rule>,
        parser: &mut Parser,
        scope_query: Option<String>,
        steps: usize,
    ) -> (r: Result<Progress, UnitError>)
        requires
            old(self).wf(),
            old(rule_store).wf(),
        ensures
            carried_on(*old(self), *final(self), *old(rule_store), *final(rule_store)),
            r matches Ok(progress) ==> progress.steps_left <= steps && untouched_or_valid(
                *old(self),
                *final(self),
            ),
            rules@.len() == 0 || steps == 0 ==> r == Ok::<Progress, UnitError>(
                Progress { steps_left: steps, complete: rules@.len() == 0 },
            ) && *final(self) == *old(self) && *final(rule_store) == *old(rule_store),
            r matches Ok(progress) ==> progress.complete || progress.steps_left == 0,
            r matches Ok(progress) ==> spent(
                *old(self),
                *old(rule_store),
                *final(self),
                *final(rule_store),
                rule_views(rules@),
                scope_text(scope_query),
                (steps - progress.steps_left) as nat,
            ),
            r matches Ok(progress) ==> edits_within(
                *old(self),
                *final(self),
                steps - progress.steps_left,
            ),
            r matches Ok(progress) ==> (progress.complete ==> final(self).all_stall(
                rule_views(rules@),
                scope_text(scope_query),
                rules@.len() as int,
            )),
            old(self).all_stall(rule_views(rules@), scope_text(scope_query), rules@.len() as int)
                ==> r == Ok::<Progress, UnitError>(
                Progress {
                    steps_left: if steps >= rules@.len() {
                        (steps - rules@.len()) as usize
                    } else {
                        0
                    },
                    complete: steps >= rules@.len(),
                },
            ) && *final(self) == *old(self) && *final(rule_store) == *old(rule_store),
    {
        let n = rules.len();
        let ghost seeds = rule_views(rules@);
        let ghost scope = scope_text(scope_query);
        let ghost origin = start_of(*old(self), *old(rule_store));
        let ghost calm = self.all_stall(seeds, scope, n as int);
        let ghost mut m = origin;
        let mut tasks: Vec<Task> = Vec::new();
        let mut left = steps;
        proof {
            lemma_stayed(origin, seeds, scope);
            assert(rule_store.global().is_prefix_of(rule_store.global()));
            assert(task_views(tasks@) =~= Seq::<TaskView>::empty());
        }
        loop
            invariant
                carried_on(*old(self), *self, *old(rule_store), *rule_store),
                untouched_or_valid(*old(self), *self),
                left <= steps,
                n == rules@.len(),
                seeds == rule_views(rules@),
                scope == scope_text(scope_query),
                origin == start_of(*old(self), *old(rule_store)),
                calm == old(self).all_stall(seeds, scope, n as int),
                calm ==> *self == *old(self) && *rule_store == *old(rule_store) && left == steps,
                steps == 0 ==> *self == *old(self) && *rule_store == *old(rule_store),
                reached(origin, m, seeds, scope, (steps - left) as nat),
                m == start_of(*self, *rule_store),
                tasks@.len() == 0,
            decreases left,
        {
            let ghost pass_unit = *self;
            let ghost budget = left;
            let mut i: usize = 0;
            let mut changed = false;
            while i < n && left > 0
                invariant
                    carried_on(*old(self), *self, *old(rule_store), *rule_store),
                    untouched_or_valid(*old(self), *self),
                    left <= budget,
                    budget <= steps,
                    i <= n,
                    n == rules@.len(),
                    seeds == rule_views(rules@),
                    scope == scope_text(scope_query),
                    origin == start_of(*old(self), *old(rule_store)),
                    changed ==> left < budget,
                    !changed ==> *self == pass_unit && self.all_stall(seeds, scope, i as int),
                    calm == old(self).all_stall(seeds, scope, n as int),
                    calm ==> !changed && *self == *old(self) && *rule_store == *old(rule_store)
                        && left + i == steps,
                    steps == 0 ==> *self == *old(self) && *rule_store == *old(rule_store),
                    reached(origin, m, seeds, scope, (steps - left) as nat),
                    m.unit == *self,
                    m.store == *rule_store,
                    m.tasks == task_views(tasks@),
                    m.at == i,
                    m.changed == changed,
                    (tasks@.len() == 0 && m.phase == Phase::Pick) || (left == 0 && i < n),
                decreases left,
            {
                left -= 1;
                let task = Task { rule: rules[i].clone(), scope: clone_scope(&scope_query) };
                assert(task@ == seed_task(seeds, scope, i as int));
                let ghost before = *self;
                let ghost store_before = *rule_store;
                let outcome = self.apply_task(&task, rule_store, parser);
                proof {
                    if !(outcome matches Ok(None)) {
                        before.lemma_attempting(task@);
                    }
                    lemma_carried_twice(
                        *old(self),
                        before,
                        *self,
                        *old(rule_store),
                        store_before,
                        *rule_store,
                    );
                }
                match outcome {
                    Ok(None) => {
                        proof {
                            lemma_task_stalled(origin, m, seeds, scope, (steps - left - 1) as nat);
                            m = picking(m, m.tasks, i + 1);
                        }
                        i += 1;
                    },
                    Ok(Some(applied)) => {
                        proof {
                            lemma_task_edited(
                                origin,
                                m,
                                task@,
                                *self,
                                *rule_store,
                                applied.rule@,
                                applied.range,
                                seeds,
                                scope,
                                (steps - left - 1) as nat,
                            );
                            m = routing(m, *self, *rule_store, applied.rule@, applied.range);
                        }
                        changed = true;
                        let ghost mid_unit = *self;
                        let ghost mid_store = *rule_store;
                        let outcome = self.follow(
                            applied,
                            rule_store,
                            parser,
                            &mut tasks,
                            left,
                            Ghost(m),
                            Ghost(seeds),
                            Ghost(scope),
                        );
                        proof {
                            lemma_carried_twice(
                                *old(self),
                                mid_unit,
                                *self,
                                *old(rule_store),
                                mid_store,
                                *rule_store,
                            );
                        }
                        match outcome {
                            Ok(done) => {
                                proof {
                                    lemma_reached_on(
                                        origin,
                                        m,
                                        done.1@,
                                        seeds,
                                        scope,
                                        (steps - left) as nat,
                                        (left - done.0) as nat,
                                    );
                                    m = done.1@;
                                }
                                left = done.0;
                            },
                            Err(e) => {
                                return Err(e);
                            },
                        }
                    },
                    Err(e) => {
                        return Err(e);
                    },
                }
            }
            if i < n {
                proof {
                    lemma_spent_edits(origin, m, seeds, scope, steps as nat);
                }
                return Ok(Progress { steps_left: left, complete: false });
            }
            if !changed {
                proof {
                    lemma_spent_edits(origin, m, seeds, scope, (steps - left) as nat);
                }
                return Ok(Progress { steps_left: left, complete: true });
            }
            proof {
                let again = start_of(*self, *rule_store);
                assert(m.tasks =~= Seq::<TaskView>::empty());
                assert(picks(m, again, seeds, scope, 0));
                lemma_moved(origin, m, again, seeds, scope, (steps - left) as nat, 0);
                m = again;
            }
        }
    }

    /// After an edit: follows the edges of its rule, and then applies the
    /// tasks that wait, the last first, each again and again, until none
    /// waits or the steps run out.
    fn follow(
        &mut self,
        applied: Applied,
        rule_store: &mut RuleStore,
        parser: &mut Parser,
        tasks: &mut Vec<Task>,
        steps: usize,
        Ghost(from): Ghost<Course>,
        Ghost(rules): Ghost<Seq<RuleView>>,
        Ghost(scope): Ghost<Option<Seq<char>>>,
    ) -> (r: Result<(usize, Ghost<Course>), UnitError>)
        requires
            old(self).wf(),
            old(rule_store).wf(),
            accepted(old(self).tree()),
            from.unit == *old(self),
            from.store == *old(rule_store),
            from.tasks == task_views(old(tasks)@),
            from.phase == (Phase::Route { rule: applied.rule@, place: applied.range }),
            from.changed,
        ensures
            carried_on(*old(self), *final(self), *old(rule_store), *final(rule_store)),
            r matches Ok(done) ==> {
                &&& done.0 <= steps
                &&& accepted(final(self).tree())
                &&& reached(from, done.1@, rules, scope, (steps - done.0) as nat)
                &&& done.1@.unit == *final(self)
                &&& done.1@.store == *final(rule_store)
                &&& done.1@.tasks == task_views(final(tasks)@)
                &&& done.1@.at == from.at
                &&& done.1@.changed == from.changed
                &&& (final(tasks)@.len() == 0 && done.1@.phase == Phase::Pick) || done.0 == 0
                &&& steps > 0 ==> done.0 < steps || (final(tasks)@.len() == 0 && done.1@.phase
                    == Phase::Pick)
            },
    {
        let ghost mut m = from;
        let mut left = match self.propagate(
            applied,
            rule_store,
            parser,
            tasks,
            steps,
            Ghost(from),
            Ghost(rules),
            Ghost(scope),
        ) {
            Ok(rest) => rest,
            Err(e) => {
                return Err(e);
            },
        };
        proof {
            m = choose|end: Course| #[trigger]
                reached(from, end, rules, scope, (steps - left) as nat) && end.unit == *self
                    && end.store == *rule_store && end.tasks == task_views(tasks@) && end.at
                    == from.at && end.changed == from.changed && (left == 0 || end.phase
                    == Phase::Pick);
        }
        while tasks.len() > 0 && left > 0
            invariant
                carried_on(*old(self), *self, *old(rule_store), *rule_store),
                accepted(self.tree()),
                left <= steps,
                reached(from, m, rules, scope, (steps - left) as nat),
                m.unit == *self,
                m.store == *rule_store,
                m.tasks == task_views(tasks@),
                m.at == from.at,
                m.changed == from.changed,
                from.changed,
                left == 0 || m.phase == Phase::Pick,
            decreases left,
        {
            left -= 1;
            let ghost waiting = task_views(tasks@);
            let next = tasks.pop().unwrap();
            proof {
                assert(task_views(tasks@) =~= waiting.drop_last());
                assert(next@ == waiting.last());
            }
            let ghost before = *self;
            let ghost store_before = *rule_store;
            let outcome = self.apply_task(&next, rule_store, parser);
            proof {
                if !(outcome matches Ok(None)) {
                    before.lemma_attempting(next@);
                }
            }
            match outcome {
                Ok(Some(done)) => {
                    let ghost task = next@;
                    tasks.push(next);
                    proof {
                        assert(task_views(tasks@) =~= waiting);
                        lemma_task_edited(
                            from,
                            m,
                            task,
                            *self,
                            *rule_store,
                            done.rule@,
                            done.range,
                            rules,
                            scope,
                            (steps - left - 1) as nat,
                        );
                        m = routing(m, *self, *rule_store, done.rule@, done.range);
                    }
                    let ghost room = left;
                    let ghost mid_unit = *self;
                    let ghost mid_store = *rule_store;
                    match self.propagate(
                        done,
                        rule_store,
                        parser,
                        tasks,
                        left,
                        Ghost(m),
                        Ghost(rules),
                        Ghost(scope),
                    ) {
                        Ok(rest) => {
                            left = rest;
                        },
                        Err(e) => {
                            proof {
                                lemma_carried_twice(
                                    *old(self),
                                    before,
                                    mid_unit,
                                    *old(rule_store),
                                    store_before,
                                    mid_store,
                                );
                                lemma_carried_twice(
                                    *old(self),
                                    mid_unit,
                                    *self,
                                    *old(rule_store),
                                    mid_store,
                                    *rule_store,
                                );
                            }
                            return Err(e);
                        },
                    }
                    proof {
                        lemma_carried_twice(
                            *old(self),
                            before,
                            mid_unit,
                            *old(rule_store),
                            store_before,
                            mid_store,
                        );
                        lemma_carried_twice(
                            *old(self),
                            mid_unit,
                            *self,
                            *old(rule_store),
                            mid_store,
                            *rule_store,
                        );
                        let end = choose|end: Course| #[trigger]
                            reached(m, end, rules, scope, (room - left) as nat) && end.unit
                                == *self && end.store == *rule_store && end.tasks == task_views(
                                tasks@,
                            ) && end.at == m.at && end.changed == m.changed && (left == 0
                                || end.phase == Phase::Pick);
                        lemma_reached_on(
                            from,
                            m,
                            end,
                            rules,
                            scope,
                            (steps - room) as nat,
                            (room - left) as nat,
                        );
                        m = end;
                    }
                },
                Ok(None) => {
                    proof {
                        lemma_task_stalled(from, m, rules, scope, (steps - left - 1) as nat);
                        m = picking(m, waiting.drop_last(), m.at);
                    }
                },
                Err(e) => {
                    proof {
                        lemma_carried_twice(
                            *old(self),
                            before,
                            *self,
                            *old(rule_store),
                            store_before,
                            *rule_store,
                        );
                    }
                    return Err(e);
                },
            }
        }
        Ok((left, Ghost(m)))
    }
}
} // verus!
