//! The course of a run over one file, step by step: which task is tried
//! next, what an edit leads to, and what each step costs.
use vstd::prelude::*;
use crate::edit::Range;
use crate::engine::{
    carried_on, edited, edits_within, lemma_edit_follows, lemma_edits_more,
    lemma_no_edit, lemma_one_edit, one_edit, seed_task, TaskView,
};
use crate::rule::{covers, instantiated, RuleView};
use crate::rule_store::{parents_of, routed, RuleStore};
use crate::source_code_unit::SourceCodeUnit;
use crate::syntax::tree_nodes;

verus! {

/// What a run is about to do.
pub enum Phase {
    /// Pick the next task: the last of the tasks that wait or, where none
    /// waits, the next of the rules of the run.
    Pick,
    /// Follow the edges that leave from `rule`, after its edit at `place`.
    Route { rule: RuleView, place: Range },
    /// Ask the rules at the parent scope for an edit within the node
    /// directly above `place`.
    Ask { parents: Seq<RuleView>, place: Range },
}

/// A run over one file, at one moment.
pub struct Course {
    /// The file.
    pub unit: SourceCodeUnit,
    /// The rule store.
    pub store: RuleStore,
    /// The tasks that wait, the next one last.
    pub tasks: Seq<TaskView>,
    /// The place of the next rule of the run.
    pub at: int,
    /// An edit was made since the first rule of the run was last tried.
    pub changed: bool,
    /// What comes next.
    pub phase: Phase,
}

/// A run at its start.
pub open spec fn start_of(unit: SourceCodeUnit, store: RuleStore) -> Course {
    Course { unit, store, tasks: Seq::empty(), at: 0, changed: false, phase: Phase::Pick }
}

/// `a` with the given tasks and place, about to pick the next task.
pub open spec fn picking(a: Course, tasks: Seq<TaskView>, at: int) -> Course {
    Course { unit: a.unit, store: a.store, tasks, at, changed: a.changed, phase: Phase::Pick }
}

/// The step from `a` to `b` is the edit that `task` asks for: the edit was
/// carried out, the tasks that wait stay, and the edges of the rule are
/// followed next.
pub open spec fn task_edits(a: Course, b: Course, task: TaskView) -> bool {
    &&& covers(a.unit.tags(), task.rule.holes)
    &&& a.unit.scope_of(task.scope) is Some
    &&& carried_on(a.unit, b.unit, a.store, b.store)
    &&& b.tasks == a.tasks
    &&& b.at == a.at
    &&& b.changed
    &&& match b.phase {
        Phase::Route { rule, place } => rule == instantiated(task.rule, a.unit.tags())
            && exists|range: Range, replacement: Seq<char>, local: Map<Seq<char>, Seq<char>>|
            #[trigger] a.unit.asks_for(
                rule,
                a.unit.scope_of(task.scope)->0,
                tree_nodes(a.unit.tree()),
                range,
                replacement,
                local,
            ) && edited(a.unit, b.unit, a.store, b.store, range, replacement, local, place),
        _ => false,
    }
}

/// The step from `a`, which is about to pick a task. A task that waits is
/// taken before the next rule of the run. A task that has nothing to do
/// is dropped, and a rule that has nothing to do gives way to the next; an
/// edit leaves its task waiting, and its rule to be tried again. Where all
/// the rules were tried and an edit was made since the first, the rules are
/// up again from the first, at no cost.
pub open spec fn picks(
    a: Course,
    b: Course,
    rules: Seq<RuleView>,
    scope: Option<Seq<char>>,
    cost: nat,
) -> bool {
    if a.tasks.len() > 0 {
        cost == 1 && (if a.unit.stalls(a.tasks.last()) {
            b == picking(a, a.tasks.drop_last(), a.at)
        } else {
            task_edits(a, b, a.tasks.last())
        })
    } else if 0 <= a.at < rules.len() {
        cost == 1 && (if a.unit.stalls(seed_task(rules, scope, a.at)) {
            b == picking(a, a.tasks, a.at + 1)
        } else {
            task_edits(a, b, seed_task(rules, scope, a.at))
        })
    } else {
        a.changed && cost == 0 && b == Course {
            unit: a.unit,
            store: a.store,
            tasks: a.tasks,
            at: 0,
            changed: false,
            phase: Phase::Pick,
        }
    }
}

/// The step from `a`, which is about to follow the edges that leave from
/// `rule` after its edit at `place`: the store takes in the rules that the
/// edges lead to at the scope of the code base, a class or a method, the
/// rules they lead to within a scope around `place` wait as tasks, the
/// first of them last, and the rules at the parent scope are asked next.
/// It costs nothing.
pub open spec fn routes(a: Course, b: Course, rule: RuleView, place: Range, cost: nat) -> bool {
    &&& cost == 0
    &&& b.unit == a.unit
    &&& carried_on(a.unit, b.unit, a.store, b.store)
    &&& b.store.active() == routed(a.store.active(), a.unit.edges_after(a.store, rule))
    &&& b.store.seed_tags() == a.store.seed_tags()
    &&& b.tasks == a.tasks + a.unit.tasks_after(a.store, rule, place).reverse()
    &&& b.at == a.at
    &&& b.changed == a.changed
    &&& b.phase == (Phase::Ask {
        parents: parents_of(a.unit.edges_after(a.store, rule)),
        place,
    })
}

/// The step from `a`, which is about to ask `parents` for an edit within
/// the node directly above `place`. Where none of them asks for one,
/// nothing happens, at no cost. Else the edit that the first of them asks
/// for is tried, at the cost of one step: where it cannot be made nothing
/// happens, and where it is made the edges of that rule are followed next.
pub open spec fn asks(a: Course, b: Course, parents: Seq<RuleView>, place: Range, cost: nat) -> bool {
    let nodes = tree_nodes(a.unit.tree());
    if a.unit.quiet(parents, place) {
        cost == 0 && b == picking(a, a.tasks, a.at)
    } else {
        cost == 1 && exists|
            i: int,
            range: Range,
            replacement: Seq<char>,
            local: Map<Seq<char>, Seq<char>>,
        |
            {
                &&& #[trigger] a.unit.first_asks(
                    parents,
                    i,
                    SourceCodeUnit::parent_scope(nodes, place)->0,
                    nodes,
                    range,
                    replacement,
                    local,
                )
                &&& if a.unit.refuses(range, replacement) {
                    b == picking(a, a.tasks, a.at)
                } else {
                    &&& carried_on(a.unit, b.unit, a.store, b.store)
                    &&& b.tasks == a.tasks
                    &&& b.at == a.at
                    &&& b.changed == a.changed
                    &&& match b.phase {
                        Phase::Route { rule, place: at } => rule == parents[i] && edited(
                            a.unit,
                            b.unit,
                            a.store,
                            b.store,
                            range,
                            replacement,
                            local,
                            at,
                        ),
                        _ => false,
                    }
                }
            }
    }
}

/// One step of a run over `rules`, each confined by `scope`, leads from
/// `a` to `b` and costs `cost`.
pub open spec fn moves(
    a: Course,
    b: Course,
    rules: Seq<RuleView>,
    scope: Option<Seq<char>>,
    cost: nat,
) -> bool {
    match a.phase {
        Phase::Pick => picks(a, b, rules, scope, cost),
        Phase::Route { rule, place } => routes(a, b, rule, place, cost),
        Phase::Ask { parents, place } => asks(a, b, parents, place, cost),
    }
}

/// `len` steps, one after the other, lead from `a` to `b` and cost `cost`
/// in all.
pub open spec fn ran(
    a: Course,
    b: Course,
    rules: Seq<RuleView>,
    scope: Option<Seq<char>>,
    cost: nat,
    len: nat,
) -> bool
    decreases len,
{
    if len == 0 {
        b == a && cost == 0
    } else {
        exists|mid: Course, c: nat|
            c <= cost && ran(a, mid, rules, scope, (cost - c) as nat, (len - 1) as nat)
                && #[trigger] moves(mid, b, rules, scope, c)
    }
}

/// Steps that cost `cost` in all lead from `a` to `b`.
pub open spec fn reached(
    a: Course,
    b: Course,
    rules: Seq<RuleView>,
    scope: Option<Seq<char>>,
    cost: nat,
) -> bool {
    exists|len: nat| ran(a, b, rules, scope, cost, len)
}

/// A run over `rules`, each confined by `scope`, has made `after` and
/// `store_after` of `before` and `store_before` by steps that cost `cost`
/// in all, taken in the order of the engine.
pub open spec fn spent(
    before: SourceCodeUnit,
    store_before: RuleStore,
    after: SourceCodeUnit,
    store_after: RuleStore,
    rules: Seq<RuleView>,
    scope: Option<Seq<char>>,
    cost: nat,
) -> bool {
    exists|end: Course| #[trigger]
        reached(start_of(before, store_before), end, rules, scope, cost) && end.unit == after
            && end.store == store_after
}

/// Steps that cost `cost` in all lead from `a` to a run that holds the
/// given file, store and tasks, at the place at which `a` stood among the
/// rules. Unless the allowance is `out`, that run is about to pick a task.
pub open spec fn led(
    a: Course,
    unit: SourceCodeUnit,
    store: RuleStore,
    tasks: Seq<TaskView>,
    rules: Seq<RuleView>,
    scope: Option<Seq<char>>,
    cost: nat,
    out: bool,
) -> bool {
    exists|end: Course| #[trigger]
        reached(a, end, rules, scope, cost) && end.unit == unit && end.store == store
            && end.tasks == tasks && end.at == a.at && end.changed == a.changed && (out
            || end.phase == Phase::Pick)
}

/// No step leads from a run to itself, at no cost.
pub proof fn lemma_stayed(a: Course, rules: Seq<RuleView>, scope: Option<Seq<char>>)
    ensures
        reached(a, a, rules, scope, 0),
{
    assert(ran(a, a, rules, scope, 0, 0));
}

/// One more step leads on.
pub proof fn lemma_moved(
    a: Course,
    mid: Course,
    b: Course,
    rules: Seq<RuleView>,
    scope: Option<Seq<char>>,
    cost: nat,
    c: nat,
)
    requires
        reached(a, mid, rules, scope, cost),
        moves(mid, b, rules, scope, c),
    ensures
        reached(a, b, rules, scope, cost + c),
{
    let len = choose|len: nat| ran(a, mid, rules, scope, cost, len);
    assert(ran(a, mid, rules, scope, ((cost + c) - c) as nat, ((len + 1) - 1) as nat));
    assert(ran(a, b, rules, scope, cost + c, len + 1));
}

/// Steps that follow steps add up.
pub proof fn lemma_ran_on(
    a: Course,
    mid: Course,
    b: Course,
    rules: Seq<RuleView>,
    scope: Option<Seq<char>>,
    cost: nat,
    len: nat,
    more: nat,
    further: nat,
)
    requires
        ran(a, mid, rules, scope, cost, len),
        ran(mid, b, rules, scope, more, further),
    ensures
        ran(a, b, rules, scope, cost + more, len + further),
    decreases further,
{
    if further > 0 {
        let (last, c) = choose|last: Course, c: nat|
            c <= more && ran(mid, last, rules, scope, (more - c) as nat, (further - 1) as nat)
                && #[trigger] moves(last, b, rules, scope, c);
        lemma_ran_on(
            a,
            mid,
            last,
            rules,
            scope,
            cost,
            len,
            (more - c) as nat,
            (further - 1) as nat,
        );
        assert(ran(
            a,
            last,
            rules,
            scope,
            ((cost + more) - c) as nat,
            ((len + further) - 1) as nat,
        ));
    }
}

/// Steps that follow steps lead on.
pub proof fn lemma_reached_on(
    a: Course,
    mid: Course,
    b: Course,
    rules: Seq<RuleView>,
    scope: Option<Seq<char>>,
    cost: nat,
    more: nat,
)
    requires
        reached(a, mid, rules, scope, cost),
        reached(mid, b, rules, scope, more),
    ensures
        reached(a, b, rules, scope, cost + more),
{
    let len = choose|len: nat| ran(a, mid, rules, scope, cost, len);
    let further = choose|further: nat| ran(mid, b, rules, scope, more, further);
    lemma_ran_on(a, mid, b, rules, scope, cost, len, more, further);
}

/// A step leaves the file as it is, or is one edit that a rule asks for,
/// at the cost of one step.
pub proof fn lemma_move_edits(
    a: Course,
    b: Course,
    rules: Seq<RuleView>,
    scope: Option<Seq<char>>,
    c: nat,
)
    requires
        moves(a, b, rules, scope, c),
    ensures
        b.unit == a.unit || (c == 1 && one_edit(a.unit, b.unit)),
{
    match a.phase {
        Phase::Pick => {
            if a.tasks.len() > 0 {
                if !a.unit.stalls(a.tasks.last()) {
                    lemma_task_edit(a, b, a.tasks.last());
                }
            } else if 0 <= a.at < rules.len() {
                if !a.unit.stalls(seed_task(rules, scope, a.at)) {
                    lemma_task_edit(a, b, seed_task(rules, scope, a.at));
                }
            }
        },
        Phase::Route { rule, place } => {},
        Phase::Ask { parents, place } => {
            let nodes = tree_nodes(a.unit.tree());
            if !a.unit.quiet(parents, place) {
                let (i, range, replacement, local) = choose|
                    i: int,
                    range: Range,
                    replacement: Seq<char>,
                    local: Map<Seq<char>, Seq<char>>,
                |
                    {
                        &&& #[trigger] a.unit.first_asks(
                            parents,
                            i,
                            SourceCodeUnit::parent_scope(nodes, place)->0,
                            nodes,
                            range,
                            replacement,
                            local,
                        )
                        &&& if a.unit.refuses(range, replacement) {
                            b == picking(a, a.tasks, a.at)
                        } else {
                            &&& carried_on(a.unit, b.unit, a.store, b.store)
                            &&& b.tasks == a.tasks
                            &&& b.at == a.at
                            &&& b.changed == a.changed
                            &&& match b.phase {
                                Phase::Route { rule, place: at } => rule == parents[i] && edited(
                                    a.unit,
                                    b.unit,
                                    a.store,
                                    b.store,
                                    range,
                                    replacement,
                                    local,
                                    at,
                                ),
                                _ => false,
                            }
                        }
                    };
                if !a.unit.refuses(range, replacement) {
                    match b.phase {
                        Phase::Route { rule, place: at } => {
                            assert(a.unit.asks_for(
                                parents[i],
                                SourceCodeUnit::parent_scope(nodes, place)->0,
                                nodes,
                                range,
                                replacement,
                                local,
                            ));
                            lemma_one_edit(
                                a.unit,
                                b.unit,
                                a.store,
                                b.store,
                                parents[i],
                                SourceCodeUnit::parent_scope(nodes, place)->0,
                                at,
                            );
                        },
                        _ => {},
                    }
                }
            }
        },
    }
}

/// The edit of a task is one edit.
pub proof fn lemma_task_edit(a: Course, b: Course, task: TaskView)
    requires
        task_edits(a, b, task),
    ensures
        one_edit(a.unit, b.unit),
{
    match b.phase {
        Phase::Route { rule, place } => {
            lemma_one_edit(
                a.unit,
                b.unit,
                a.store,
                b.store,
                rule,
                a.unit.scope_of(task.scope)->0,
                place,
            );
        },
        _ => {},
    }
}

/// Steps at the cost of `cost` make at most `cost` edits, each of which a
/// rule asks for, and touch the file in no other way.
pub proof fn lemma_ran_edits(
    a: Course,
    b: Course,
    rules: Seq<RuleView>,
    scope: Option<Seq<char>>,
    cost: nat,
    len: nat,
)
    requires
        ran(a, b, rules, scope, cost, len),
    ensures
        edits_within(a.unit, b.unit, cost as int),
    decreases len,
{
    if len == 0 {
        lemma_no_edit(a.unit, 0);
    } else {
        let (mid, c) = choose|mid: Course, c: nat|
            c <= cost && ran(a, mid, rules, scope, (cost - c) as nat, (len - 1) as nat)
                && #[trigger] moves(mid, b, rules, scope, c);
        lemma_ran_edits(a, mid, rules, scope, (cost - c) as nat, (len - 1) as nat);
        lemma_move_edits(mid, b, rules, scope, c);
        if b.unit == mid.unit {
            lemma_edits_more(a.unit, mid.unit, cost - c, cost as int);
        } else {
            lemma_edit_follows(a.unit, mid.unit, b.unit, cost - c);
        }
    }
}

/// A run that has led from its start to `end` has spent what the steps
/// cost, and has made no more edits than that.
pub proof fn lemma_spent_edits(
    a: Course,
    end: Course,
    rules: Seq<RuleView>,
    scope: Option<Seq<char>>,
    cost: nat,
)
    requires
        a == start_of(a.unit, a.store),
        reached(a, end, rules, scope, cost),
    ensures
        spent(a.unit, a.store, end.unit, end.store, rules, scope, cost),
        edits_within(a.unit, end.unit, cost as int),
{
    let len = choose|len: nat| ran(a, end, rules, scope, cost, len);
    lemma_ran_edits(a, end, rules, scope, cost, len);
}

/// The step of a task that has nothing to do: the task is dropped where
/// it waited, and else the next rule of the run is up.
pub proof fn lemma_task_stalled(
    a: Course,
    m: Course,
    rules: Seq<RuleView>,
    scope: Option<Seq<char>>,
    cost: nat,
)
    requires
        reached(a, m, rules, scope, cost),
        m.phase == Phase::Pick,
        m.tasks.len() > 0 || 0 <= m.at < rules.len(),
        m.unit.stalls(
            if m.tasks.len() > 0 {
                m.tasks.last()
            } else {
                seed_task(rules, scope, m.at)
            },
        ),
    ensures
        reached(
            a,
            if m.tasks.len() > 0 {
                picking(m, m.tasks.drop_last(), m.at)
            } else {
                picking(m, m.tasks, m.at + 1)
            },
            rules,
            scope,
            cost + 1,
        ),
{
    let next = if m.tasks.len() > 0 {
        picking(m, m.tasks.drop_last(), m.at)
    } else {
        picking(m, m.tasks, m.at + 1)
    };
    assert(picks(m, next, rules, scope, 1));
    lemma_moved(a, m, next, rules, scope, cost, 1);
}

/// The run `m` after the edit of a task: the file and the store are the
/// given ones, and the edges of `rule` are to be followed from `place`.
pub open spec fn routing(
    m: Course,
    unit: SourceCodeUnit,
    store: RuleStore,
    rule: RuleView,
    place: Range,
) -> Course {
    Course { unit, store, tasks: m.tasks, at: m.at, changed: true, phase: Phase::Route { rule, place } }
}

/// The step of a task whose edit was made.
pub proof fn lemma_task_edited(
    a: Course,
    m: Course,
    task: TaskView,
    unit: SourceCodeUnit,
    store: RuleStore,
    rule: RuleView,
    place: Range,
    rules: Seq<RuleView>,
    scope: Option<Seq<char>>,
    cost: nat,
)
    requires
        reached(a, m, rules, scope, cost),
        m.phase == Phase::Pick,
        m.tasks.len() > 0 || 0 <= m.at < rules.len(),
        task == (if m.tasks.len() > 0 {
            m.tasks.last()
        } else {
            seed_task(rules, scope, m.at)
        }),
        !m.unit.stalls(task),
        covers(m.unit.tags(), task.rule.holes),
        m.unit.scope_of(task.scope) is Some,
        rule == instantiated(task.rule, m.unit.tags()),
        carried_on(m.unit, unit, m.store, store),
        exists|range: Range, replacement: Seq<char>, local: Map<Seq<char>, Seq<char>>|
            #[trigger] m.unit.asks_for(
                rule,
                m.unit.scope_of(task.scope)->0,
                tree_nodes(m.unit.tree()),
                range,
                replacement,
                local,
            ) && edited(m.unit, unit, m.store, store, range, replacement, local, place),
    ensures
        reached(a, routing(m, unit, store, rule, place), rules, scope, cost + 1),
{
    let next = routing(m, unit, store, rule, place);
    assert(task_edits(m, next, task));
    assert(picks(m, next, rules, scope, 1));
    lemma_moved(a, m, next, rules, scope, cost, 1);
}

/// Steps from the start of a run on a file on which none of the rules has
/// anything to do only try the rules, one after the other, and leave the
/// file and the store as they are.
pub proof fn lemma_rested_ran(
    a: Course,
    b: Course,
    rules: Seq<RuleView>,
    scope: Option<Seq<char>>,
    cost: nat,
    len: nat,
)
    requires
        a == start_of(a.unit, a.store),
        a.unit.all_stall(rules, scope, rules.len() as int),
        ran(a, b, rules, scope, cost, len),
    ensures
        b == picking(a, a.tasks, b.at),
        0 <= b.at,
    decreases len,
{
    if len > 0 {
        let (mid, c) = choose|mid: Course, c: nat|
            c <= cost && ran(a, mid, rules, scope, (cost - c) as nat, (len - 1) as nat)
                && #[trigger] moves(mid, b, rules, scope, c);
        lemma_rested_ran(a, mid, rules, scope, (cost - c) as nat, (len - 1) as nat);
        assert(mid.tasks.len() == 0);
        if 0 <= mid.at < rules.len() {
            assert(mid.unit.stalls(seed_task(rules, scope, mid.at)));
        }
    }
}

/// Idempotence of a run: on a file on which none of the rules has anything
/// to do, a run leaves the file and the store as they are, whatever it
/// spends.
pub proof fn lemma_rested_run(
    unit: SourceCodeUnit,
    store: RuleStore,
    after: SourceCodeUnit,
    store_after: RuleStore,
    rules: Seq<RuleView>,
    scope: Option<Seq<char>>,
    cost: nat,
)
    requires
        unit.all_stall(rules, scope, rules.len() as int),
        spent(unit, store, after, store_after, rules, scope, cost),
    ensures
        after == unit,
        store_after == store,
{
    let end = choose|end: Course| #[trigger]
        reached(start_of(unit, store), end, rules, scope, cost) && end.unit == after && end.store
            == store_after;
    let len = choose|len: nat| ran(start_of(unit, store), end, rules, scope, cost, len);
    lemma_rested_ran(start_of(unit, store), end, rules, scope, cost, len);
}

} // verus!
