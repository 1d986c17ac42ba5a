//! The project-level loop: find the files worth parsing, run the rules on
//! each, and start over whenever a new global rule was found.
use vstd::prelude::*;
use tree_sitter::Parser;
use crate::config::PiranhaArguments;
use crate::course::{lemma_rested_run, spent};
use crate::engine::{carried_on, untouched_or_valid, Progress};
use crate::grep::{grep_heuristics, grep_hit, heuristics_of, holds_fragment};
use crate::rule::{Rule, RuleView};
use crate::rule_store::{edge_views, rule_views, seeds_of, RuleStore};
use crate::scopes::{OutgoingEdges, ScopeGenerator};
use crate::source_code_unit::{accepted, SourceCodeUnit, UnitError};
use crate::syntax::{language_for, same_shape, tree_nodes, JAVA};
use crate::text::{same_text, texts};
use crate::utilities::{
    extension_of, first_index, has_extension, lemma_first_index, lemma_first_index_is,
};

verus! {
/// A file of the code base, as it was read.
#[derive(Debug)]
pub struct SourceFile {
    pub path: String,
    pub content: String,
}

/// Why a cleanup was given up.
#[derive(Clone, Copy, Debug, PartialEq, Eq, Structural)]
pub enum CleanupError {
    /// No grammar is at hand for the language.
    UnknownLanguage,
    /// The parser refused the grammar of the language.
    LanguageRefused,
    /// Work on a file failed.
    Unit(UnitError),
}

/// What one pass over the code base came to.
#[derive(Clone, Copy, Debug, PartialEq, Eq, Structural)]
pub struct Pass {
    /// How far the pass got with the allowance it was given.
    pub progress: Progress,
    /// How many of the files worth parsing the pass has worked on.
    pub handled: usize,
    /// The pass has led to a new global rule, and has ended there.
    pub grew: bool,
}

/// The file has the extension of the language and matches the fragments.
pub open spec fn wanted(file: SourceFile, extension: Seq<char>, fragments: Seq<Seq<char>>) -> bool {
    extension_of(file.path@) == Some(extension) && grep_hit(fragments, file.content@)
}

/// The indices of the files that have the extension of the language and
/// match the fragments, in ascending order.
pub open spec fn selected(files: Seq<SourceFile>, extension: Seq<char>, fragments: Seq<Seq<char>>) -> Seq<
    int,
>
    decreases files.len(),
{
    if files.len() == 0 {
        Seq::empty()
    } else {
        let before = selected(files.drop_last(), extension, fragments);
        if wanted(files.last(), extension, fragments) {
            before.push(files.len() - 1)
        } else {
            before
        }
    }
}

/// The indices that `selected` gives are indices of wanted files.
pub proof fn lemma_selected(files: Seq<SourceFile>, extension: Seq<char>, fragments: Seq<Seq<char>>)
    ensures
        forall|k: int|
            0 <= k < selected(files, extension, fragments).len() ==> 0 <= (#[trigger] selected(
                files,
                extension,
                fragments,
            )[k]) < files.len() && wanted(
                files[selected(files, extension, fragments)[k]],
                extension,
                fragments,
            ),
    decreases files.len(),
{
    if files.len() > 0 {
        let rest = files.drop_last();
        lemma_selected(rest, extension, fragments);
        assert(selected(rest, extension, fragments).is_prefix_of(
            selected(files, extension, fragments),
        ));
    }
}

/// Every wanted file has its index among those that `selected` gives.
pub proof fn lemma_selected_complete(
    files: Seq<SourceFile>,
    extension: Seq<char>,
    fragments: Seq<Seq<char>>,
    j: int,
)
    requires
        0 <= j < files.len(),
        wanted(files[j], extension, fragments),
    ensures
        selected(files, extension, fragments).contains(j),
    decreases files.len(),
{
    let all = selected(files, extension, fragments);
    let rest = files.drop_last();
    let before = selected(rest, extension, fragments);
    if j == files.len() - 1 {
        assert(all[all.len() - 1] == j);
    } else {
        lemma_selected_complete(rest, extension, fragments, j);
        let k = choose|k: int| 0 <= k < before.len() && before[k] == j;
        assert(all[k] == j);
    }
}

/// The test for a unit whose text is no longer the text that was read.
pub open spec fn changed() -> spec_fn(SourceCodeUnit) -> bool {
    |unit: SourceCodeUnit| unit.text() != unit.first_text()
}

/// `copy` is a copy of `unit`: text, tags and place are those of the unit,
/// and its tree agrees with that of the unit in all but the numbers of the
/// nodes.
pub open spec fn same_unit(copy: SourceCodeUnit, unit: SourceCodeUnit) -> bool {
    &&& copy.text() == unit.text()
    &&& copy.first_text() == unit.first_text()
    &&& copy.tags() == unit.tags()
    &&& copy.location() == unit.location()
    &&& unit.wf() ==> copy.wf()
    &&& same_shape(tree_nodes(copy.tree()), tree_nodes(unit.tree()))
}

/// The test for a file that lies at `path`.
pub open spec fn lying_at(path: Seq<char>) -> spec_fn(SourceCodeUnit) -> bool {
    |unit: SourceCodeUnit| unit.location() == path
}

/// The indices of a list, as integers.
pub open spec fn as_ints(indices: Seq<usize>) -> Seq<int> {
    indices.map_values(|i: usize| i as int)
}

/// `unit` was parsed from `file`, which matched the grep heuristic of the
/// seed rules and the first `n` global rules of `store`. With `valid`, the
/// unit still holds the text of the file, or its tree is accepted as
/// syntactically valid.
pub open spec fn origin(
    unit: SourceCodeUnit,
    file: SourceFile,
    store: RuleStore,
    n: int,
    valid: bool,
) -> bool {
    &&& 0 <= n <= store.global().len()
    &&& unit.location() == file.path@
    &&& wanted(file, store.language(), heuristics_of(store.seed() + store.global().take(n)))
    &&& valid ==> unit.text() == file.content@ || accepted(unit.tree())
}

/// `unit` was parsed from one of `files`, which matched the grep heuristic
/// of the rules that applied to every file at the time.
pub open spec fn has_origin(
    unit: SourceCodeUnit,
    files: Seq<SourceFile>,
    store: RuleStore,
    valid: bool,
) -> bool {
    exists|j: int, n: int| 0 <= j < files.len() && #[trigger] origin(unit, files[j], store, n, valid)
}

/// What the store of a cleaner keeps while it works: its configuration and
/// its seed rules. Its global rules are only added to, at the end.
pub open spec fn store_kept(before: RuleStore, after: RuleStore) -> bool {
    &&& after.same_config(&before)
    &&& after.seed() == before.seed()
    &&& before.global().is_prefix_of(after.global())
}

/// A unit keeps its origin while it is worked on and rules are promoted.
pub proof fn lemma_origin_kept(
    unit: SourceCodeUnit,
    after: SourceCodeUnit,
    files: Seq<SourceFile>,
    store: RuleStore,
    store_after: RuleStore,
    valid: bool,
    valid_after: bool,
)
    requires
        has_origin(unit, files, store, valid),
        after.location() == unit.location(),
        store_kept(store, store_after),
        valid_after ==> valid && untouched_or_valid(unit, after),
    ensures
        has_origin(after, files, store_after, valid_after),
{
    let (j, n) = choose|j: int, n: int|
        0 <= j < files.len() && #[trigger] origin(unit, files[j], store, n, valid);
    assert(store_after.global().take(n) =~= store.global().take(n));
    assert(origin(after, files[j], store_after, n, valid_after));
}

/// The state of a cleanup: the rule store, and the files parsed so far.
pub struct FlagCleaner {
    rule_store: RuleStore,
    path_to_codebase: String,
    relevant_files: Vec<SourceCodeUnit>,
}

impl FlagCleaner {
    /// The rule store.
    pub closed spec fn store(&self) -> RuleStore {
        self.rule_store
    }

    /// The files parsed so far, in the order in which they were first parsed.
    pub closed spec fn units(&self) -> Seq<SourceCodeUnit> {
        self.relevant_files@
    }

    /// Where the code base lies.
    pub closed spec fn codebase(&self) -> Seq<char> {
        self.path_to_codebase@
    }

    /// The store and every file parsed so far are well formed.
    pub open spec fn wf(&self) -> bool {
        &&& self.store().wf()
        &&& forall|i: int| 0 <= i < self.units().len() ==> (#[trigger] self.units()[i]).wf()
    }

    /// The rules that apply to every file: the seed rules and then the
    /// global rules.
    pub open spec fn active_rules(&self) -> Seq<crate::rule::RuleView> {
        self.store().seed() + self.store().global()
    }

    /// A cleaner over the given configuration, with no file parsed yet.
    pub fn new(
        args: PiranhaArguments,
        rules: Vec<Rule>,
        edges: Vec<OutgoingEdges>,
        scopes: Vec<ScopeGenerator>,
    ) -> (cleaner: FlagCleaner)
        ensures
            cleaner.wf(),
            cleaner.units().len() == 0,
            cleaner.codebase() == args.path_to_code_base@,
            cleaner.store().table() == rule_views(rules@),
            cleaner.store().graph() == edge_views(edges@),
            cleaner.store().scope_config() == scopes@,
            cleaner.store().active() == seeds_of(rule_views(rules@), args.input_substitutions@),
            cleaner.store().seed_tags() == args.input_substitutions@,
            cleaner.store().language() == args.language_name@,
            cleaner.store().global().len() == 0,
    {
        let store = RuleStore::new(
            rules,
            edges,
            scopes,
            args.input_substitutions,
            args.language_name.as_str(),
        );
        proof {
            crate::rule_store::lemma_seeds_are_seeds(store.table(), store.seed_tags());
        }
        FlagCleaner {
            rule_store: store,
            path_to_codebase: args.path_to_code_base,
            relevant_files: Vec::new(),
        }
    }

    /// The files that were changed, as they stand: copies of the units whose
    /// text is no longer the text that was read, in the order in which the
    /// files were first parsed.
    pub fn get_updated_files(&self) -> (files: Vec<SourceCodeUnit>)
        ensures
            files@.len() == self.units().filter(changed()).len(),
            forall|i: int|
                0 <= i < files@.len() ==> same_unit(
                    #[trigger] files@[i],
                    self.units().filter(changed())[i],
                ),
    {
        let ghost p = changed();
        let mut files: Vec<SourceCodeUnit> = Vec::new();
        let mut i: usize = 0;
        assert(self.units().take(0) =~= Seq::<SourceCodeUnit>::empty());
        assert(self.units().take(0).filter(p) =~= Seq::<SourceCodeUnit>::empty());
        while i < self.relevant_files.len()
            invariant
                i <= self.relevant_files@.len(),
                p == changed(),
                files@.len() == self.units().take(i as int).filter(p).len(),
                forall|k: int|
                    0 <= k < files@.len() ==> same_unit(
                        #[trigger] files@[k],
                        self.units().take(i as int).filter(p)[k],
                    ),
            decreases self.relevant_files.len() - i,
        {
            proof {
                assert(self.units().take(i + 1) =~= self.units().take(i as int).push(
                    self.units()[i as int],
                ));
                self.units().take(i as int).lemma_filter_push(self.units()[i as int], p);
            }
            if self.relevant_files[i].is_modified() {
                files.push(self.relevant_files[i].clone());
            }
            i += 1;
        }
        assert(self.units().take(self.units().len() as int) =~= self.units());
        files
    }

    /// The rules that apply to every file: the seed rules and then the
    /// global rules.
    pub fn rules_for_every_file(&self) -> (rules: Vec<Rule>)
        ensures
            rule_views(rules@) == self.active_rules(),
    {
        let mut rules = self.rule_store.seed_rules();
        let mut promoted = self.rule_store.global_rules();
        rules.append(&mut promoted);
        rules
    }

    /// The grep heuristic: the texts that the rules for every file were
    /// instantiated with, as plain fragments. A file that holds none of
    /// them cannot match any of those rules.
    pub fn get_grep_heuristics(&self) -> (fragments: Vec<String>)
        ensures
            texts(fragments@) == heuristics_of(self.active_rules()),
    {
        let rules = self.rules_for_every_file();
        grep_heuristics(&rules)
    }

    /// The files worth parsing: those of `files` that have the extension of
    /// the language and hold a fragment of the grep heuristic.
    pub fn get_files_containing_feature_flag_api_usage(&self, files: &Vec<SourceFile>) -> (r:
        Vec<usize>)
        ensures
            as_ints(r@) == selected(
                files@,
                self.store().language(),
                heuristics_of(self.active_rules()),
            ),
    {
        let ghost extension = self.store().language();
        let ghost fragments = heuristics_of(self.active_rules());
        let mut r: Vec<usize> = Vec::new();
        let heuristic = self.get_grep_heuristics();
        let mut i: usize = 0;
        assert(files@.take(0) =~= Seq::<SourceFile>::empty());
        assert(as_ints(r@) =~= Seq::<int>::empty());
        while i < files.len()
            invariant
                i <= files@.len(),
                extension == self.store().language(),
                fragments == heuristics_of(self.active_rules()),
                texts(heuristic@) == fragments,
                as_ints(r@) == selected(files@.take(i as int), extension, fragments),
            decreases files.len() - i,
        {
            proof {
                assert(files@.take(i + 1).drop_last() =~= files@.take(i as int));
                assert(files@.take(i + 1).last() == files@[i as int]);
            }
            if has_extension(files[i].path.as_str(), self.rule_store.language_name().as_str())
                && holds_fragment(&heuristic, files[i].content.as_str()) {
                let ghost before = as_ints(r@);
                r.push(i);
                assert(as_ints(r@) =~= before.push(i as int));
            }
            i += 1;
        }
        assert(files@.take(files@.len() as int) =~= files@);
        r
    }

    /// Where the file of the path stands among the files parsed so far.
    fn find_unit(&self, path: &str) -> (r: Option<usize>)
        ensures
            r matches Some(k) ==> k < self.units().len() && self.units()[k as int].location()
                == path@,
            match r {
                Some(k) => first_index(self.units(), lying_at(path@)) == Some(k as int),
                None => first_index(self.units(), lying_at(path@)) is None,
            },
    {
        let ghost p = lying_at(path@);
        let mut i: usize = 0;
        while i < self.relevant_files.len()
            invariant
                i <= self.relevant_files@.len(),
                p == lying_at(path@),
                forall|j: int| 0 <= j < i ==> !p(#[trigger] self.units()[j]),
            decreases self.relevant_files.len() - i,
        {
            if same_text(self.relevant_files[i].path().as_str(), path) {
                proof {
                    lemma_first_index_is(self.units(), p, i as int);
                }
                return Some(i);
            }
            i += 1;
        }
        proof {
            lemma_first_index_is(self.units(), p, i as int);
        }
        None
    }

    /// The files of `files` that are worth parsing: those that have the
    /// extension of the language and hold a fragment of the grep heuristic
    /// of the rules for every file, by their indices.
    pub open spec fn worth(&self, files: Seq<SourceFile>) -> Seq<int> {
        selected(files, self.store().language(), heuristics_of(self.active_rules()))
    }

    /// Every file parsed since there were `base` of them has its origin
    /// among `files`.
    pub open spec fn origins_known(&self, files: Seq<SourceFile>, base: int, valid: bool) -> bool {
        forall|i: int|
            base <= i < self.units().len() ==> has_origin(
                #[trigger] self.units()[i],
                files,
                self.store(),
                valid,
            )
    }

    /// What a cleanup may have done: the code base and the configuration
    /// stay, the global rules are only added to, and the files parsed
    /// before are all still there, each where it was. With `valid`, each of
    /// them is as it was or has a tree accepted as syntactically valid.
    pub open spec fn progressed(&self, after: &Self, valid: bool) -> bool {
        &&& after.codebase() == self.codebase()
        &&& store_kept(self.store(), after.store())
        &&& self.units().len() <= after.units().len()
        &&& forall|i: int|
            0 <= i < self.units().len() ==> (#[trigger] after.units()[i]).location()
                == self.units()[i].location() && (valid ==> untouched_or_valid(
                self.units()[i],
                after.units()[i],
            ))
    }

    /// A file parsed so far lies at `path`.
    pub open spec fn has_unit(&self, path: Seq<char>) -> bool {
        exists|i: int| 0 <= i < self.units().len() && (#[trigger] self.units()[i]).location() == path
    }

    /// Every one of `files` that has the extension of the language and
    /// matches the grep heuristic of the rules for every file was parsed.
    pub open spec fn all_seen(&self, files: Seq<SourceFile>) -> bool {
        forall|j: int|
            0 <= j < files.len() && wanted(
                #[trigger] files[j],
                self.store().language(),
                heuristics_of(self.active_rules()),
            ) ==> self.has_unit(files[j].path@)
    }

    /// A file parsed so far lies at `path`, and none of `rules` has anything
    /// left to do on the first such file.
    pub open spec fn rests(&self, path: Seq<char>, rules: Seq<RuleView>) -> bool {
        match first_index(self.units(), lying_at(path)) {
            Some(i) => 0 <= i < self.units().len() && self.units()[i].all_stall(
                rules,
                None,
                rules.len() as int,
            ),
            None => false,
        }
    }

    /// The first of the files parsed so far that lies at `path`.
    pub open spec fn unit_at(&self, path: Seq<char>) -> SourceCodeUnit {
        self.units()[first_index(self.units(), lying_at(path))->0]
    }

    /// `start` is what the work on `file` starts from: the first of the
    /// files parsed so far that lies at its path or, where there is none, a
    /// file of its text, with the seed tags of the store.
    pub open spec fn starts_from(&self, start: SourceCodeUnit, file: SourceFile) -> bool {
        match first_index(self.units(), lying_at(file.path@)) {
            Some(i) => 0 <= i < self.units().len() && start == self.units()[i],
            None => {
                &&& start.wf()
                &&& start.text() == file.content@
                &&& start.first_text() == file.content@
                &&& start.tags() == self.store().seed_tags()
                &&& start.location() == file.path@
            },
        }
    }

    /// `after` holds the files of `self` with `unit` in place of the first
    /// of them that lies at `path` or, where none lies there, behind them.
    pub open spec fn swapped_in(&self, after: &Self, path: Seq<char>, unit: SourceCodeUnit) -> bool {
        after.units() == (match first_index(self.units(), lying_at(path)) {
            Some(k) => self.units().update(k, unit),
            None => self.units().push(unit),
        })
    }

    /// The work on `file` has made `after` of `self`: the file it starts
    /// from has gone through a run over `rules` that has spent `cost` of the
    /// `allowance`, and stands now where it stood, or behind the other
    /// files; no other file was touched. Where steps are left over, none of
    /// the rules has anything left to do on the file.
    pub open spec fn file_ran(
        &self,
        after: &Self,
        file: SourceFile,
        rules: Seq<RuleView>,
        allowance: int,
        cost: int,
    ) -> bool {
        exists|start: SourceCodeUnit|
            {
                &&& #[trigger] self.starts_from(start, file)
                &&& first_index(after.units(), lying_at(file.path@)) is Some
                &&& self.swapped_in(after, file.path@, after.unit_at(file.path@))
                &&& 0 <= cost <= allowance
                &&& spent(
                    start,
                    self.store(),
                    after.unit_at(file.path@),
                    after.store(),
                    rules,
                    None,
                    cost as nat,
                )
                &&& cost < allowance ==> after.unit_at(file.path@).all_stall(
                    rules,
                    None,
                    rules.len() as int,
                )
            }
    }

    /// A pass over the files worth parsing in `self` has made `after` of
    /// `self` by work on the first `handled` of them, one after the other:
    /// each was given what was left of the `allowance`, together they have
    /// spent `cost`, and none but the last has led to a new global rule.
    pub open spec fn pass_ran(
        &self,
        after: &Self,
        files: Seq<SourceFile>,
        rules: Seq<RuleView>,
        handled: nat,
        allowance: int,
        cost: int,
    ) -> bool
        decreases handled,
    {
        if handled == 0 {
            after.units() == self.units() && after.store() == self.store() && cost == 0
        } else {
            exists|mid: Self, c: int|
                {
                    &&& 0 <= c <= cost
                    &&& self.pass_ran(
                        &mid,
                        files,
                        rules,
                        (handled - 1) as nat,
                        allowance,
                        cost - c,
                    )
                    &&& mid.store().global() == self.store().global()
                    &&& #[trigger] mid.file_ran(
                        after,
                        files[self.worth(files)[handled - 1]],
                        rules,
                        allowance - (cost - c),
                        c,
                    )
                }
        }
    }

    /// `count` passes, each of which has led to a new global rule, have
    /// made `mid` of `self`, one after the other; each has cost one step
    /// and what it has spent, and `left` is left of the allowance `steps`.
    pub open spec fn grew_on(
        &self,
        mid: &Self,
        files: Seq<SourceFile>,
        steps: usize,
        left: usize,
        count: nat,
    ) -> bool
        decreases count,
    {
        if count == 0 {
            mid.units() == self.units() && mid.store() == self.store() && left == steps
        } else {
            exists|prev: Self, room: usize, pass: Pass|
                {
                    &&& self.grew_on(&prev, files, steps, room, (count - 1) as nat)
                    &&& room > 0
                    &&& #[trigger] prev.passed(mid, files, (room - 1) as usize, pass)
                    &&& pass.grew
                    &&& left == pass.progress.steps_left
                }
        }
    }

    /// A cleanup with the allowance `steps` has made `after` of `self`:
    /// passes that have each led to a new global rule, and then either one
    /// pass that has not, whose progress is that of the cleanup, or no
    /// step left for another pass.
    pub open spec fn cleaned(
        &self,
        after: &Self,
        files: Seq<SourceFile>,
        steps: usize,
        progress: Progress,
    ) -> bool {
        exists|mid: Self, left: usize, count: nat|
            {
                &&& #[trigger] self.grew_on(&mid, files, steps, left, count)
                &&& if left == 0 {
                    after.units() == mid.units() && after.store() == mid.store() && progress == (
                    Progress { steps_left: 0, complete: false })
                } else {
                    exists|pass: Pass| #[trigger]
                        mid.passed(after, files, (left - 1) as usize, pass) && !pass.grew
                            && progress == pass.progress
                }
            }
    }

    /// A pass that has worked on some files, none of which has led to a new
    /// global rule, and then on the next has worked on one more.
    pub proof fn lemma_pass_ran_on(
        &self,
        mid: &Self,
        after: &Self,
        files: Seq<SourceFile>,
        rules: Seq<RuleView>,
        handled: nat,
        allowance: int,
        cost: int,
        c: int,
    )
        requires
            self.pass_ran(mid, files, rules, handled, allowance, cost),
            mid.store().global() == self.store().global(),
            0 <= c,
            0 <= cost,
            mid.file_ran(after, files[self.worth(files)[handled as int]], rules, allowance - cost, c),
        ensures
            self.pass_ran(after, files, rules, handled + 1, allowance, cost + c),
    {
        assert(self.pass_ran(
            mid,
            files,
            rules,
            ((handled + 1) - 1) as nat,
            allowance,
            (cost + c) - c,
        ));
        assert(mid.file_ran(
            after,
            files[self.worth(files)[(handled + 1) - 1]],
            rules,
            allowance - ((cost + c) - c),
            c,
        ));
    }

    /// Idempotence of the work on a file: where none of the rules has
    /// anything left to do on the file, the work on it leaves the files and
    /// the store as they are.
    pub proof fn lemma_rested_file(
        &self,
        after: &Self,
        file: SourceFile,
        rules: Seq<RuleView>,
        allowance: int,
        cost: int,
    )
        requires
            self.rests(file.path@, rules),
            self.file_ran(after, file, rules, allowance, cost),
        ensures
            after.units() == self.units(),
            after.store() == self.store(),
    {
        let start = choose|start: SourceCodeUnit|
            {
                &&& #[trigger] self.starts_from(start, file)
                &&& first_index(after.units(), lying_at(file.path@)) is Some
                &&& self.swapped_in(after, file.path@, after.unit_at(file.path@))
                &&& 0 <= cost <= allowance
                &&& spent(
                    start,
                    self.store(),
                    after.unit_at(file.path@),
                    after.store(),
                    rules,
                    None,
                    cost as nat,
                )
                &&& cost < allowance ==> after.unit_at(file.path@).all_stall(
                    rules,
                    None,
                    rules.len() as int,
                )
            };
        lemma_rested_run(
            start,
            self.store(),
            after.unit_at(file.path@),
            after.store(),
            rules,
            None,
            cost as nat,
        );
        let k = first_index(self.units(), lying_at(file.path@))->0;
        assert(after.units() =~= self.units());
    }

    /// Idempotence of a pass: on a code base on which none of the rules for
    /// every file has anything left to do, a pass leaves the files and the
    /// store as they are.
    pub proof fn lemma_rested_pass(
        &self,
        after: &Self,
        files: Seq<SourceFile>,
        handled: nat,
        allowance: int,
        cost: int,
    )
        requires
            self.all_rest(files),
            handled <= self.worth(files).len(),
            self.pass_ran(after, files, self.active_rules(), handled, allowance, cost),
        ensures
            after.units() == self.units(),
            after.store() == self.store(),
        decreases handled,
    {
        if handled > 0 {
            let rules = self.active_rules();
            let (mid, c) = choose|mid: Self, c: int|
                {
                    &&& 0 <= c <= cost
                    &&& self.pass_ran(
                        &mid,
                        files,
                        rules,
                        (handled - 1) as nat,
                        allowance,
                        cost - c,
                    )
                    &&& mid.store().global() == self.store().global()
                    &&& #[trigger] mid.file_ran(
                        after,
                        files[self.worth(files)[handled - 1]],
                        rules,
                        allowance - (cost - c),
                        c,
                    )
                };
            self.lemma_rested_pass(&mid, files, (handled - 1) as nat, allowance, cost - c);
            lemma_selected(files, self.store().language(), heuristics_of(rules));
            let j = self.worth(files)[handled - 1];
            assert(self.rests(files[j].path@, rules));
            assert(mid.rests(files[j].path@, rules));
            mid.lemma_rested_file(after, files[j], rules, allowance - (cost - c), c);
        }
    }

    /// Passes on a code base on which none of the rules for every file has
    /// anything left to do lead to no new global rule: there are none that
    /// have.
    pub proof fn lemma_rested_grew(
        &self,
        mid: &Self,
        files: Seq<SourceFile>,
        steps: usize,
        left: usize,
        count: nat,
    )
        requires
            self.all_rest(files),
            self.grew_on(mid, files, steps, left, count),
        ensures
            count == 0,
            mid.units() == self.units(),
            mid.store() == self.store(),
            left == steps,
        decreases count,
    {
        if count > 0 {
            let (prev, room, pass) = choose|prev: Self, room: usize, pass: Pass|
                {
                    &&& self.grew_on(&prev, files, steps, room, (count - 1) as nat)
                    &&& room > 0
                    &&& #[trigger] prev.passed(mid, files, (room - 1) as usize, pass)
                    &&& pass.grew
                    &&& left == pass.progress.steps_left
                };
            self.lemma_rested_grew(&prev, files, steps, room, (count - 1) as nat);
            assert(prev.all_rest(files));
            prev.lemma_rested_pass(
                mid,
                files,
                pass.handled as nat,
                (room - 1) as int,
                (room - 1) - pass.progress.steps_left,
            );
        }
    }

    /// Idempotence of a cleanup: on a code base on which none of the rules
    /// for every file has anything left to do, a cleanup leaves the files
    /// and the store as they are. A cleanup that ends complete leaves such
    /// a code base behind, so that another one after it changes nothing.
    pub proof fn lemma_rested_cleanup(
        &self,
        after: &Self,
        files: Seq<SourceFile>,
        steps: usize,
        progress: Progress,
    )
        requires
            self.all_rest(files),
            self.cleaned(after, files, steps, progress),
        ensures
            after.units() == self.units(),
            after.store() == self.store(),
    {
        let (mid, left, count) = choose|mid: Self, left: usize, count: nat|
            {
                &&& #[trigger] self.grew_on(&mid, files, steps, left, count)
                &&& if left == 0 {
                    after.units() == mid.units() && after.store() == mid.store() && progress == (
                    Progress { steps_left: 0, complete: false })
                } else {
                    exists|pass: Pass| #[trigger]
                        mid.passed(after, files, (left - 1) as usize, pass) && !pass.grew
                            && progress == pass.progress
                }
            };
        self.lemma_rested_grew(&mid, files, steps, left, count);
        if left > 0 {
            let pass = choose|pass: Pass| #[trigger]
                mid.passed(after, files, (left - 1) as usize, pass) && !pass.grew && progress
                    == pass.progress;
            assert(mid.all_rest(files));
            mid.lemma_rested_pass(
                after,
                files,
                pass.handled as nat,
                (left - 1) as int,
                (left - 1) - pass.progress.steps_left,
            );
        }
    }

    /// Every file parsed so far is still there in `after`, at its place,
    /// and has been carried on.
    pub open spec fn all_carried_on(&self, after: &Self) -> bool {
        &&& self.units().len() <= after.units().len()
        &&& forall|i: int|
            0 <= i < self.units().len() ==> carried_on(
                #[trigger] self.units()[i],
                after.units()[i],
                self.store(),
                after.store(),
            )
    }

    /// What is left of `steps` after a pass over `files` files on which none
    /// of `rules` rules has anything to do: each rule costs one step on
    /// each file.
    pub open spec fn idle_pass(steps: usize, files: nat, rules: nat) -> Progress {
        if steps >= files * rules {
            Progress { steps_left: (steps - files * rules) as usize, complete: true }
        } else {
            Progress { steps_left: 0, complete: false }
        }
    }

    /// What is left of `steps` after a cleanup of one pass over `files`
    /// files on which none of `rules` rules has anything to do: the pass
    /// costs one step, and each rule one on each file.
    pub open spec fn idle_progress(steps: usize, files: nat, rules: nat) -> Progress {
        if steps >= 1 + files * rules {
            Progress { steps_left: (steps - 1 - files * rules) as usize, complete: true }
        } else {
            Progress { steps_left: 0, complete: false }
        }
    }

    /// What a pass with `steps` steps has made of the cleaner, where it did
    /// not fail. It has worked on the first `handled` of the files worth
    /// parsing at its start, in their order, with the rules that applied to
    /// every file at its start, and on no other file, as `pass_ran` says
    /// step by step. It has gone through all of them unless a new global
    /// rule came up, which ends the pass: none but the last file worked on
    /// has led to one. Where no step was wanting, none of those rules has
    /// anything left to do on the files worked on.
    pub open spec fn passed(&self, after: &Self, files: Seq<SourceFile>, steps: usize, pass: Pass) -> bool {
        let worth = self.worth(files);
        let rules = self.active_rules();
        &&& pass.handled <= worth.len()
        &&& pass.progress.steps_left <= steps
        &&& pass.progress.complete || pass.progress.steps_left == 0
        &&& pass.grew == (after.store().global().len() > self.store().global().len())
        &&& !pass.grew ==> after.store().global() == self.store().global() && pass.handled
            == worth.len()
        &&& pass.grew ==> pass.handled > 0
        &&& forall|k: int|
            0 <= k < pass.handled ==> after.has_unit(files[#[trigger] worth[k]].path@)
        &&& pass.progress.complete ==> forall|k: int|
            0 <= k < pass.handled ==> after.rests(files[#[trigger] worth[k]].path@, rules)
        &&& self.pass_ran(
            after,
            files,
            rules,
            pass.handled as nat,
            steps as int,
            steps - pass.progress.steps_left,
        )
        &&& self.all_rest(files) ==> after.units() == self.units() && after.store()
            == self.store() && pass.progress == Self::idle_pass(steps, worth.len(), rules.len())
    }

    /// Files that were carried on and then carried on again were carried on.
    pub proof fn lemma_carried_further(&self, then: &Self, after: &Self)
        requires
            self.all_carried_on(then),
            then.all_carried_on(after),
        ensures
            self.all_carried_on(after),
    {
        assert forall|i: int| 0 <= i < self.units().len() implies carried_on(
            #[trigger] self.units()[i],
            after.units()[i],
            self.store(),
            after.store(),
        ) by {
            assert(carried_on(self.units()[i], then.units()[i], self.store(), then.store()));
            assert(carried_on(then.units()[i], after.units()[i], then.store(), after.store()));
            assert(self.store().global() =~= then.store().global().subrange(
                0,
                self.store().global().len() as int,
            ));
            assert(then.store().global() =~= after.store().global().subrange(
                0,
                then.store().global().len() as int,
            ));
        }
    }

    /// A cleaner that stays as it is has carried its files on.
    pub proof fn lemma_carried_nowhere(&self)
        requires
            self.wf(),
        ensures
            self.all_carried_on(self),
    {
        assert(self.store().global().is_prefix_of(self.store().global()));
    }

    /// On every one of `files` that has the extension of the language and
    /// holds a fragment of the grep heuristic, none of the rules for every
    /// file has anything left to do.
    pub open spec fn all_rest(&self, files: Seq<SourceFile>) -> bool {
        forall|j: int|
            0 <= j < files.len() && wanted(
                #[trigger] files[j],
                self.store().language(),
                heuristics_of(self.active_rules()),
            ) ==> self.rests(files[j].path@, self.active_rules())
    }

    /// Runs the rules on one of the files worth parsing, which is parsed
    /// first where it was not parsed before.
    fn clean_file(
        &mut self,
        files: &Vec<SourceFile>,
        j: usize,
        rules: &Vec<Rule>,
        parser: &mut Parser,
        steps: usize,
        Ghost(base): Ghost<int>,
    ) -> (r: Result<Progress, UnitError>)
        requires
            old(self).wf(),
            j < files@.len(),
            0 <= base <= old(self).units().len(),
            old(self).origins_known(files@, base, true),
            wanted(
                files@[j as int],
                old(self).store().language(),
                heuristics_of(old(self).active_rules()),
            ),
        ensures
            final(self).wf(),
            old(self).progressed(final(self), r is Ok),
            final(self).origins_known(files@, base, r is Ok),
            r matches Ok(progress) ==> progress.steps_left <= steps,
            r is Ok ==> final(self).has_unit(files@[j as int].path@),
            r matches Ok(progress) ==> progress.complete || progress.steps_left == 0,
            r matches Ok(progress) ==> (progress.complete ==> final(self).rests(
                files@[j as int].path@,
                rule_views(rules@),
            ) && forall|path: Seq<char>| #[trigger]
                old(self).rests(path, rule_views(rules@)) ==> final(self).rests(
                    path,
                    rule_views(rules@),
                )),
            old(self).all_carried_on(final(self)),
            r matches Ok(progress) ==> old(self).file_ran(
                final(self),
                files@[j as int],
                rule_views(rules@),
                steps as int,
                steps - progress.steps_left,
            ),
            old(self).rests(files@[j as int].path@, rule_views(rules@)) ==> final(self).units()
                == old(self).units() && final(self).store() == old(self).store() && r == Ok::<
                Progress,
                UnitError,
            >(
                Progress {
                    steps_left: if steps >= rules@.len() {
                        (steps - rules@.len()) as usize
                    } else {
                        0
                    },
                    complete: steps >= rules@.len(),
                },
            ),
    {
        let ghost calm = self.rests(files@[j as int].path@, rule_views(rules@));
        let ghost place = lying_at(files@[j as int].path@);
        let file = &files[j];
        let k = match self.find_unit(file.path.as_str()) {
            Some(k) => k,
            None => {
                let unit = match SourceCodeUnit::new(
                    parser,
                    file.content.clone(),
                    self.rule_store.input_substitutions(),
                    file.path.as_str(),
                ) {
                    Ok(unit) => unit,
                    Err(e) => {
                        proof {
                            assert(self.store().global().is_prefix_of(self.store().global()));
                            assert forall|i: int| base <= i < self.units().len() implies has_origin(
                                #[trigger] self.units()[i],
                                files@,
                                self.store(),
                                false,
                            ) by {
                                lemma_origin_kept(
                                    self.units()[i],
                                    self.units()[i],
                                    files@,
                                    self.store(),
                                    self.store(),
                                    true,
                                    false,
                                );
                            }
                        }
                        return Err(e);
                    },
                };
                proof {
                    let n = self.store().global().len() as int;
                    assert(self.store().global().take(n) =~= self.store().global());
                    assert(origin(unit, files@[j as int], self.store(), n, true));
                }
                self.relevant_files.push(unit);
                self.relevant_files.len() - 1
            },
        };
        let ghost before = *self;
        proof {
            lemma_first_index(old(self).units(), place);
            assert forall|i: int| 0 <= i < k implies !place(#[trigger] self.units()[i]) by {
                assert(self.units()[i] == old(self).units()[i]);
            }
        }
        let mut unit = self.relevant_files.remove(k);
        let ghost start = unit;
        let outcome = unit.apply_rules(&mut self.rule_store, rules, parser, None, steps);
        let ghost valid = outcome is Ok;
        self.relevant_files.insert(k, unit);
        proof {
            assert(old(self).starts_from(start, files@[j as int]));
            assert(self.units() =~= before.units().update(k as int, unit));
            assert forall|i: int| 0 <= i < old(self).units().len() implies carried_on(
                #[trigger] old(self).units()[i],
                self.units()[i],
                old(self).store(),
                self.store(),
            ) by {
                if i != k {
                    assert(self.units()[i] == old(self).units()[i]);
                }
            }
            if calm {
                assert(self.units() =~= old(self).units());
            }
            assert(self.units()[k as int].location() == files@[j as int].path@);
            assert forall|i: int| 0 <= i < k implies !place(#[trigger] self.units()[i]) by {
                assert(!place(before.units()[i]));
            }
            lemma_first_index_is(self.units(), place, k as int);
            assert(old(self).swapped_in(&*self, files@[j as int].path@, unit)) by {
                if first_index(old(self).units(), place) is None {
                    assert(self.units() =~= old(self).units().push(unit));
                }
            }
            assert forall|i: int| base <= i < self.units().len() implies has_origin(
                #[trigger] self.units()[i],
                files@,
                self.store(),
                valid,
            ) by {
                lemma_origin_kept(
                    before.units()[i],
                    self.units()[i],
                    files@,
                    before.store(),
                    self.store(),
                    true,
                    valid,
                );
            }
        }
        match outcome {
            Ok(progress) => {
                proof {
                    if progress.complete {
                        let seeds = rule_views(rules@);
                        assert forall|path: Seq<char>| #[trigger]
                            old(self).rests(path, seeds) implies self.rests(path, seeds) by {
                            let at = lying_at(path);
                            lemma_first_index(old(self).units(), at);
                            let i = first_index(old(self).units(), at)->0;
                            assert forall|l: int| 0 <= l < i implies !at(#[trigger] self.units()[l]) by {
                                assert(!at(old(self).units()[l]));
                            }
                            assert(self.units()[i].location() == path);
                            lemma_first_index_is(self.units(), at, i);
                            assert(self.units()[i].all_stall(seeds, None, seeds.len() as int));
                        }
                    }
                }
                Ok(progress)
            },
            Err(e) => Err(e),
        }
    }

    /// One pass over the code base. The files worth parsing are picked by
    /// the grep heuristic of the rules that apply to every file at the start
    /// of the pass, and those rules are run on each of them in turn. As
    /// soon as a file has led to a new global rule the pass ends: the files
    /// behind it are left for the next pass, and the new rule is tried on no
    /// file in this one.
    pub fn run_pass(&mut self, files: &Vec<SourceFile>, parser: &mut Parser, steps: usize) -> (r:
        Result<Pass, UnitError>)
        requires
            old(self).wf(),
        ensures
            final(self).wf(),
            old(self).progressed(final(self), r is Ok),
            final(self).origins_known(files@, old(self).units().len() as int, r is Ok),
            old(self).all_carried_on(final(self)),
            r matches Ok(pass) ==> old(self).passed(final(self), files@, steps, pass),
            old(self).worth(files@).len() == 0 ==> *final(self) == *old(self) && r == Ok::<
                Pass,
                UnitError,
            >(Pass { progress: Progress { steps_left: steps, complete: true }, handled: 0, grew: false }),
            old(self).all_rest(files@) ==> r is Ok,
    {
        let ghost base = self.units().len() as int;
        let ghost first = self.worth(files@);
        let ghost calm = self.all_rest(files@);
        let ghost n = self.active_rules().len();
        let ghost extension = self.store().language();
        let rules = self.rules_for_every_file();
        let count = self.rule_store.global_count();
        let worth = self.get_files_containing_feature_flag_api_usage(files);
        let ghost fragments = heuristics_of(self.active_rules());
        let ghost global = self.store().global();
        let ghost seeds = rule_views(rules@);
        proof {
            lemma_selected(files@, extension, fragments);
            assert forall|k: int| 0 <= k < worth@.len() implies (#[trigger] worth@[k])
                < files@.len() && wanted(files@[worth@[k] as int], extension, fragments) by {
                assert(as_ints(worth@)[k] == worth@[k] as int);
            }
            assert(self.store().global().is_prefix_of(self.store().global()));
        }
        let mut left = steps;
        let mut complete = true;
        let mut s: usize = 0;
        let mut grew = false;
        while s < worth.len() && !grew
            invariant
                s <= worth@.len(),
                left <= steps,
                as_ints(worth@) == first,
                first == old(self).worth(files@),
                s == 0 ==> *self == *old(self) && left == steps && complete,
                seeds == rule_views(rules@),
                seeds == old(self).active_rules(),
                extension == old(self).store().language(),
                complete || left == 0,
                grew ==> s > 0,
                grew == (self.store().global().len() > global.len()),
                !grew ==> self.store().global() == global,
                global == old(self).store().global(),
                count == global.len(),
                calm == old(self).all_rest(files@),
                n == old(self).active_rules().len(),
                calm ==> !grew && self.units() == old(self).units() && self.store() == old(
                    self,
                ).store(),
                calm && complete ==> left + s * n == steps,
                calm && !complete ==> steps < s * n,
                complete ==> forall|k: int|
                    0 <= k < s ==> self.rests(files@[(#[trigger] worth@[k]) as int].path@, seeds),
                forall|k: int|
                    0 <= k < s ==> self.has_unit(files@[(#[trigger] worth@[k]) as int].path@),
                old(self).pass_ran(&*self, files@, seeds, s as nat, steps as int, steps - left),
                old(self).all_carried_on(&*self),
                self.wf(),
                old(self).progressed(&*self, true),
                self.origins_known(files@, base, true),
                base == old(self).units().len(),
                forall|k: int|
                    0 <= k < worth@.len() ==> (#[trigger] worth@[k]) < files@.len() && wanted(
                        files@[worth@[k] as int],
                        extension,
                        fragments,
                    ),
                !grew ==> fragments == heuristics_of(self.active_rules()),
            decreases worth.len() - s,
        {
            let ghost before = *self;
            proof {
                assert(as_ints(worth@)[s as int] == worth@[s as int] as int);
                if calm {
                    assert(old(self).rests(files@[worth@[s as int] as int].path@, seeds));
                    assert(s * n + n == (s + 1) * n) by (nonlinear_arith);
                }
            }
            let outcome = self.clean_file(files, worth[s], &rules, parser, left, Ghost(base));
            proof {
                if s == 0 {
                    assert(as_ints(worth@)[0] == worth@[0] as int);
                }
                assert forall|k: int| 0 <= k < s implies self.has_unit(
                    files@[(#[trigger] worth@[k]) as int].path@,
                ) by {
                    let path = files@[worth@[k] as int].path@;
                    let i = choose|i: int|
                        0 <= i < before.units().len() && (#[trigger] before.units()[i]).location()
                            == path;
                    assert(self.units()[i].location() == path);
                }
                old(self).lemma_carried_further(&before, &*self);
            }
            match outcome {
                Ok(progress) => {
                    proof {
                        old(self).lemma_pass_ran_on(
                            &before,
                            &*self,
                            files@,
                            seeds,
                            s as nat,
                            steps as int,
                            steps - left,
                            left - progress.steps_left,
                        );
                    }
                    left = progress.steps_left;
                    if !progress.complete {
                        complete = false;
                    }
                },
                Err(e) => {
                    return Err(e);
                },
            }
            if self.rule_store.global_count() > count {
                grew = true;
            } else {
                assert(self.store().global() =~= global);
            }
            s += 1;
        }
        let pass = Pass { progress: Progress { steps_left: left, complete }, handled: s, grew };
        proof {
            assert forall|k: int| 0 <= k < s implies final(self).has_unit(
                files@[#[trigger] first[k]].path@,
            ) by {
                assert(as_ints(worth@)[k] == worth@[k] as int);
            }
            if complete {
                assert forall|k: int| 0 <= k < s implies final(self).rests(
                    files@[#[trigger] first[k]].path@,
                    seeds,
                ) by {
                    assert(as_ints(worth@)[k] == worth@[k] as int);
                }
            }
            if calm && !complete {
                assert(s * n <= worth@.len() * n) by (nonlinear_arith)
                    requires
                        s <= worth@.len(),
                        n >= 0,
                ;
            }
            assert(as_ints(worth@).len() == worth@.len());
        }
        Ok(pass)
    }

    /// Cleans the code base up, pass after pass: a pass that finds no new
    /// global rule is the last. Each pass costs one step of the allowance;
    /// the work stops early where `steps` passes, edits and attempts have
    /// been made.
    pub fn perform_cleanup(&mut self, files: &Vec<SourceFile>, steps: usize) -> (r: Result<
        Progress,
        CleanupError,
    >)
        requires
            old(self).wf(),
        ensures
            final(self).wf(),
            old(self).progressed(final(self), r is Ok),
            final(self).origins_known(files@, old(self).units().len() as int, r is Ok),
            old(self).all_carried_on(final(self)),
            r matches Ok(progress) ==> progress.steps_left <= steps && (progress.complete
                || progress.steps_left > 0 ==> final(self).all_seen(files@)),
            r == Err::<Progress, CleanupError>(CleanupError::UnknownLanguage) <==> old(
                self,
            ).store().language() != JAVA@,
            r matches Err(e) ==> (e == CleanupError::UnknownLanguage || e
                == CleanupError::LanguageRefused ==> *final(self) == *old(self)),
            steps == 0 ==> *final(self) == *old(self) && (r is Ok ==> r == Ok::<
                Progress,
                CleanupError,
            >(Progress { steps_left: 0, complete: false })),
            r matches Ok(progress) ==> progress.complete || progress.steps_left == 0,
            r matches Ok(progress) ==> old(self).cleaned(final(self), files@, steps, progress),
            r matches Ok(progress) ==> (progress.complete ==> final(self).all_rest(files@)),
            steps > 0 && r is Ok ==> (old(self).worth(files@).len() > 0 ==> final(self).has_unit(
                files@[old(self).worth(files@)[0]].path@,
            )),
            old(self).all_rest(files@) ==> final(self).units() == old(self).units()
                && final(self).store() == old(self).store() && (r matches Err(e) ==> e
                == CleanupError::UnknownLanguage || e == CleanupError::LanguageRefused) && (r
                is Ok ==> r == Ok::<Progress, CleanupError>(
                Self::idle_progress(
                    steps,
                    old(self).worth(files@).len(),
                    old(self).active_rules().len(),
                ),
            )),
            old(self).worth(files@).len() == 0 ==> *final(self) == *old(self) && (r is Ok ==> r
                == Ok::<Progress, CleanupError>(
                Progress {
                    steps_left: if steps > 0 {
                        (steps - 1) as usize
                    } else {
                        0
                    },
                    complete: steps > 0,
                },
            )),
    {
        let language = match language_for(self.rule_store.language_name().as_str()) {
            Some(language) => language,
            None => {
                return Err(CleanupError::UnknownLanguage);
            },
        };
        let mut parser = Parser::new();
        match parser.set_language(language) {
            Ok(()) => {},
            Err(_) => {
                proof {
                    old(self).lemma_carried_nowhere();
                }
                return Err(CleanupError::LanguageRefused);
            },
        }
        let ghost base = self.units().len() as int;
        let ghost first = self.worth(files@);
        let ghost calm = self.all_rest(files@);
        let ghost n = self.active_rules().len();
        let ghost seeds = self.active_rules();
        let ghost mut passes: nat = 0;
        let ghost mut count: nat = 0;
        let mut left = steps;
        proof {
            old(self).lemma_carried_nowhere();
        }
        while left > 0
            invariant
                old(self).grew_on(&*self, files@, steps, left, count),
                first == old(self).worth(files@),
                seeds == old(self).active_rules(),
                passes == 0 ==> *self == *old(self) && left == steps,
                passes > 0 ==> steps > 0 && first.len() > 0 && self.has_unit(
                    files@[first[0]].path@,
                ),
                calm ==> passes == 0,
                calm == old(self).all_rest(files@),
                n == old(self).active_rules().len(),
                self.wf(),
                old(self).progressed(&*self, true),
                old(self).all_carried_on(&*self),
                self.origins_known(files@, base, true),
                base == old(self).units().len(),
                self.store().language() == JAVA@,
                left <= steps,
            decreases left,
        {
            let ghost room = left;
            left -= 1;
            let ghost before = *self;
            let ghost fragments = heuristics_of(self.active_rules());
            let outcome = self.run_pass(files, &mut parser, left);
            proof {
                old(self).lemma_carried_further(&before, &*self);
                assert forall|i: int| base <= i < self.units().len() implies has_origin(
                    #[trigger] self.units()[i],
                    files@,
                    self.store(),
                    outcome is Ok,
                ) by {
                    if i < before.units().len() {
                        lemma_origin_kept(
                            before.units()[i],
                            self.units()[i],
                            files@,
                            before.store(),
                            self.store(),
                            true,
                            outcome is Ok,
                        );
                    }
                }
                assert(self.store().global().is_prefix_of(self.store().global()));
                if passes > 0 {
                    let path = files@[first[0]].path@;
                    let i = choose|i: int|
                        0 <= i < before.units().len() && (#[trigger] before.units()[i]).location()
                            == path;
                    assert(self.units()[i].location() == path);
                }
            }
            let pass = match outcome {
                Ok(pass) => pass,
                Err(e) => {
                    return Err(CleanupError::Unit(e));
                },
            };
            proof {
                if passes == 0 && first.len() > 0 {
                    assert(pass.handled > 0);
                    assert(self.has_unit(files@[first[0]].path@));
                }
            }
            proof {
                assert(before.passed(&*self, files@, left, pass));
            }
            left = pass.progress.steps_left;
            if !pass.grew {
                proof {
                    let worth = before.worth(files@);
                    assert(self.active_rules() == before.active_rules());
                    assert forall|j: int|
                        0 <= j < files@.len() && wanted(
                            #[trigger] files@[j],
                            self.store().language(),
                            heuristics_of(self.active_rules()),
                        ) implies self.has_unit(files@[j].path@) && (pass.progress.complete
                        ==> self.rests(files@[j].path@, self.active_rules())) by {
                        lemma_selected_complete(files@, before.store().language(), fragments, j);
                        let k = choose|k: int| 0 <= k < worth.len() && worth[k] == j;
                        assert(self.has_unit(files@[worth[k]].path@));
                    }
                }
                proof {
                    assert(old(self).grew_on(&before, files@, steps, room, count));
                    assert(before.passed(&*self, files@, (room - 1) as usize, pass));
                    assert(old(self).cleaned(&*self, files@, steps, pass.progress));
                }
                return Ok(pass.progress);
            }
            proof {
                passes = passes + 1;
                assert(before.passed(&*self, files@, (room - 1) as usize, pass));
                assert(old(self).grew_on(&*self, files@, steps, left, count + 1));
                count = count + 1;
            }
        }
        proof {
            assert(old(self).grew_on(&*self, files@, steps, 0, count));
            assert(old(self).cleaned(
                &*self,
                files@,
                steps,
                Progress { steps_left: 0, complete: false },
            ));
        }
        Ok(Progress { steps_left: 0, complete: false })
    }
}
} // verus!
