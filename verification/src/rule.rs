//! Rules: a query, the node to replace, the replacement, and the holes to
//! fill before the rule can run.
use vstd::prelude::*;
use crate::tag::{
    hole_text, lemma_substituted_closes, no_sign, substitute, substituted, unbroken, TagMap,
    HOLE_SIGN,
};
use crate::text::{contains, occurs_in, same_text, texts};

verus! {
/// The label of the rules that clean up the feature-flag API itself.
pub const FEATURE_FLAG_API_GROUP: &'static str = "Feature-flag API cleanup";

/// A copy of a list of strings.
pub fn clone_strings(list: &Vec<String>) -> (copy: Vec<String>)
    ensures
        texts(copy@) == texts(list@),
{
    let mut copy: Vec<String> = Vec::new();
    let mut i: usize = 0;
    while i < list.len()
        invariant
            i <= list@.len(),
            texts(copy@) == texts(list@).take(i as int),
        decreases list.len() - i,
    {
        let ghost before = copy@;
        let item = list[i].clone();
        copy.push(item);
        assert(texts(copy@) =~= texts(before).push(item@));
        i += 1;
    }
    copy
}

/// Whether one of the strings of `list` reads `text`.
pub fn has_text(list: &Vec<String>, text: &str) -> (b: bool)
    ensures
        b == texts(list@).contains(text@),
{
    let mut i: usize = 0;
    while i < list.len()
        invariant
            i <= list@.len(),
            forall|j: int| 0 <= j < i ==> texts(list@)[j] != text@,
        decreases list.len() - i,
    {
        if same_text(list[i].as_str(), text) {
            assert(texts(list@)[i as int] == text@);
            return true;
        }
        i += 1;
    }
    false
}

/// How the queries of a constraint decide.
#[derive(Clone, Copy, Debug, PartialEq, Eq, Structural)]
pub enum Predicate {
    /// Every query must match.
    AllOf,
    /// At least one query must match.
    AnyOf,
    /// No query may match.
    NoneOf,
}

/// A condition on the surroundings of a match: within the scope that
/// `matcher` finds, the `queries` are run and `predicate` decides.
#[derive(Debug)]
pub struct Constraint {
    pub matcher: String,
    pub predicate: Predicate,
    pub queries: Vec<String>,
}

/// What a constraint says, as plain values.
pub struct ConstraintView {
    pub matcher: Seq<char>,
    pub predicate: Predicate,
    pub queries: Seq<Seq<char>>,
}

impl View for Constraint {
    type V = ConstraintView;

    open spec fn view(&self) -> ConstraintView {
        ConstraintView {
            matcher: self.matcher@,
            predicate: self.predicate,
            queries: texts(self.queries@),
        }
    }
}

impl Clone for Constraint {
    fn clone(&self) -> (copy: Self)
        ensures
            copy@ == self@,
    {
        Constraint {
            matcher: self.matcher.clone(),
            predicate: self.predicate,
            queries: clone_strings(&self.queries),
        }
    }
}

/// A named syntactic pattern with its replacement.
#[derive(Debug)]
pub struct Rule {
    /// The name, unique within a store.
    pub name: String,
    /// The pattern, in the query language of the parser; it may hold holes.
    pub query: String,
    /// The capture whose range is rewritten.
    pub replace_node: String,
    /// The replacement template; it may hold holes and names of captures.
    pub replace: String,
    /// The tag names that must be bound before the rule can run.
    pub holes: Vec<String>,
    /// Free-form labels.
    pub groups: Vec<String>,
    /// The condition on the surroundings of a match, if any.
    pub constraint: Option<Constraint>,
    /// Plain fragments of text that a file must hold for the rule to apply.
    pub grep_heuristics: Vec<String>,
}

/// What a rule says, as plain values.
pub struct RuleView {
    pub name: Seq<char>,
    pub query: Seq<char>,
    pub replace_node: Seq<char>,
    pub replace: Seq<char>,
    pub holes: Seq<Seq<char>>,
    pub groups: Seq<Seq<char>>,
    pub constraint: Option<ConstraintView>,
    pub grep_heuristics: Seq<Seq<char>>,
}

impl View for Rule {
    type V = RuleView;

    open spec fn view(&self) -> RuleView {
        RuleView {
            name: self.name@,
            query: self.query@,
            replace_node: self.replace_node@,
            replace: self.replace@,
            holes: texts(self.holes@),
            groups: texts(self.groups@),
            constraint: match self.constraint {
                Some(c) => Some(c@),
                None => None,
            },
            grep_heuristics: texts(self.grep_heuristics@),
        }
    }
}

impl Clone for Rule {
    fn clone(&self) -> (copy: Self)
        ensures
            copy@ == self@,
    {
        Rule {
            name: self.name.clone(),
            query: self.query.clone(),
            replace_node: self.replace_node.clone(),
            replace: self.replace.clone(),
            holes: clone_strings(&self.holes),
            groups: clone_strings(&self.groups),
            constraint: match &self.constraint {
                Some(c) => Some(c.clone()),
                None => None,
            },
            grep_heuristics: clone_strings(&self.grep_heuristics),
        }
    }
}

/// Every one of `holes` is bound in `tags`.
pub open spec fn covers(tags: Map<Seq<char>, Seq<char>>, holes: Seq<Seq<char>>) -> bool {
    forall|i: int| 0 <= i < holes.len() ==> tags.contains_key(#[trigger] holes[i])
}

/// The bindings of `tags` for the names among `holes`.
pub open spec fn relevant(tags: Map<Seq<char>, Seq<char>>, holes: Seq<Seq<char>>) -> Map<
    Seq<char>,
    Seq<char>,
> {
    tags.restrict(holes.to_set())
}

/// The texts bound to those of `holes` that are bound and whose hole stands
/// in `query`, in the order of the holes.
pub open spec fn heuristics(
    query: Seq<char>,
    holes: Seq<Seq<char>>,
    tags: Map<Seq<char>, Seq<char>>,
) -> Seq<Seq<char>>
    decreases holes.len(),
{
    if holes.len() == 0 {
        Seq::empty()
    } else {
        let before = heuristics(query, holes.drop_last(), tags);
        if tags.contains_key(holes.last()) && occurs_in(query, hole_text(holes.last())) {
            before.push(tags[holes.last()])
        } else {
            before
        }
    }
}

/// The rule that instantiation makes of `rule` under `tags`: the holes are
/// filled in the query and in the replacement, the grep heuristics are those
/// of the bindings used, and all else stays.
pub open spec fn instantiated(rule: RuleView, tags: Map<Seq<char>, Seq<char>>) -> RuleView {
    RuleView {
        query: substituted(rule.query, relevant(tags, rule.holes)),
        replace: substituted(rule.replace, relevant(tags, rule.holes)),
        grep_heuristics: heuristics(rule.query, rule.holes, tags),
        ..rule
    }
}

/// The text of the hole of `name`.
pub fn hole_of(name: &str) -> (hole: String)
    ensures
        hole@ == hole_text(name@),
{
    let mut hole = String::new();
    hole.push(HOLE_SIGN);
    hole.push_str(name);
    hole
}

impl Rule {
    /// A rule with no grep heuristics yet.
    pub fn new(
        name: &str,
        query: &str,
        replace_node: &str,
        replace: &str,
        holes: Vec<String>,
        groups: Vec<String>,
        constraint: Option<Constraint>,
    ) -> (rule: Rule)
        ensures
            rule.name@ == name@,
            rule.query@ == query@,
            rule.replace_node@ == replace_node@,
            rule.replace@ == replace@,
            rule.holes == holes,
            rule.groups == groups,
            rule.constraint == constraint,
            rule.grep_heuristics@.len() == 0,
    {
        Rule {
            name: name.to_owned(),
            query: query.to_owned(),
            replace_node: replace_node.to_owned(),
            replace: replace.to_owned(),
            holes,
            groups,
            constraint,
            grep_heuristics: Vec::new(),
        }
    }

    /// Whether every hole of the rule is bound in `tags`.
    pub fn is_instantiable(&self, tags: &TagMap) -> (b: bool)
        ensures
            b == covers(tags@, self@.holes),
    {
        let mut i: usize = 0;
        while i < self.holes.len()
            invariant
                i <= self.holes@.len(),
                forall|j: int| 0 <= j < i ==> tags@.contains_key(#[trigger] self@.holes[j]),
            decreases self.holes.len() - i,
        {
            if !tags.contains_key(self.holes[i].as_str()) {
                assert(self@.holes[i as int] == self.holes@[i as int]@);
                return false;
            }
            i += 1;
        }
        true
    }

    /// The bindings of `tags` for the holes of the rule.
    fn relevant_tags(&self, tags: &TagMap) -> (r: TagMap)
        ensures
            r@ == relevant(tags@, self@.holes),
    {
        let mut r = TagMap::new();
        let mut i: usize = 0;
        let ghost holes = self@.holes;
        while i < self.holes.len()
            invariant
                i <= self.holes@.len(),
                holes == self@.holes,
                r@ == relevant(tags@, holes.take(i as int)),
            decreases self.holes.len() - i,
        {
            let hole = &self.holes[i];
            proof {
                assert(holes.take(i + 1) =~= holes.take(i as int).push(holes[i as int]));
                holes.take(i as int).lemma_push_to_set_commute(holes[i as int]);
            }
            match tags.get(hole.as_str()) {
                Some(text) => {
                    r.insert(hole.clone(), text.clone());
                },
                None => {},
            }
            i += 1;
        }
        assert(holes.take(holes.len() as int) =~= holes);
        r
    }

    /// The grep heuristics of the rule under `tags`: the texts bound to the
    /// holes that stand in the query.
    fn heuristics_under(&self, tags: &TagMap) -> (list: Vec<String>)
        ensures
            texts(list@) == heuristics(self@.query, self@.holes, tags@),
    {
        let mut list: Vec<String> = Vec::new();
        let mut i: usize = 0;
        let ghost holes = self@.holes;
        while i < self.holes.len()
            invariant
                i <= self.holes@.len(),
                holes == self@.holes,
                texts(list@) == heuristics(self@.query, holes.take(i as int), tags@),
            decreases self.holes.len() - i,
        {
            let hole = &self.holes[i];
            proof {
                assert(holes.take(i + 1).drop_last() =~= holes.take(i as int));
            }
            let sign = hole_of(hole.as_str());
            match tags.get(hole.as_str()) {
                Some(text) => {
                    if contains(self.query.as_str(), sign.as_str()) {
                        list.push(text.clone());
                    }
                },
                None => {},
            }
            i += 1;
        }
        assert(holes.take(holes.len() as int) =~= holes);
        list
    }

    /// Fills the holes of the rule from `tags`, or fails where a hole is
    /// not bound.
    pub fn try_instantiate(&self, tags: &TagMap) -> (r: Result<Rule, InstantiationError>)
        ensures
            match r {
                Ok(rule) => covers(tags@, self@.holes) && rule@ == instantiated(self@, tags@),
                Err(e) => !covers(tags@, self@.holes) && e.rule@ == self@.name,
            },
    {
        if !self.is_instantiable(tags) {
            return Err(InstantiationError { rule: self.name.clone() });
        }
        let bindings = self.relevant_tags(tags);
        let mut rule = self.clone();
        rule.query = substitute(self.query.as_str(), &bindings);
        rule.replace = substitute(self.replace.as_str(), &bindings);
        rule.grep_heuristics = self.heuristics_under(tags);
        Ok(rule)
    }

    /// Fills the holes of the rule from `tags`, which binds them all.
    pub fn instantiate(&self, tags: &TagMap) -> (rule: Rule)
        requires
            covers(tags@, self@.holes),
        ensures
            rule@ == instantiated(self@, tags@),
    {
        let bindings = self.relevant_tags(tags);
        let mut rule = self.clone();
        rule.query = substitute(self.query.as_str(), &bindings);
        rule.replace = substitute(self.replace.as_str(), &bindings);
        rule.grep_heuristics = self.heuristics_under(tags);
        rule
    }

    /// Adds `label` to the groups of the rule.
    pub fn add_to_group(&mut self, label: &str)
        ensures
            final(self)@ == (RuleView { groups: old(self)@.groups.push(label@), ..old(self)@ }),
    {
        let ghost before = texts(self.groups@);
        self.groups.push(label.to_owned());
        assert(texts(self.groups@) =~= before.push(label@));
    }

    /// Labels the rule as one that cleans up the feature-flag API.
    pub fn add_to_feature_flag_api_group(&mut self)
        ensures
            final(self)@ == (RuleView {
                groups: old(self)@.groups.push(FEATURE_FLAG_API_GROUP@),
                ..old(self)@
            }),
    {
        self.add_to_group(FEATURE_FLAG_API_GROUP);
    }

    /// Whether the rule belongs to the group `label`.
    pub fn is_in_group(&self, label: &str) -> (b: bool)
        ensures
            b == self@.groups.contains(label@),
    {
        has_text(&self.groups, label)
    }

    /// Whether the rule cleans up the feature-flag API.
    pub fn is_feature_flag_cleanup(&self) -> (b: bool)
        ensures
            b == self@.groups.contains(FEATURE_FLAG_API_GROUP@),
    {
        self.is_in_group(FEATURE_FLAG_API_GROUP)
    }

    /// Sets the grep heuristics of the rule to the texts that `tags` binds
    /// to those holes that stand in the query.
    pub fn derive_grep_heuristics(&mut self, tags: &TagMap)
        ensures
            final(self)@ == (RuleView {
                grep_heuristics: heuristics(old(self)@.query, old(self)@.holes, tags@),
                ..old(self)@
            }),
    {
        self.grep_heuristics = self.heuristics_under(tags);
    }
}

/// A hole of a rule was not bound where the caller required it.
#[derive(Debug)]
pub struct InstantiationError {
    /// The name of the rule.
    pub rule: String,
}

/// Substitution closure. For a rule that `tags` covers and one of its holes:
/// where no text bound to a hole holds the hole sign, and what follows a
/// hole sign that stays and cuts the hole short does not begin with the
/// rest of the hole's name, the query of the instantiated rule nowhere
/// holds the hole.
pub proof fn lemma_substitution_closure(rule: RuleView, tags: Map<Seq<char>, Seq<char>>, hole: int)
    requires
        covers(tags, rule.holes),
        0 <= hole < rule.holes.len(),
        forall|i: int| 0 <= i < rule.holes.len() ==> no_sign(tags[#[trigger] rule.holes[i]]),
        unbroken(rule.query, relevant(tags, rule.holes), rule.holes[hole]),
    ensures
        !occurs_in(instantiated(rule, tags).query, hole_text(rule.holes[hole])),
{
    let bound = relevant(tags, rule.holes);
    lemma_substituted_closes(rule.query, bound, rule.holes[hole]);
}
} // verus!
