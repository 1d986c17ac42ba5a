//! Edges between rules, and the lexical scopes they speak of.
use vstd::prelude::*;
use crate::rule::clone_strings;
use crate::text::texts;
use crate::text::same_text;
use crate::utilities::{first_index, lemma_first_index_is};

verus! {
/// The lexical scope at which an edge fires its targets.
#[derive(Debug)]
pub enum Scope {
    /// The node directly above the change.
    Parent,
    /// The method around the change.
    Method,
    /// The class around the change.
    Class,
    /// Every file of the project.
    Global,
    /// A scope that the scope configuration defines under this name.
    Named(String),
}

/// A scope, as plain values.
pub enum ScopeView {
    Parent,
    Method,
    Class,
    Global,
    Named(Seq<char>),
}

impl View for Scope {
    type V = ScopeView;

    open spec fn view(&self) -> ScopeView {
        match self {
            Scope::Parent => ScopeView::Parent,
            Scope::Method => ScopeView::Method,
            Scope::Class => ScopeView::Class,
            Scope::Global => ScopeView::Global,
            Scope::Named(name) => ScopeView::Named(name@),
        }
    }
}

impl Clone for Scope {
    fn clone(&self) -> (copy: Self)
        ensures
            copy@ == self@,
    {
        match self {
            Scope::Parent => Scope::Parent,
            Scope::Method => Scope::Method,
            Scope::Class => Scope::Class,
            Scope::Global => Scope::Global,
            Scope::Named(name) => Scope::Named(name.clone()),
        }
    }
}

/// The name under which the scope configuration knows a scope, where it is
/// one that the configuration resolves.
pub open spec fn scope_name(scope: ScopeView) -> Option<Seq<char>> {
    match scope {
        ScopeView::Method => Some("Method"@),
        ScopeView::Class => Some("Class"@),
        ScopeView::Named(name) => Some(name),
        _ => None,
    }
}

impl Scope {
    /// Reads a scope from its name: the four built-in names, or a name of
    /// the scope configuration.
    pub fn from_name(name: &str) -> (scope: Scope)
        ensures
            scope@ == (if name@ == "Parent"@ {
                ScopeView::Parent
            } else if name@ == "Method"@ {
                ScopeView::Method
            } else if name@ == "Class"@ {
                ScopeView::Class
            } else if name@ == "Global"@ {
                ScopeView::Global
            } else {
                ScopeView::Named(name@)
            }),
    {
        if same_text(name, "Parent") {
            Scope::Parent
        } else if same_text(name, "Method") {
            Scope::Method
        } else if same_text(name, "Class") {
            Scope::Class
        } else if same_text(name, "Global") {
            Scope::Global
        } else {
            Scope::Named(name.to_owned())
        }
    }

    /// The name under which the scope configuration knows the scope.
    pub fn config_name(&self) -> (name: Option<String>)
        ensures
            match name {
                Some(text) => scope_name(self@) == Some(text@),
                None => scope_name(self@) is None,
            },
    {
        match self {
            Scope::Method => Some("Method".to_owned()),
            Scope::Class => Some("Class".to_owned()),
            Scope::Named(name) => Some(name.clone()),
            _ => None,
        }
    }
}

/// A directed edge of the rule graph: after the rule or group `from` has
/// fired, the rules and groups of `to` come next, at `scope`.
#[derive(Debug)]
pub struct OutgoingEdges {
    pub from: String,
    pub to: Vec<String>,
    pub scope: Scope,
}

/// An edge, as plain values.
pub struct EdgeView {
    pub from: Seq<char>,
    pub to: Seq<Seq<char>>,
    pub scope: ScopeView,
}

impl View for OutgoingEdges {
    type V = EdgeView;

    open spec fn view(&self) -> EdgeView {
        EdgeView { from: self.from@, to: texts(self.to@), scope: self.scope@ }
    }
}

impl Clone for OutgoingEdges {
    fn clone(&self) -> (copy: Self)
        ensures
            copy@ == self@,
    {
        OutgoingEdges {
            from: self.from.clone(),
            to: clone_strings(&self.to),
            scope: self.scope.clone(),
        }
    }
}

/// One way to find a scope: `matcher` fits the enclosing node, and
/// `generator`, with the captures of the matcher filled in, fits that node
/// and no other.
#[derive(Debug)]
pub struct ScopeQueryGenerator {
    pub matcher: String,
    pub generator: String,
}

impl Clone for ScopeQueryGenerator {
    fn clone(&self) -> (copy: Self)
        ensures
            copy.matcher@ == self.matcher@,
            copy.generator@ == self.generator@,
    {
        ScopeQueryGenerator { matcher: self.matcher.clone(), generator: self.generator.clone() }
    }
}

/// A named scope with the ways to find it, in the order in which they are tried.
#[derive(Debug)]
pub struct ScopeGenerator {
    pub name: String,
    pub rules: Vec<ScopeQueryGenerator>,
}

/// The test for the scope of the name.
pub open spec fn goes_by(name: Seq<char>) -> spec_fn(ScopeGenerator) -> bool {
    |scope: ScopeGenerator| scope.name@ == name
}

/// The index of the first scope of `scopes` that goes by `name`, if any.
pub open spec fn scope_index(scopes: Seq<ScopeGenerator>, name: Seq<char>) -> Option<int> {
    first_index(scopes, goes_by(name))
}

/// Finds the scope that goes by `name`: the first of that name.
pub fn find_scope(scopes: &Vec<ScopeGenerator>, name: &str) -> (r: Option<usize>)
    ensures
        match r {
            Some(i) => scope_index(scopes@, name@) == Some(i as int) && i < scopes@.len(),
            None => scope_index(scopes@, name@) is None,
        },
{
    let ghost p = goes_by(name@);
    let mut i: usize = 0;
    while i < scopes.len()
        invariant
            i <= scopes@.len(),
            p == goes_by(name@),
            forall|j: int| 0 <= j < i ==> !p(#[trigger] scopes@[j]),
        decreases scopes.len() - i,
    {
        if same_text(scopes[i].name.as_str(), name) {
            proof {
                lemma_first_index_is(scopes@, p, i as int);
            }
            return Some(i);
        }
        i += 1;
    }
    proof {
        lemma_first_index_is(scopes@, p, i as int);
    }
    None
}
} // verus!
