//! The arguments that a run is started with.
use vstd::prelude::*;
use crate::rule::Rule;
use crate::rule_store::rule_views;
use crate::rule::{RuleView, FEATURE_FLAG_API_GROUP};
use crate::scopes::{OutgoingEdges, ScopeGenerator};
use crate::rule_store::edge_views;
use crate::tag::TagMap;

verus! {
/// The three paths that a run is given on the command line.
#[derive(Clone, Debug)]
pub struct CommandLineArguments {
    /// Path to the source code folder.
    pub path_to_codebase: String,
    /// Folder that holds the rules and edges of the flag API.
    pub path_to_feature_flag_rules: String,
    /// Path to the file that holds the flag's name, namespace and value.
    pub path_to_piranha_arguments: String,
}

/// The text of a boolean value.
pub open spec fn bool_text(value: bool) -> Seq<char> {
    if value {
        "true"@
    } else {
        "false"@
    }
}

/// The tags that a run starts with: the name of the stale flag, the text of
/// its value and of the opposite value, and its namespace.
pub open spec fn seed_substitutions(
    flag_name: Seq<char>,
    flag_namespace: Seq<char>,
    flag_value: bool,
) -> Map<Seq<char>, Seq<char>> {
    Map::<Seq<char>, Seq<char>>::empty().insert("stale_flag_name"@, flag_name).insert(
        "treated"@,
        bool_text(flag_value),
    ).insert("treated_complement"@, bool_text(!flag_value)).insert("namespace"@, flag_namespace)
}

/// What a run is about: the code base, the configuration, the language, and
/// the tags it starts with.
#[derive(Debug)]
pub struct PiranhaArguments {
    /// Path to the source code folder.
    pub path_to_code_base: String,
    /// The tags that every file starts with.
    pub input_substitutions: TagMap,
    /// Folder that holds the rules and edges of the flag API.
    pub path_to_configurations: String,
    /// The name of the language, which is the extension of its files too.
    pub language_name: String,
}

impl PiranhaArguments {
    /// The arguments of a run that cleans up the flag `flag_name`. The tags
    /// of `extra` come on top of the four that stand for the flag.
    pub fn new(
        path_to_code_base: &str,
        path_to_configurations: &str,
        language_name: &str,
        flag_name: &str,
        flag_namespace: &str,
        flag_value: bool,
        extra: &TagMap,
    ) -> (args: PiranhaArguments)
        ensures
            args.path_to_code_base@ == path_to_code_base@,
            args.path_to_configurations@ == path_to_configurations@,
            args.language_name@ == language_name@,
            args.input_substitutions@ == seed_substitutions(
                flag_name@,
                flag_namespace@,
                flag_value,
            ).union_prefer_right(extra@),
    {
        let mut tags = TagMap::new();
        let (treated, complement) = if flag_value {
            ("true", "false")
        } else {
            ("false", "true")
        };
        tags.insert("stale_flag_name".to_owned(), flag_name.to_owned());
        tags.insert("treated".to_owned(), treated.to_owned());
        tags.insert("treated_complement".to_owned(), complement.to_owned());
        tags.insert("namespace".to_owned(), flag_namespace.to_owned());
        tags.extend(extra);
        PiranhaArguments {
            path_to_code_base: path_to_code_base.to_owned(),
            input_substitutions: tags,
            path_to_configurations: path_to_configurations.to_owned(),
            language_name: language_name.to_owned(),
        }
    }
}

/// `rule` labelled as one that cleans up the feature-flag API.
pub open spec fn labelled(rule: RuleView) -> RuleView {
    RuleView { groups: rule.groups.push(FEATURE_FLAG_API_GROUP@), ..rule }
}

/// The labelling, as a function of the rule.
pub open spec fn labelling() -> spec_fn(RuleView) -> RuleView {
    |rule: RuleView| labelled(rule)
}

/// Puts the configuration of a run together: the cleanup rules of the
/// language come first, then the rules of the flag API, each labelled as a
/// rule of the feature-flag group; the edges of the language come before
/// those of the API; the scopes are those of the language.
pub fn read_config_files(
    language_rules: Vec<Rule>,
    language_edges: Vec<OutgoingEdges>,
    scopes: Vec<ScopeGenerator>,
    input_rules: Vec<Rule>,
    input_edges: Vec<OutgoingEdges>,
) -> (r: (Vec<Rule>, Vec<OutgoingEdges>, Vec<ScopeGenerator>))
    ensures
        rule_views(r.0@) == rule_views(language_rules@) + rule_views(input_rules@).map_values(
            labelling(),
        ),
        edge_views(r.1@) == edge_views(language_edges@) + edge_views(input_edges@),
        r.2 == scopes,
{
    let mut all_rules = language_rules;
    let mut all_edges = language_edges;
    let ghost first_rules = rule_views(all_rules@);
    let ghost first_edges = edge_views(all_edges@);
    let ghost given = rule_views(input_rules@);
    let mut i: usize = 0;
    while i < input_rules.len()
        invariant
            i <= input_rules@.len(),
            given == rule_views(input_rules@),
            rule_views(all_rules@) == first_rules + given.take(i as int).map_values(labelling()),
        decreases input_rules.len() - i,
    {
        let ghost before = rule_views(all_rules@);
        let mut rule = input_rules[i].clone();
        rule.add_to_feature_flag_api_group();
        all_rules.push(rule);
        assert(rule_views(all_rules@) =~= before.push(labelled(given[i as int])));
        i += 1;
    }
    let mut j: usize = 0;
    while j < input_edges.len()
        invariant
            j <= input_edges@.len(),
            edge_views(all_edges@) == first_edges + edge_views(input_edges@).take(j as int),
        decreases input_edges.len() - j,
    {
        let ghost before = edge_views(all_edges@);
        let edge = input_edges[j].clone();
        all_edges.push(edge);
        assert(edge_views(all_edges@) =~= before.push(edge@));
        j += 1;
    }
    (all_rules, all_edges, scopes)
}
} // verus!
