//! From what a query captured to the one match that a rule rewrites next.
use vstd::prelude::*;
use crate::edit::Range;
use crate::rule::Predicate;
use crate::syntax::{Capture, QueryMatch, SyntaxNode};
use crate::tag::TagMap;
use crate::text::{covers_text, join_texts, joined, same_text, text_in, text_of, texts};
use crate::utilities::{
    collected, first_index, groups_of, lemma_first_index_is, lemma_select_push, MapOfVec,
};

verus! {
/// The test for the node of the number `id`.
pub open spec fn with_id(id: usize) -> spec_fn(SyntaxNode) -> bool {
    |n: SyntaxNode| n.id == id
}

/// Where the node of the number `id` stands among `nodes`, if it does.
pub open spec fn node_index(nodes: Seq<SyntaxNode>, id: usize) -> Option<int> {
    first_index(nodes, with_id(id))
}

/// The index of the node directly above the node at `i`. Nodes are listed
/// below what is above them, so a parent that is listed earlier counts as none.
pub open spec fn parent_index(nodes: Seq<SyntaxNode>, i: int) -> Option<int> {
    if 0 <= i < nodes.len() {
        match nodes[i].parent {
            Some(id) => match node_index(nodes, id) {
                Some(j) => if i < j {
                    Some(j)
                } else {
                    None
                },
                None => None,
            },
            None => None,
        }
    } else {
        None
    }
}

/// The number of nodes above the node at `i`.
pub open spec fn depth(nodes: Seq<SyntaxNode>, i: int) -> nat
    decreases nodes.len() - i,
{
    match parent_index(nodes, i) {
        Some(j) => if i < j < nodes.len() {
            1 + depth(nodes, j)
        } else {
            0
        },
        None => 0,
    }
}

/// Finds the node of the number `id`.
pub fn find_node(nodes: &Vec<SyntaxNode>, id: usize) -> (r: Option<usize>)
    ensures
        match r {
            Some(i) => node_index(nodes@, id) == Some(i as int) && i < nodes@.len()
                && nodes@[i as int].id == id,
            None => node_index(nodes@, id) is None,
        },
{
    let ghost p = with_id(id);
    let mut i: usize = 0;
    while i < nodes.len()
        invariant
            i <= nodes@.len(),
            p == with_id(id),
            forall|j: int| 0 <= j < i ==> !p(#[trigger] nodes@[j]),
        decreases nodes.len() - i,
    {
        if nodes[i].id == id {
            proof {
                lemma_first_index_is(nodes@, p, i as int);
            }
            return Some(i);
        }
        i += 1;
    }
    proof {
        lemma_first_index_is(nodes@, p, i as int);
    }
    None
}

/// The index of the node directly above the node at `i`.
pub fn parent_of(nodes: &Vec<SyntaxNode>, i: usize) -> (r: Option<usize>)
    ensures
        match r {
            Some(j) => parent_index(nodes@, i as int) == Some(j as int) && i < j < nodes@.len(),
            None => parent_index(nodes@, i as int) is None,
        },
{
    if i >= nodes.len() {
        return None;
    }
    match nodes[i].parent {
        Some(id) => match find_node(nodes, id) {
            Some(j) => if i < j {
                Some(j)
            } else {
                None
            },
            None => None,
        },
        None => None,
    }
}

/// The number of nodes above the node at `i`.
pub fn depth_of(nodes: &Vec<SyntaxNode>, i: usize) -> (d: usize)
    ensures
        d == depth(nodes@, i as int),
{
    let mut d: usize = 0;
    let mut at: usize = i;
    if i >= nodes.len() {
        return 0;
    }
    loop
        invariant
            at < nodes@.len(),
            d + depth(nodes@, at as int) == depth(nodes@, i as int),
            d <= at,
        decreases nodes@.len() - at,
    {
        match parent_of(nodes, at) {
            Some(j) => {
                d += 1;
                at = j;
            },
            None => {
                return d;
            },
        }
    }
}

/// The nodes above the node at `i`, from the nearest to the root.
pub open spec fn ancestors(nodes: Seq<SyntaxNode>, i: int) -> Seq<int>
    decreases nodes.len() - i,
{
    match parent_index(nodes, i) {
        Some(j) => if i < j < nodes.len() {
            seq![j] + ancestors(nodes, j)
        } else {
            Seq::empty()
        },
        None => Seq::empty(),
    }
}

/// The nodes above the node at `i`, from the nearest to the root.
pub fn ancestors_of(nodes: &Vec<SyntaxNode>, i: usize) -> (list: Vec<usize>)
    ensures
        list@.map_values(|j: usize| j as int) == ancestors(nodes@, i as int),
        forall|k: int| 0 <= k < list@.len() ==> (#[trigger] list@[k]) < nodes@.len(),
        list@.len() == ancestors(nodes@, i as int).len(),
        forall|k: int|
            0 <= k < list@.len() ==> (#[trigger] list@[k]) as int == ancestors(nodes@, i as int)[k],
{
    let mut list: Vec<usize> = Vec::new();
    let ghost as_int = |j: usize| j as int;
    if i >= nodes.len() {
        return list;
    }
    let mut at: usize = i;
    loop
        invariant
            at < nodes@.len(),
            as_int == (|j: usize| j as int),
            list@.map_values(as_int) + ancestors(nodes@, at as int) == ancestors(nodes@, i as int),
            forall|k: int| 0 <= k < list@.len() ==> (#[trigger] list@[k]) < nodes@.len(),
        decreases nodes@.len() - at,
    {
        match parent_of(nodes, at) {
            Some(j) => {
                list.push(j);
                at = j;
            },
            None => {
                return list;
            },
        }
    }
}

/// The first node, in the order of the list, whose stretch encloses
/// `range`: in a list that names nodes below what is above them, the
/// smallest such node.
pub open spec fn enclosing_index(nodes: Seq<SyntaxNode>, range: Range) -> Option<int> {
    first_index(nodes, enclosing(range))
}

/// The test for a node whose stretch encloses `range`.
pub open spec fn enclosing(range: Range) -> spec_fn(SyntaxNode) -> bool {
    |n: SyntaxNode| n.range.encloses(range)
}

/// Finds the first node whose stretch encloses `range`.
pub fn find_enclosing(nodes: &Vec<SyntaxNode>, range: &Range) -> (r: Option<usize>)
    ensures
        match r {
            Some(i) => enclosing_index(nodes@, *range) == Some(i as int) && i < nodes@.len(),
            None => enclosing_index(nodes@, *range) is None,
        },
{
    let ghost p = enclosing(*range);
    let mut i: usize = 0;
    while i < nodes.len()
        invariant
            i <= nodes@.len(),
            p == enclosing(*range),
            forall|j: int| 0 <= j < i ==> !p(#[trigger] nodes@[j]),
        decreases nodes.len() - i,
    {
        if nodes[i].range.contains_range(range) {
            proof {
                lemma_first_index_is(nodes@, p, i as int);
            }
            return Some(i);
        }
        i += 1;
    }
    proof {
        lemma_first_index_is(nodes@, p, i as int);
    }
    None
}

/// A match as the choice among matches sees it: how deep its outermost node
/// lies, and where it starts.
#[derive(Clone, Copy, Debug, PartialEq, Eq, Structural)]
pub struct Candidate {
    pub depth: usize,
    pub start_byte: usize,
}

/// `a` goes before `b`: it lies deeper, or as deep and starts earlier.
pub open spec fn goes_before(a: Candidate, b: Candidate) -> bool {
    a.depth > b.depth || (a.depth == b.depth && a.start_byte < b.start_byte)
}

/// Whether `a` goes before `b`.
pub fn precedes(a: &Candidate, b: &Candidate) -> (r: bool)
    ensures
        r == goes_before(*a, *b),
{
    a.depth > b.depth || (a.depth == b.depth && a.start_byte < b.start_byte)
}

/// `k` is the candidate to take among those that `open` leaves: none of
/// them goes before it, and it is the first of which that holds.
pub open spec fn is_choice(candidates: Seq<Candidate>, open: Seq<bool>, k: int) -> bool {
    &&& 0 <= k < candidates.len()
    &&& open[k]
    &&& forall|j: int|
        0 <= j < candidates.len() && open[j] ==> !goes_before(#[trigger] candidates[j], candidates[k])
    &&& forall|j: int|
        0 <= j < k && open[j] ==> goes_before(candidates[k], #[trigger] candidates[j])
}

/// Picks the match to rewrite next among those still open: the deepest, and
/// among the deepest the one that starts first.
pub fn select_match(candidates: &Vec<Candidate>, open: &Vec<bool>) -> (r: Option<usize>)
    requires
        open@.len() == candidates@.len(),
    ensures
        match r {
            Some(k) => is_choice(candidates@, open@, k as int),
            None => forall|j: int| 0 <= j < open@.len() ==> !open@[j],
        },
{
    let mut best: Option<usize> = None;
    let mut i: usize = 0;
    while i < candidates.len()
        invariant
            i <= candidates@.len(),
            open@.len() == candidates@.len(),
            match best {
                Some(k) => {
                    &&& k < i
                    &&& open@[k as int]
                    &&& forall|j: int|
                        0 <= j < i && open@[j] ==> !goes_before(
                            #[trigger] candidates@[j],
                            candidates@[k as int],
                        )
                    &&& forall|j: int|
                        0 <= j < k && open@[j] ==> goes_before(
                            candidates@[k as int],
                            #[trigger] candidates@[j],
                        )
                },
                None => forall|j: int| 0 <= j < i ==> !open@[j],
            },
        decreases candidates.len() - i,
    {
        if open[i] {
            let better = match best {
                Some(k) => precedes(&candidates[i], &candidates[k]),
                None => true,
            };
            if better {
                best = Some(i);
            }
        }
        i += 1;
    }
    best
}

/// There is one candidate to take at most.
pub proof fn lemma_choice_unique(candidates: Seq<Candidate>, open: Seq<bool>, a: int, b: int)
    requires
        is_choice(candidates, open, a),
        is_choice(candidates, open, b),
    ensures
        a == b,
{
    if a < b {
        assert(goes_before(candidates[b], candidates[a]));
        assert(!goes_before(candidates[b], candidates[a]));
    } else if b < a {
        assert(goes_before(candidates[a], candidates[b]));
        assert(!goes_before(candidates[a], candidates[b]));
    }
}

/// Match ordering: of two open matches the deeper one is taken first.
pub proof fn lemma_deeper_first(candidates: Seq<Candidate>, open: Seq<bool>, k: int, j: int)
    requires
        is_choice(candidates, open, k),
        0 <= j < candidates.len(),
        open[j],
    ensures
        candidates[j].depth <= candidates[k].depth,
        candidates[j].depth == candidates[k].depth ==> candidates[k].start_byte
            <= candidates[j].start_byte,
{
}

/// The test for the key `key` of a group.
pub open spec fn is_id(key: usize) -> spec_fn(usize) -> bool {
    |k: usize| <Vec<(usize, Vec<usize>)> as MapOfVec<usize, usize>>::same_key(k, key)
}

/// The matches of a query grouped by the node that their first capture
/// names: for each such node, in the order in which the nodes first come,
/// the indices of its matches. A match without captures is in no group.
pub open spec fn grouped(raw: Seq<QueryMatch>) -> Seq<(usize, Seq<usize>)>
    decreases raw.len(),
{
    if raw.len() == 0 {
        Seq::empty()
    } else {
        let before = grouped(raw.drop_last());
        let last = raw.last();
        if last.captures@.len() > 0 {
            let key = last.captures@[0].node_id;
            collected(before, is_id(key), key, (raw.len() - 1) as usize)
        } else {
            before
        }
    }
}

/// Groups the matches of a query by the node that their first capture names.
pub fn group_by_node(raw: &Vec<QueryMatch>) -> (groups: Vec<(usize, Vec<usize>)>)
    ensures
        groups_of(groups@) == grouped(raw@),
{
    let mut groups: Vec<(usize, Vec<usize>)> = Vec::new();
    let mut i: usize = 0;
    while i < raw.len()
        invariant
            i <= raw@.len(),
            groups_of(groups@) == grouped(raw@.take(i as int)),
        decreases raw.len() - i,
    {
        proof {
            assert(raw@.take(i + 1).drop_last() =~= raw@.take(i as int));
        }
        if raw[i].captures.len() > 0 {
            let key = raw[i].captures[0].node_id;
            groups.collect(key, i);
        }
        i += 1;
    }
    assert(raw@.take(raw@.len() as int) =~= raw@);
    groups
}

/// The captures of the matches at `indices`, one match after the other.
pub open spec fn captures_of(raw: Seq<QueryMatch>, indices: Seq<usize>) -> Seq<Capture>
    decreases indices.len(),
{
    if indices.len() == 0 {
        Seq::empty()
    } else {
        let before = captures_of(raw, indices.drop_last());
        if indices.last() < raw.len() {
            before + raw[indices.last() as int].captures@
        } else {
            before
        }
    }
}

/// Gathers the captures of the matches at `indices`.
pub fn gather_captures(raw: &Vec<QueryMatch>, indices: &Vec<usize>) -> (captures: Vec<Capture>)
    ensures
        captures@ == captures_of(raw@, indices@),
{
    let mut captures: Vec<Capture> = Vec::new();
    let mut i: usize = 0;
    while i < indices.len()
        invariant
            i <= indices@.len(),
            captures@ == captures_of(raw@, indices@.take(i as int)),
        decreases indices.len() - i,
    {
        proof {
            assert(indices@.take(i + 1).drop_last() =~= indices@.take(i as int));
        }
        let at = indices[i];
        if at < raw.len() {
            let ghost before = captures@;
            let list = &raw[at].captures;
            let mut j: usize = 0;
            while j < list.len()
                invariant
                    j <= list@.len(),
                    captures@ == before + list@.take(j as int),
                decreases list.len() - j,
            {
                captures.push(list[j]);
                j += 1;
            }
        }
        i += 1;
    }
    assert(indices@.take(indices@.len() as int) =~= indices@);
    captures
}

/// One place at which every pattern of a query fits: the outermost node,
/// and all the captures.
#[derive(Debug)]
pub struct Hit {
    pub node_id: usize,
    pub range: Range,
    pub captures: Vec<Capture>,
}

/// A hit, as plain values.
pub struct HitView {
    pub node_id: usize,
    pub range: Range,
    pub captures: Seq<Capture>,
}

impl View for Hit {
    type V = HitView;

    open spec fn view(&self) -> HitView {
        HitView { node_id: self.node_id, range: self.range, captures: self.captures@ }
    }
}

/// The views of a list of hits.
pub open spec fn hit_views(hits: Seq<Hit>) -> Seq<HitView> {
    hits.map_values(|h: Hit| h@)
}

/// `range` is confined to `scope`: it lies within it or, where `recursive`
/// is not set, is the scope itself.
pub open spec fn confined(range: Range, scope: Range, recursive: bool) -> bool {
    if recursive {
        scope.encloses(range)
    } else {
        range == scope
    }
}

/// The hit that a group of matches makes.
pub open spec fn hit_of(raw: Seq<QueryMatch>, group: (usize, Seq<usize>)) -> HitView {
    let captures = captures_of(raw, group.1);
    HitView {
        node_id: group.0,
        range: if captures.len() > 0 {
            captures[0].range
        } else {
            Range { start_byte: 0, end_byte: 0 }
        },
        captures,
    }
}

/// The test for a group that makes a hit: every pattern of the query has
/// matched at its node, and the node is confined to the scope.
pub open spec fn makes_hit(
    raw: Seq<QueryMatch>,
    pattern_count: usize,
    scope: Range,
    recursive: bool,
) -> spec_fn((usize, Seq<usize>)) -> bool {
    |g: (usize, Seq<usize>)|
        g.1.len() == pattern_count && confined(hit_of(raw, g).range, scope, recursive)
}

/// The making of a hit, as a function of the group.
pub open spec fn to_hit(raw: Seq<QueryMatch>) -> spec_fn((usize, Seq<usize>)) -> HitView {
    |g: (usize, Seq<usize>)| hit_of(raw, g)
}

/// The hits among the matches of a query: the nodes, in the order in which
/// they first come, at which as many matches start as the query has
/// patterns and which are confined to `scope`.
pub open spec fn hits_of(
    raw: Seq<QueryMatch>,
    pattern_count: usize,
    scope: Range,
    recursive: bool,
) -> Seq<HitView> {
    grouped(raw).filter(makes_hit(raw, pattern_count, scope, recursive)).map_values(to_hit(raw))
}

/// Turns the matches of a query into hits.
pub fn collect_hits(raw: &Vec<QueryMatch>, pattern_count: usize, scope: &Range, recursive: bool) -> (hits:
    Vec<Hit>)
    ensures
        hit_views(hits@) == hits_of(raw@, pattern_count, *scope, recursive),
{
    let groups = group_by_node(raw);
    let ghost all = grouped(raw@);
    let ghost p = makes_hit(raw@, pattern_count, *scope, recursive);
    let ghost f = to_hit(raw@);
    let mut hits: Vec<Hit> = Vec::new();
    let mut i: usize = 0;
    while i < groups.len()
        invariant
            i <= groups@.len(),
            all == grouped(raw@),
            all == groups_of(groups@),
            p == makes_hit(raw@, pattern_count, *scope, recursive),
            f == to_hit(raw@),
            hit_views(hits@) == all.take(i as int).filter(p).map_values(f),
        decreases groups.len() - i,
    {
        let ghost group = all[i as int];
        proof {
            assert(all.take(i + 1) =~= all.take(i as int).push(group));
            lemma_select_push(all.take(i as int), group, p, f);
        }
        if groups[i].1.len() == pattern_count {
            let captures = gather_captures(raw, &groups[i].1);
            let range = if captures.len() > 0 {
                captures[0].range
            } else {
                Range { start_byte: 0, end_byte: 0 }
            };
            let fits = if recursive {
                scope.contains_range(&range)
            } else {
                range.start_byte == scope.start_byte && range.end_byte == scope.end_byte
            };
            if fits {
                let hit = Hit { node_id: groups[i].0, range, captures };
                hits.push(hit);
            }
        }
        i += 1;
    }
    assert(all.take(all.len() as int) =~= all);
    hits
}

/// The test for a capture of the index `index` that covers text of `code`.
pub open spec fn captured(index: usize, code: Seq<u8>) -> spec_fn(Capture) -> bool {
    |c: Capture| c.index == index && covers_text(code, c.range)
}

/// The text that a capture covers in `code`, as a function of the capture.
pub open spec fn reading(code: Seq<u8>) -> spec_fn(Capture) -> Seq<char> {
    |c: Capture| text_in(code, c.range)
}

/// The texts that the captures of the index `index` cover, in order.
pub open spec fn captured_texts(captures: Seq<Capture>, index: usize, code: Seq<u8>) -> Seq<
    Seq<char>,
> {
    captures.filter(captured(index, code)).map_values(reading(code))
}

/// The texts that the captures of the index `index` cover, in order.
pub fn texts_of_capture(captures: &Vec<Capture>, index: usize, code: &[u8]) -> (list: Vec<String>)
    ensures
        texts(list@) == captured_texts(captures@, index, code@),
{
    let ghost p = captured(index, code@);
    let ghost f = reading(code@);
    let mut list: Vec<String> = Vec::new();
    let mut i: usize = 0;
    while i < captures.len()
        invariant
            i <= captures@.len(),
            p == captured(index, code@),
            f == reading(code@),
            texts(list@) == captures@.take(i as int).filter(p).map_values(f),
        decreases captures.len() - i,
    {
        proof {
            assert(captures@.take(i + 1) =~= captures@.take(i as int).push(captures@[i as int]));
            lemma_select_push(captures@.take(i as int), captures@[i as int], p, f);
        }
        if captures[i].index == index {
            match text_of(code, &captures[i].range) {
                Some(text) => {
                    list.push(text);
                },
                None => {},
            }
        }
        i += 1;
    }
    assert(captures@.take(captures@.len() as int) =~= captures@);
    list
}

/// The line feed that parts the texts of one capture name.
pub const CAPTURE_SEPARATOR: &'static str = "\n";

/// The tags of a hit: each capture name of the query bound to the texts
/// that its captures cover, one per line; a name that captured nothing is
/// bound to the empty text.
pub open spec fn tags_of(captures: Seq<Capture>, names: Seq<Seq<char>>, code: Seq<u8>) -> Map<
    Seq<char>,
    Seq<char>,
>
    decreases names.len(),
{
    if names.len() == 0 {
        Map::empty()
    } else {
        tags_of(captures, names.drop_last(), code).insert(
            names.last(),
            joined(
                captured_texts(captures, (names.len() - 1) as usize, code),
                CAPTURE_SEPARATOR@,
            ),
        )
    }
}

/// The tags of a hit.
pub fn hit_tags(captures: &Vec<Capture>, names: &Vec<String>, code: &[u8]) -> (tags: TagMap)
    ensures
        tags@ == tags_of(captures@, texts(names@), code@),
{
    let ghost all = texts(names@);
    let mut tags = TagMap::new();
    let mut i: usize = 0;
    while i < names.len()
        invariant
            i <= names@.len(),
            all == texts(names@),
            tags@ == tags_of(captures@, all.take(i as int), code@),
        decreases names.len() - i,
    {
        proof {
            assert(all.take(i + 1).drop_last() =~= all.take(i as int));
        }
        let parts = texts_of_capture(captures, i, code);
        let text = join_texts(&parts, CAPTURE_SEPARATOR);
        tags.insert(names[i].clone(), text);
        i += 1;
    }
    assert(all.take(all.len() as int) =~= all);
    tags
}

/// The test for the text `name`.
pub open spec fn reads(name: Seq<char>) -> spec_fn(Seq<char>) -> bool {
    |t: Seq<char>| t == name
}

/// The test for a capture of the index `index`.
pub open spec fn of_index(index: usize) -> spec_fn(Capture) -> bool {
    |c: Capture| c.index == index
}

/// The stretch of the first capture that goes by `name`, if there is one.
pub open spec fn range_named(captures: Seq<Capture>, names: Seq<Seq<char>>, name: Seq<char>) -> Option<
    Range,
> {
    match first_index(names, reads(name)) {
        Some(n) => match first_index(captures, of_index(n as usize)) {
            Some(k) => Some(captures[k].range),
            None => None,
        },
        None => None,
    }
}

/// The stretch of the first capture that goes by `name`, if there is one.
pub fn capture_range(captures: &Vec<Capture>, names: &Vec<String>, name: &str) -> (r: Option<Range>)
    ensures
        r == range_named(captures@, texts(names@), name@),
{
    let ghost all = texts(names@);
    let ghost p = reads(name@);
    let mut n: usize = 0;
    while n < names.len()
        invariant
            n <= names@.len(),
            all == texts(names@),
            p == reads(name@),
            forall|j: int| 0 <= j < n ==> !p(#[trigger] all[j]),
        decreases names.len() - n,
    {
        if same_text(names[n].as_str(), name) {
            proof {
                lemma_first_index_is(all, p, n as int);
            }
            let ghost q = of_index(n);
            let mut k: usize = 0;
            while k < captures.len()
                invariant
                    k <= captures@.len(),
                    q == of_index(n),
                    first_index(texts(names@), reads(name@)) == Some(n as int),
                    forall|j: int| 0 <= j < k ==> !q(#[trigger] captures@[j]),
                decreases captures.len() - k,
            {
                if captures[k].index == n {
                    proof {
                        lemma_first_index_is(captures@, q, k as int);
                    }
                    return Some(captures[k].range);
                }
                k += 1;
            }
            proof {
                lemma_first_index_is(captures@, q, k as int);
            }
            return None;
        }
        n += 1;
    }
    proof {
        lemma_first_index_is(all, p, n as int);
    }
    None
}

/// Whether a constraint passes, given for each of its queries whether it
/// matched: all of them, at least one of them, or none of them.
pub open spec fn holds(predicate: Predicate, found: Seq<bool>) -> bool {
    match predicate {
        Predicate::AllOf => forall|i: int| 0 <= i < found.len() ==> found[i],
        Predicate::AnyOf => exists|i: int| 0 <= i < found.len() && found[i],
        Predicate::NoneOf => forall|i: int| 0 <= i < found.len() ==> !found[i],
    }
}

/// Decides a constraint from what its queries found.
pub fn predicate_holds(predicate: Predicate, found: &Vec<bool>) -> (b: bool)
    ensures
        b == holds(predicate, found@),
{
    let mut all = true;
    let mut any = false;
    let mut i: usize = 0;
    while i < found.len()
        invariant
            i <= found@.len(),
            all == (forall|j: int| 0 <= j < i ==> found@[j]),
            any == (exists|j: int| 0 <= j < i && found@[j]),
        decreases found.len() - i,
    {
        if found[i] {
            any = true;
        } else {
            all = false;
        }
        i += 1;
    }
    match predicate {
        Predicate::AllOf => all,
        Predicate::AnyOf => any,
        Predicate::NoneOf => !any,
    }
}

/// The index of the last entry of `found` that holds something: of the
/// nodes above a change, listed from the nearest to the root, the outermost
/// one that a matcher fits.
pub open spec fn outermost(found: Seq<Option<usize>>) -> Option<int>
    decreases found.len(),
{
    if found.len() == 0 {
        None
    } else if found.last() is Some {
        Some(found.len() - 1)
    } else {
        outermost(found.drop_last())
    }
}

/// Picks the outermost of the nodes that a matcher fits.
pub fn pick_outermost(found: &Vec<Option<usize>>) -> (r: Option<usize>)
    ensures
        match r {
            Some(a) => outermost(found@) == Some(a as int) && a < found@.len()
                && found@[a as int] is Some,
            None => outermost(found@) is None,
        },
{
    let mut i: usize = found.len();
    assert(found@.take(i as int) =~= found@);
    while i > 0
        invariant
            i <= found@.len(),
            outermost(found@) == outermost(found@.take(i as int)),
        decreases i,
    {
        if found[i - 1].is_some() {
            return Some(i - 1);
        }
        assert(found@.take(i as int).drop_last() =~= found@.take(i - 1));
        i -= 1;
    }
    None
}
} // verus!
