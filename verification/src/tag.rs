//! Tag maps: the text bound to each tag name.
use vstd::prelude::*;
use crate::text::{from_chars, matches_at, occurs_at, occurs_in, same_text, to_chars};

verus! {
/// The index of the first of `entries` whose key reads `key`, or the number
/// of entries where none does.
pub open spec fn position_of(entries: Seq<(String, String)>, key: Seq<char>) -> int
    decreases entries.len(),
{
    if entries.len() == 0 {
        0
    } else if entries[0].0@ == key {
        0
    } else {
        position_of(entries.drop_first(), key) + 1
    }
}

/// The map that a list of pairs stands for: the first pair with a key binds it.
pub open spec fn map_of(entries: Seq<(String, String)>) -> Map<Seq<char>, Seq<char>> {
    Map::new(
        |key: Seq<char>| position_of(entries, key) < entries.len(),
        |key: Seq<char>| entries[position_of(entries, key)].1@,
    )
}

/// `position_of` is within bounds, points at the key where it is below the
/// length, and no earlier entry has the key.
pub proof fn lemma_position_of(entries: Seq<(String, String)>, key: Seq<char>)
    ensures
        0 <= position_of(entries, key) <= entries.len(),
        position_of(entries, key) < entries.len() ==> entries[position_of(entries, key)].0@
            == key,
        forall|j: int| 0 <= j < position_of(entries, key) ==> (#[trigger] entries[j]).0@ != key,
    decreases entries.len(),
{
    if entries.len() > 0 && entries[0].0@ != key {
        let rest = entries.drop_first();
        lemma_position_of(rest, key);
        assert forall|j: int| 0 <= j < position_of(entries, key) implies (#[trigger] entries[j]).0@
            != key by {
            if j > 0 {
                assert(rest[j - 1] == entries[j]);
            }
        }
    }
}

/// The first index at which the key stands, or the length where it stands
/// nowhere, is what `position_of` gives.
pub proof fn lemma_position_is(entries: Seq<(String, String)>, key: Seq<char>, i: int)
    requires
        0 <= i <= entries.len(),
        forall|j: int| 0 <= j < i ==> (#[trigger] entries[j]).0@ != key,
        i < entries.len() ==> entries[i].0@ == key,
    ensures
        position_of(entries, key) == i,
{
    lemma_position_of(entries, key);
}

/// A mapping from tag name to the text bound to it. Names are unique.
#[derive(Debug)]
pub struct TagMap {
    entries: Vec<(String, String)>,
}

impl View for TagMap {
    type V = Map<Seq<char>, Seq<char>>;

    closed spec fn view(&self) -> Map<Seq<char>, Seq<char>> {
        map_of(self.entries@)
    }
}

impl TagMap {
    /// The names in the order in which they were first bound.
    pub closed spec fn names(&self) -> Seq<Seq<char>> {
        self.entries@.map_values(|e: (String, String)| e.0@)
    }

    /// The names listed are the names bound.
    pub proof fn lemma_names_cover(&self)
        ensures
            forall|name: Seq<char>| self@.contains_key(name) <==> self.names().contains(name),
    {
        let names = self.names();
        assert forall|name: Seq<char>| self@.contains_key(name) <==> names.contains(name) by {
            lemma_position_of(self.entries@, name);
            if names.contains(name) {
                let i = choose|i: int| 0 <= i < names.len() && names[i] == name;
            }
            if self@.contains_key(name) {
                assert(names[position_of(self.entries@, name)] == name);
            }
        }
    }

    /// The empty map.
    pub fn new() -> (tags: TagMap)
        ensures
            tags@ == Map::<Seq<char>, Seq<char>>::empty(),
            tags.names() == Seq::<Seq<char>>::empty(),
    {
        let tags = TagMap { entries: Vec::new() };
        tags
    }

    /// The number of names bound.
    pub fn len(&self) -> (n: usize)
        ensures
            n == self.names().len(),
    {
        self.entries.len()
    }

    /// The `i`-th name, in the order in which the names were first bound.
    pub fn name_at(&self, i: usize) -> (name: &String)
        requires
            i < self.names().len(),
        ensures
            name@ == self.names()[i as int],
            self@.contains_key(name@),
    {
        proof {
            lemma_position_of(self.entries@, self.entries@[i as int].0@);
        }
        &self.entries[i].0
    }

    /// Where `name` stands among the entries, if it is bound.
    fn find(&self, name: &str) -> (r: Option<usize>)
        ensures
            match r {
                Some(i) => i == position_of(self.entries@, name@) && i < self.entries@.len(),
                None => position_of(self.entries@, name@) == self.entries@.len(),
            },
    {
        let mut i: usize = 0;
        while i < self.entries.len()
            invariant
                i <= self.entries@.len(),
                forall|j: int| 0 <= j < i ==> (#[trigger] self.entries@[j]).0@ != name@,
            decreases self.entries.len() - i,
        {
            if same_text(self.entries[i].0.as_str(), name) {
                proof {
                    lemma_position_is(self.entries@, name@, i as int);
                }
                return Some(i);
            }
            i += 1;
        }
        proof {
            lemma_position_is(self.entries@, name@, i as int);
        }
        None
    }

    /// Whether `name` is bound.
    pub fn contains_key(&self, name: &str) -> (b: bool)
        ensures
            b == self@.contains_key(name@),
    {
        self.find(name).is_some()
    }

    /// The text bound to `name`, if any.
    pub fn get(&self, name: &str) -> (r: Option<&String>)
        ensures
            match r {
                Some(text) => self@.contains_key(name@) && text@ == self@[name@],
                None => !self@.contains_key(name@),
            },
    {
        match self.find(name) {
            Some(i) => Some(&self.entries[i].1),
            None => None,
        }
    }

    /// Binds `name` to `text`, in place of what it was bound to before.
    pub fn insert(&mut self, name: String, text: String)
        ensures
            final(self)@ == old(self)@.insert(name@, text@),
            old(self)@.contains_key(name@) ==> final(self).names() == old(self).names(),
            !old(self)@.contains_key(name@) ==> final(self).names() == old(self).names().push(
                name@,
            ),
    {
        let ghost before = self.entries@;
        match self.find(name.as_str()) {
            Some(i) => {
                self.entries[i].1 = text;
                let ghost after = self.entries@;
                proof {
                    let target = map_of(before).insert(name@, text@);
                    assert forall|k: Seq<char>|
                        (#[trigger] map_of(after).dom().contains(k)) == target.dom().contains(k)
                            && (map_of(after).dom().contains(k) ==> map_of(after)[k]
                            == target[k]) by {
                        lemma_position_of(before, k);
                        lemma_position_of(before, name@);
                        lemma_position_is(after, k, position_of(before, k));
                    }
                }
            },
            None => {
                self.entries.push((name, text));
                let ghost after = self.entries@;
                proof {
                    let target = map_of(before).insert(name@, text@);
                    assert forall|k: Seq<char>|
                        (#[trigger] map_of(after).dom().contains(k)) == target.dom().contains(k)
                            && (map_of(after).dom().contains(k) ==> map_of(after)[k]
                            == target[k]) by {
                        lemma_position_of(before, k);
                        let p = position_of(before, k);
                        if p < before.len() || k == name@ {
                            lemma_position_is(after, k, p);
                        } else {
                            lemma_position_is(after, k, after.len() as int);
                        }
                    }
                }
            },
        }
    }
}

/// The map of a list is the map of its tail with the head bound on top.
pub proof fn lemma_map_of_skip(entries: Seq<(String, String)>, i: int)
    requires
        0 <= i < entries.len(),
    ensures
        map_of(entries.skip(i)) == map_of(entries.skip(i + 1)).insert(
            entries[i].0@,
            entries[i].1@,
        ),
{
    let whole = entries.skip(i);
    let tail = entries.skip(i + 1);
    let target = map_of(tail).insert(entries[i].0@, entries[i].1@);
    assert(whole.drop_first() =~= tail);
    assert forall|k: Seq<char>|
        (#[trigger] map_of(whole).dom().contains(k)) == target.dom().contains(k) && (map_of(
            whole,
        ).dom().contains(k) ==> map_of(whole)[k] == target[k]) by {
        lemma_position_of(tail, k);
    }
}

impl Clone for TagMap {
    fn clone(&self) -> (copy: Self)
        ensures
            copy@ == self@,
            copy.names() == self.names(),
    {
        let mut entries: Vec<(String, String)> = Vec::new();
        let mut i: usize = 0;
        while i < self.entries.len()
            invariant
                i <= self.entries@.len(),
                entries@ == self.entries@.take(i as int),
            decreases self.entries.len() - i,
        {
            entries.push((self.entries[i].0.clone(), self.entries[i].1.clone()));
            i += 1;
        }
        assert(entries@ =~= self.entries@);
        TagMap { entries }
    }
}

impl TagMap {
    /// Binds every name of `other` to its text there, on top of what is bound.
    pub fn extend(&mut self, other: &TagMap)
        ensures
            final(self)@ == old(self)@.union_prefer_right(other@),
    {
        let mut i: usize = other.entries.len();
        while i > 0
            invariant
                i <= other.entries@.len(),
                self@ == old(self)@.union_prefer_right(map_of(other.entries@.skip(i as int))),
            decreases i,
        {
            i -= 1;
            proof {
                lemma_map_of_skip(other.entries@, i as int);
            }
            self.insert(other.entries[i].0.clone(), other.entries[i].1.clone());
        }
        assert(other.entries@.skip(0) =~= other.entries@);
    }
}

/// The sign that opens a hole in a template.
pub const HOLE_SIGN: char = '@';

/// `name` is bound in `tags` and `template` begins with its hole: the hole
/// sign and then the name.
pub open spec fn hole_at(template: Seq<char>, tags: Map<Seq<char>, Seq<char>>, name: Seq<char>) -> bool {
    &&& tags.contains_key(name)
    &&& 1 + name.len() as int <= template.len()
    &&& template[0] == HOLE_SIGN
    &&& template.subrange(1, 1 + name.len() as int) == name
}

/// `name` is the longest bound name whose hole `template` begins with.
pub open spec fn longest_hole_at(
    template: Seq<char>,
    tags: Map<Seq<char>, Seq<char>>,
    name: Seq<char>,
) -> bool {
    &&& hole_at(template, tags, name)
    &&& forall|other: Seq<char>| #[trigger] hole_at(template, tags, other) ==> other.len() <= name.len()
}

/// The longest bound name whose hole `template` begins with, if there is one.
pub open spec fn leading_hole(template: Seq<char>, tags: Map<Seq<char>, Seq<char>>) -> Option<
    Seq<char>,
> {
    if exists|name: Seq<char>| longest_hole_at(template, tags, name) {
        Some(choose|name: Seq<char>| longest_hole_at(template, tags, name))
    } else {
        None
    }
}

/// `template` with every hole of a bound name replaced by the text bound to
/// the name. The template is read once from the left; where the holes of
/// several names begin at one place, the longest name is taken; a hole sign
/// that opens no hole of a bound name stays as it is.
pub open spec fn substituted(template: Seq<char>, tags: Map<Seq<char>, Seq<char>>) -> Seq<char>
    decreases template.len(),
{
    if template.len() == 0 {
        template
    } else {
        match leading_hole(template, tags) {
            Some(name) => if 1 + name.len() as int <= template.len() {
                tags[name] + substituted(template.skip(1 + name.len() as int), tags)
            } else {
                template
            },
            None => seq![template[0]] + substituted(template.skip(1), tags),
        }
    }
}

/// The longest name, once found, is the leading hole.
pub proof fn lemma_leading_hole_is(
    template: Seq<char>,
    tags: Map<Seq<char>, Seq<char>>,
    name: Seq<char>,
)
    requires
        longest_hole_at(template, tags, name),
    ensures
        leading_hole(template, tags) == Some(name),
{
}

/// The characters of each string of a list.
fn chars_of_all(list: &Vec<String>) -> (all: Vec<Vec<char>>)
    ensures
        all@.len() == list@.len(),
        forall|i: int| 0 <= i < list@.len() ==> (#[trigger] all@[i])@ == list@[i]@,
{
    let mut all: Vec<Vec<char>> = Vec::new();
    let mut i: usize = 0;
    while i < list.len()
        invariant
            i <= list@.len(),
            all@.len() == i,
            forall|j: int| 0 <= j < i ==> (#[trigger] all@[j])@ == list@[j]@,
        decreases list.len() - i,
    {
        all.push(to_chars(list[i].as_str()));
        i += 1;
    }
    all
}

impl TagMap {
    /// The names bound, in the order in which they were first bound.
    pub fn keys(&self) -> (names: Vec<String>)
        ensures
            names@.len() == self.names().len(),
            forall|i: int| 0 <= i < names@.len() ==> (#[trigger] names@[i])@ == self.names()[i],
    {
        let mut names: Vec<String> = Vec::new();
        let mut i: usize = 0;
        while i < self.entries.len()
            invariant
                i <= self.entries@.len(),
                names@.len() == i,
                forall|j: int| 0 <= j < i ==> (#[trigger] names@[j])@ == self.names()[j],
            decreases self.entries.len() - i,
        {
            names.push(self.entries[i].0.clone());
            i += 1;
        }
        names
    }
}

/// The index of the longest of `names` that stands in `template` right
/// behind the hole sign at `at`, if `at` holds a hole sign and one does.
fn longest_name_at(template: &Vec<char>, at: usize, names: &Vec<Vec<char>>) -> (r: Option<usize>)
    requires
        at < template@.len(),
    ensures
        match r {
            Some(k) => {
                &&& k < names@.len()
                &&& template@[at as int] == HOLE_SIGN
                &&& occurs_at(template@, at + 1, names@[k as int]@)
                &&& forall|j: int|
                    0 <= j < names@.len() && occurs_at(template@, at + 1, (#[trigger] names@[j])@)
                        ==> names@[j]@.len() <= names@[k as int]@.len()
            },
            None => template@[at as int] == HOLE_SIGN ==> forall|j: int|
                0 <= j < names@.len() ==> !occurs_at(template@, at + 1, (#[trigger] names@[j])@),
        },
{
    if at >= template.len() || template[at] != HOLE_SIGN {
        return None;
    }
    let next = at + 1;
    let mut best: Option<usize> = None;
    let mut j: usize = 0;
    while j < names.len()
        invariant
            j <= names@.len(),
            next == at + 1,
            match best {
                Some(k) => {
                    &&& k < j
                    &&& occurs_at(template@, at + 1, names@[k as int]@)
                    &&& forall|i: int|
                        0 <= i < j && occurs_at(template@, at + 1, (#[trigger] names@[i])@)
                            ==> names@[i]@.len() <= names@[k as int]@.len()
                },
                None => forall|i: int|
                    0 <= i < j ==> !occurs_at(template@, at + 1, (#[trigger] names@[i])@),
            },
        decreases names.len() - j,
    {
        if matches_at(template, next, &names[j]) {
            let longer = match best {
                Some(k) => names[j].len() > names[k].len(),
                None => true,
            };
            if longer {
                best = Some(j);
            }
        }
        j += 1;
    }
    best
}

/// Replaces every hole of a bound name in `template` by the text bound to
/// the name; a hole of a name that is not bound is left as it is.
pub fn substitute(template: &str, tags: &TagMap) -> (r: String)
    ensures
        r@ == substituted(template@, tags@),
{
    let source = to_chars(template);
    let keys = tags.keys();
    let names = chars_of_all(&keys);
    let mut out: Vec<char> = Vec::new();
    let mut i: usize = 0;
    assert(source@.skip(0) =~= source@);
    while i < source.len()
        invariant
            i <= source@.len(),
            source@ == template@,
            names@.len() == keys@.len() == tags.names().len(),
            forall|j: int| 0 <= j < names@.len() ==> (#[trigger] names@[j])@ == tags.names()[j],
            forall|j: int| 0 <= j < keys@.len() ==> (#[trigger] keys@[j])@ == tags.names()[j],
            out@ + substituted(source@.skip(i as int), tags@) == substituted(source@, tags@),
        decreases source.len() - i,
    {
        let ghost rest = source@.skip(i as int);
        proof {
            tags.lemma_names_cover();
        }
        match longest_name_at(&source, i, &names) {
            Some(k) => {
                let ghost name = names@[k as int]@;
                proof {
                    assert(tags.names().contains(name));
                    assert(rest.subrange(1, 1 + name.len() as int) =~= source@.subrange(
                        i + 1,
                        i + 1 + name.len() as int,
                    ));
                    assert forall|other: Seq<char>| #[trigger]
                        hole_at(rest, tags@, other) implies other.len() <= name.len() by {
                        assert(tags.names().contains(other));
                        let j = choose|j: int|
                            0 <= j < tags.names().len() && tags.names()[j] == other;
                        assert(names@[j]@ == other);
                        assert(rest.subrange(1, 1 + other.len() as int) =~= source@.subrange(
                            i + 1,
                            i + 1 + other.len() as int,
                        ));
                    }
                    lemma_leading_hole_is(rest, tags@, name);
                    assert(rest.skip(1 + name.len() as int) =~= source@.skip(i + 1 + name.len() as int));
                }
                let text = match tags.get(keys[k].as_str()) {
                    Some(text) => to_chars(text.as_str()),
                    None => Vec::new(),
                };
                let mut t: usize = 0;
                let ghost before = out@;
                while t < text.len()
                    invariant
                        t <= text@.len(),
                        out@ == before + text@.take(t as int),
                    decreases text.len() - t,
                {
                    out.push(text[t]);
                    t += 1;
                }
                i = i + 1 + names[k].len();
            },
            None => {
                proof {
                    if exists|name: Seq<char>| longest_hole_at(rest, tags@, name) {
                        let name = choose|name: Seq<char>| longest_hole_at(rest, tags@, name);
                        assert(tags.names().contains(name));
                        let j = choose|j: int|
                            0 <= j < tags.names().len() && tags.names()[j] == name;
                        assert(names@[j]@ == name);
                        assert(rest.subrange(1, 1 + name.len() as int) =~= source@.subrange(
                            i + 1,
                            i + 1 + name.len() as int,
                        ));
                    }
                    assert(rest.skip(1) =~= source@.skip(i + 1));
                }
                out.push(source[i]);
                i += 1;
            },
        }
    }
    from_chars(&out)
}

/// The hole sign does not stand in `s`.
pub open spec fn no_sign(s: Seq<char>) -> bool {
    forall|i: int| 0 <= i < s.len() ==> s[i] != HOLE_SIGN
}

/// The text of the hole of `name`: the hole sign and then the name.
pub open spec fn hole_text(name: Seq<char>) -> Seq<char> {
    seq![HOLE_SIGN] + name
}

/// At `p` the template holds a hole sign that opens the hole of no bound
/// name, then the first `j` characters of `name` and no more of it, and
/// then another hole sign.
pub open spec fn cut_at(
    template: Seq<char>,
    tags: Map<Seq<char>, Seq<char>>,
    name: Seq<char>,
    p: int,
    j: int,
) -> bool {
    &&& 0 <= p
    &&& 0 <= j < name.len()
    &&& p + 1 + j < template.len()
    &&& template[p] == HOLE_SIGN
    &&& leading_hole(template.skip(p), tags) is None
    &&& template.subrange(p + 1, p + 1 + j) == name.take(j)
    &&& template[p + 1 + j] == HOLE_SIGN
}

/// Wherever in the template a hole sign that stays cuts short a beginning
/// of the hole of `name`, what follows the cut does not, once substituted,
/// begin with the rest of the name.
pub open spec fn unbroken(template: Seq<char>, tags: Map<Seq<char>, Seq<char>>, name: Seq<char>) -> bool {
    forall|p: int, j: int| #[trigger]
        cut_at(template, tags, name, p, j) ==> !name.skip(j).is_prefix_of(
            substituted(template.skip(p + 1 + j), tags),
        )
}

/// Where the hole of some bound name begins the template, one of them is
/// the longest.
pub proof fn lemma_longest_hole_exists(
    template: Seq<char>,
    tags: Map<Seq<char>, Seq<char>>,
    name: Seq<char>,
)
    requires
        hole_at(template, tags, name),
    ensures
        leading_hole(template, tags) is Some,
    decreases template.len() - name.len(),
{
    if forall|other: Seq<char>| #[trigger]
        hole_at(template, tags, other) ==> other.len() <= name.len() {
        assert(longest_hole_at(template, tags, name));
    } else {
        let other = choose|other: Seq<char>|
            #[trigger] hole_at(template, tags, other) && other.len() > name.len();
        lemma_longest_hole_exists(template, tags, other);
    }
}

/// If what follows a hole sign reads, after substitution, as `name`, and no
/// hole sign cuts the name short, then `name` follows the sign in the
/// template itself, as far as `j` characters.
proof fn lemma_reads_through(
    template: Seq<char>,
    tags: Map<Seq<char>, Seq<char>>,
    name: Seq<char>,
    j: int,
)
    requires
        template.len() > 0,
        template[0] == HOLE_SIGN,
        leading_hole(template, tags) is None,
        unbroken(template, tags, name),
        0 <= j <= name.len(),
        name.is_prefix_of(substituted(template.skip(1), tags)),
    ensures
        1 + j <= template.len(),
        template.subrange(1, 1 + j) == name.take(j),
        substituted(template.skip(1), tags) == name.take(j) + substituted(
            template.skip(1 + j),
            tags,
        ),
    decreases j,
{
    if j > 0 {
        lemma_reads_through(template, tags, name, j - 1);
        let tail = template.skip(j);
        let out = substituted(template.skip(1), tags);
        if tail[0] == HOLE_SIGN {
            assert(template.skip(0) =~= template);
            assert(cut_at(template, tags, name, 0, j - 1));
            assert(template.skip(0 + 1 + (j - 1)) =~= tail);
            assert(name.skip(j - 1) =~= out.subrange(0, name.len() as int).skip(j - 1));
            assert(name.skip(j - 1).is_prefix_of(substituted(tail, tags)));
        }
        assert(tail.skip(1) =~= template.skip(1 + j));
    }
}

/// Substitution closure: where `name` is bound, the texts bound hold no hole
/// sign, and what follows a hole sign that cuts the hole of `name` short
/// does not begin with the rest of the name, the substituted template holds
/// the hole of `name` nowhere.
pub proof fn lemma_substituted_closes(
    template: Seq<char>,
    tags: Map<Seq<char>, Seq<char>>,
    name: Seq<char>,
)
    requires
        tags.contains_key(name),
        forall|other: Seq<char>| tags.contains_key(other) ==> no_sign(#[trigger] tags[other]),
        unbroken(template, tags, name),
    ensures
        !occurs_in(substituted(template, tags), hole_text(name)),
    decreases template.len(),
{
    let out = substituted(template, tags);
    let hole = hole_text(name);
    if template.len() > 0 {
        let step: int = match leading_hole(template, tags) {
            Some(found) => 1 + found.len() as int,
            None => 1,
        };
        let rest = template.skip(step);
        assert forall|p: int, j: int| #[trigger] cut_at(rest, tags, name, p, j) implies !name.skip(
            j,
        ).is_prefix_of(substituted(rest.skip(p + 1 + j), tags)) by {
            assert(rest.skip(p) =~= template.skip(p + step));
            assert(rest.subrange(p + 1, p + 1 + j) =~= template.subrange(
                p + step + 1,
                p + step + 1 + j,
            ));
            assert(cut_at(template, tags, name, p + step, j));
            assert(rest.skip(p + 1 + j) =~= template.skip(p + step + 1 + j));
        }
        lemma_substituted_closes(rest, tags, name);
        let tail = substituted(rest, tags);
        let head: Seq<char> = match leading_hole(template, tags) {
            Some(found) => tags[found],
            None => seq![template[0]],
        };
        assert forall|m: int| !occurs_at(out, m, hole) by {
            if occurs_at(out, m, hole) {
                assert(out.subrange(m, m + hole.len())[0] == HOLE_SIGN);
                if m >= head.len() {
                    assert(tail.subrange(m - head.len(), m - head.len() + hole.len()) =~= out.subrange(
                        m,
                        m + hole.len(),
                    ));
                    assert(occurs_at(tail, m - head.len(), hole));
                } else if leading_hole(template, tags) is None {
                    assert(name.is_prefix_of(tail)) by {
                        assert(tail.subrange(0, name.len() as int) =~= out.subrange(
                            0,
                            hole.len() as int,
                        ).skip(1));
                    }
                    lemma_reads_through(template, tags, name, name.len() as int);
                    assert(name.take(name.len() as int) =~= name);
                    lemma_longest_hole_exists(template, tags, name);
                }
            }
        }
    }
}
} // verus!
