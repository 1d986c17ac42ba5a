//! Small helpers: comparison that ignores layout, and lists grouped by key.
use vstd::prelude::*;
use crate::text::{same_chars, to_chars};

verus! {
/// `s` without its spaces and line feeds.
pub open spec fn without_whitespace(s: Seq<char>) -> Seq<char> {
    s.filter(|c: char| c != '\n' && c != ' ')
}

/// The characters of `s` that are neither a space nor a line feed, in order.
pub fn strip_whitespace(s: &str) -> (v: Vec<char>)
    ensures
        v@ == without_whitespace(s@),
{
    let mut v: Vec<char> = Vec::new();
    let ghost keep = |c: char| c != '\n' && c != ' ';
    for c in it: s.chars()
        invariant
            it.seq() == s@,
            keep == (|c: char| c != '\n' && c != ' '),
            v@ == s@.take(it.index() as int).filter(keep),
    {
        proof {
            let seen = s@.take(it.index() as int);
            assert(s@.take(it.index() + 1) =~= seen.push(c));
            seen.lemma_filter_push(c, keep);
        }
        if c != '\n' && c != ' ' {
            v.push(c);
        }
    }
    assert(s@.take(s@.len() as int) =~= s@);
    v
}

/// Compares two strings, ignoring line feeds and spaces.
pub fn eq_without_whitespace(s1: &str, s2: &str) -> (b: bool)
    ensures
        b == (without_whitespace(s1@) == without_whitespace(s2@)),
{
    let a = strip_whitespace(s1);
    let b = strip_whitespace(s2);
    same_chars(&a, &b)
}

/// A list of values under each key, like an adjacency list.
pub trait MapOfVec<T, V> {
    /// The keys in the order in which they first came, each with its values
    /// in the order in which they came.
    spec fn groups(&self) -> Seq<(T, Seq<V>)>;

    /// Whether two keys count as one.
    spec fn same_key(a: T, b: T) -> bool;

    /// Adds `value` to the values under `key`; a key not seen before comes last.
    fn collect(&mut self, key: T, value: V)
        ensures
            final(self).groups() == collected(
                old(self).groups(),
                |k: T| Self::same_key(k, key),
                key,
                value,
            ),
    ;
}

/// `groups` with `value` added under the first key that `is_key` accepts, or
/// under `key`, as a new last group, where it accepts none.
pub open spec fn collected<T, V>(
    groups: Seq<(T, Seq<V>)>,
    is_key: spec_fn(T) -> bool,
    key: T,
    value: V,
) -> Seq<(T, Seq<V>)> {
    match group_of(groups, is_key) {
        Some(i) => groups.update(i, (groups[i].0, groups[i].1.push(value))),
        None => groups.push((key, seq![value])),
    }
}

/// The groups of a list of keyed lists.
pub open spec fn groups_of<T, V>(list: Seq<(T, Vec<V>)>) -> Seq<(T, Seq<V>)> {
    list.map_values(|e: (T, Vec<V>)| (e.0, e.1@))
}

impl<V> MapOfVec<usize, V> for Vec<(usize, Vec<V>)> {
    open spec fn groups(&self) -> Seq<(usize, Seq<V>)> {
        groups_of(self@)
    }

    open spec fn same_key(a: usize, b: usize) -> bool {
        a == b
    }

    fn collect(&mut self, key: usize, value: V) {
        let ghost is_key = |k: usize| Self::same_key(k, key);
        let mut i: usize = 0;
        while i < self.len()
            invariant
                i <= self.len(),
                *self == *old(self),
                is_key == (|k: usize| Self::same_key(k, key)),
                forall|j: int| 0 <= j < i ==> !is_key(#[trigger] self.groups()[j].0),
            decreases self.len() - i,
        {
            if self[i].0 == key {
                proof {
                    lemma_group_of(self.groups(), is_key);
                    assert(is_key(self.groups()[i as int].0));
                }
                self[i].1.push(value);
                return ;
            }
            i += 1;
        }
        proof {
            lemma_group_of(self.groups(), is_key);
        }
        let mut values: Vec<V> = Vec::new();
        values.push(value);
        self.push((key, values));
    }
}

/// The index of the first group whose key `is_key` accepts.
pub open spec fn group_of<T, V>(groups: Seq<(T, Seq<V>)>, is_key: spec_fn(T) -> bool) -> Option<
    int,
>
    decreases groups.len(),
{
    if groups.len() == 0 {
        None
    } else if is_key(groups[0].0) {
        Some(0)
    } else {
        match group_of(groups.drop_first(), is_key) {
            Some(i) => Some(i + 1),
            None => None,
        }
    }
}

/// `group_of` finds the first accepted key and nothing before it is accepted.
pub proof fn lemma_group_of<T, V>(groups: Seq<(T, Seq<V>)>, is_key: spec_fn(T) -> bool)
    ensures
        match group_of(groups, is_key) {
            Some(i) => 0 <= i < groups.len() && is_key(groups[i].0) && forall|j: int|
                0 <= j < i ==> !is_key(#[trigger] groups[j].0),
            None => forall|j: int| 0 <= j < groups.len() ==> !is_key(#[trigger] groups[j].0),
        },
    decreases groups.len(),
{
    if groups.len() > 0 && !is_key(groups[0].0) {
        let rest = groups.drop_first();
        lemma_group_of(rest, is_key);
        match group_of(rest, is_key) {
            Some(i) => {
                assert forall|j: int| 0 <= j < i + 1 implies !is_key(#[trigger] groups[j].0) by {
                    if j > 0 {
                        assert(rest[j - 1] == groups[j]);
                    }
                }
            },
            None => {
                assert forall|j: int| 0 <= j < groups.len() implies !is_key(
                    #[trigger] groups[j].0,
                ) by {
                    if j > 0 {
                        assert(rest[j - 1] == groups[j]);
                    }
                }
            },
        }
    }
}

/// The index of the first element of `s` that `p` accepts, if any.
pub open spec fn first_index<T>(s: Seq<T>, p: spec_fn(T) -> bool) -> Option<int>
    decreases s.len(),
{
    if s.len() == 0 {
        None
    } else if p(s[0]) {
        Some(0)
    } else {
        match first_index(s.drop_first(), p) {
            Some(i) => Some(i + 1),
            None => None,
        }
    }
}

/// `first_index` is `Some(i)` exactly where `p` accepts the element at `i`
/// and none before it, and `None` exactly where it accepts none.
pub proof fn lemma_first_index<T>(s: Seq<T>, p: spec_fn(T) -> bool)
    ensures
        match first_index(s, p) {
            Some(i) => 0 <= i < s.len() && p(s[i]) && forall|j: int|
                0 <= j < i ==> !p(#[trigger] s[j]),
            None => forall|j: int| 0 <= j < s.len() ==> !p(#[trigger] s[j]),
        },
    decreases s.len(),
{
    if s.len() > 0 && !p(s[0]) {
        let rest = s.drop_first();
        lemma_first_index(rest, p);
        match first_index(rest, p) {
            Some(i) => {
                assert forall|j: int| 0 <= j < i + 1 implies !p(#[trigger] s[j]) by {
                    if j > 0 {
                        assert(rest[j - 1] == s[j]);
                    }
                }
            },
            None => {
                assert forall|j: int| 0 <= j < s.len() implies !p(#[trigger] s[j]) by {
                    if j > 0 {
                        assert(rest[j - 1] == s[j]);
                    }
                }
            },
        }
    }
}

/// The first accepted element, once found, is what `first_index` gives.
pub proof fn lemma_first_index_is<T>(s: Seq<T>, p: spec_fn(T) -> bool, i: int)
    requires
        0 <= i <= s.len(),
        forall|j: int| 0 <= j < i ==> !p(#[trigger] s[j]),
        i < s.len() ==> p(s[i]),
    ensures
        first_index(s, p) == (if i < s.len() {
            Some(i)
        } else {
            None
        }),
{
    lemma_first_index(s, p);
}

/// What one more element adds to a selection: the elements that `p`
/// accepts, each mapped by `f`.
pub proof fn lemma_select_push<A, B>(s: Seq<A>, x: A, p: spec_fn(A) -> bool, f: spec_fn(A) -> B)
    ensures
        s.push(x).filter(p).map_values(f) == (if p(x) {
            s.filter(p).map_values(f).push(f(x))
        } else {
            s.filter(p).map_values(f)
        }),
        Seq::<A>::empty().filter(p).map_values(f) == Seq::<B>::empty(),
{
    s.lemma_filter_push(x, p);
}

/// The index of the last `c` in `s`, or -1 where there is none.
pub open spec fn last_index_of(s: Seq<char>, c: char) -> int
    decreases s.len(),
{
    if s.len() == 0 {
        -1
    } else if s.last() == c {
        s.len() - 1
    } else {
        last_index_of(s.drop_last(), c)
    }
}

/// The name of the file that a path leads to: what follows its last slash.
pub open spec fn file_name_of(path: Seq<char>) -> Seq<char> {
    path.skip(last_index_of(path, '/') + 1)
}

/// The extension of the file that a path leads to: what follows the last
/// dot of the file name. A name without a dot has none, and neither has
/// one whose only dot comes first.
pub open spec fn extension_of(path: Seq<char>) -> Option<Seq<char>> {
    let name = file_name_of(path);
    let dot = last_index_of(name, '.');
    if dot <= 0 {
        None
    } else {
        Some(name.skip(dot + 1))
    }
}

/// `last_index_of` is below the length and points at the character.
pub proof fn lemma_last_index_of(s: Seq<char>, c: char)
    ensures
        -1 <= last_index_of(s, c) < s.len(),
        last_index_of(s, c) >= 0 ==> s[last_index_of(s, c)] == c,
        forall|j: int| last_index_of(s, c) < j < s.len() ==> s[j] != c,
    decreases s.len(),
{
    if s.len() > 0 && s.last() != c {
        let rest = s.drop_last();
        lemma_last_index_of(rest, c);
        assert forall|j: int| last_index_of(s, c) < j < s.len() implies s[j] != c by {
            if j < rest.len() {
                assert(rest[j] == s[j]);
            }
        }
    }
}

/// Where the last `c` stands in the first `end` characters of `s`: its
/// index and one, or nothing where there is none.
fn after_last(s: &Vec<char>, end: usize, c: char) -> (r: usize)
    requires
        end <= s@.len(),
    ensures
        r == last_index_of(s@.take(end as int), c) + 1,
        r <= end,
{
    let mut i: usize = end;
    proof {
        lemma_last_index_of(s@.take(end as int), c);
    }
    while i > 0
        invariant
            i <= end <= s@.len(),
            forall|j: int| i <= j < end ==> s@[j] != c,
        decreases i,
    {
        if s[i - 1] == c {
            proof {
                lemma_last_is(s@.take(end as int), c, i - 1);
            }
            return i;
        }
        i -= 1;
    }
    0
}

/// The last index at which the character stands, once found, is what
/// `last_index_of` gives.
pub proof fn lemma_last_is(s: Seq<char>, c: char, i: int)
    requires
        -1 <= i < s.len(),
        i >= 0 ==> s[i] == c,
        forall|j: int| i < j < s.len() ==> s[j] != c,
    ensures
        last_index_of(s, c) == i,
{
    lemma_last_index_of(s, c);
}

/// Whether the file that `path` leads to has the extension `extension`.
pub fn has_extension(path: &str, extension: &str) -> (b: bool)
    ensures
        b == (extension_of(path@) == Some(extension@)),
{
    let chars = to_chars(path);
    let wanted = to_chars(extension);
    let start = after_last(&chars, chars.len(), '/');
    assert(chars@.take(chars@.len() as int) =~= chars@);
    let mut name: Vec<char> = Vec::new();
    let mut i: usize = start;
    while i < chars.len()
        invariant
            start <= i <= chars@.len(),
            name@ == chars@.subrange(start as int, i as int),
        decreases chars.len() - i,
    {
        name.push(chars[i]);
        i += 1;
    }
    let dot = after_last(&name, name.len(), '.');
    assert(name@.take(name@.len() as int) =~= name@);
    if dot <= 1 {
        return false;
    }
    let mut found: Vec<char> = Vec::new();
    let mut k: usize = dot;
    while k < name.len()
        invariant
            dot <= k <= name@.len(),
            found@ == name@.subrange(dot as int, k as int),
        decreases name.len() - k,
    {
        found.push(name[k]);
        k += 1;
    }
    same_chars(&found, &wanted)
}
} // verus!
