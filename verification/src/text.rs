//! Character-level helpers shared by the templating and comparison code.
use vstd::prelude::*;
use vstd::utf8::{decode_utf8, valid_utf8};
use vstd::slice::slice_subrange;
use crate::edit::Range;

verus! {
/// `String::push` of the standard library: the character is appended at the
/// end and nothing else changes.
pub assume_specification[ String::push ](s: &mut String, c: char)
    ensures
        final(s)@ == old(s)@.push(c),
;

/// `String::from_utf8` of the standard library: the text that the bytes
/// encode, where they are UTF-8, and nothing where they are not.
#[verifier::external_body]
pub(crate) fn string_from_utf8(bytes: Vec<u8>) -> (r: Option<String>)
    ensures
        r is Some <==> valid_utf8(bytes@),
        r matches Some(s) ==> s@ == decode_utf8(bytes@),
{
    String::from_utf8(bytes).ok()
}

/// The characters of a string, in order.
pub fn to_chars(s: &str) -> (v: Vec<char>)
    ensures
        v@ == s@,
{
    let mut v: Vec<char> = Vec::new();
    for c in it: s.chars()
        invariant
            it.seq() == s@,
            v@ == s@.take(it.index() as int),
    {
        v.push(c);
    }
    v
}

/// The string made of the given characters, in order.
pub fn from_chars(v: &Vec<char>) -> (s: String)
    ensures
        s@ == v@,
{
    let mut s = String::new();
    let mut i: usize = 0;
    while i < v.len()
        invariant
            i <= v.len(),
            s@ == v@.take(i as int),
        decreases v.len() - i,
    {
        s.push(v[i]);
        i += 1;
    }
    s
}

/// `needle` stands in `hay` at index `i`.
pub open spec fn occurs_at(hay: Seq<char>, i: int, needle: Seq<char>) -> bool {
    &&& 0 <= i
    &&& i + needle.len() <= hay.len()
    &&& hay.subrange(i, i + needle.len()) == needle
}

/// `needle` stands somewhere in `hay`.
pub open spec fn occurs_in(hay: Seq<char>, needle: Seq<char>) -> bool {
    exists|i: int| occurs_at(hay, i, needle)
}

/// Tests whether `needle` stands in `hay` at index `i`.
pub fn matches_at(hay: &Vec<char>, i: usize, needle: &Vec<char>) -> (b: bool)
    ensures
        b == occurs_at(hay@, i as int, needle@),
{
    if i > hay.len() || needle.len() > hay.len() - i {
        return false;
    }
    let mut j: usize = 0;
    while j < needle.len()
        invariant
            i + needle.len() <= hay.len(),
            j <= needle.len(),
            forall|k: int| 0 <= k < j ==> hay@[i + k] == needle@[k],
        decreases needle.len() - j,
    {
        if hay[i + j] != needle[j] {
            return false;
        }
        j += 1;
    }
    assert(hay@.subrange(i as int, i + needle.len()) =~= needle@);
    true
}

/// Tests whether two character vectors hold the same characters.
pub fn same_chars(a: &Vec<char>, b: &Vec<char>) -> (r: bool)
    ensures
        r == (a@ == b@),
{
    if a.len() != b.len() {
        return false;
    }
    let r = matches_at(a, 0, b);
    assert(a@.subrange(0, b@.len() as int) =~= a@);
    r
}

/// Tests whether two strings hold the same characters.
pub fn same_text(a: &str, b: &str) -> (r: bool)
    ensures
        r == (a@ == b@),
{
    let x = to_chars(a);
    let y = to_chars(b);
    same_chars(&x, &y)
}

/// Plain substring search over characters.
pub fn find_chars(hay: &Vec<char>, needle: &Vec<char>) -> (r: Option<usize>)
    ensures
        match r {
            Some(i) => occurs_at(hay@, i as int, needle@) && forall|k: int|
                0 <= k < i ==> !occurs_at(hay@, k, needle@),
            None => !occurs_in(hay@, needle@),
        },
{
    let mut i: usize = 0;
    while i < hay.len()
        invariant
            i <= hay.len(),
            forall|k: int| 0 <= k < i ==> !occurs_at(hay@, k, needle@),
        decreases hay.len() - i,
    {
        if matches_at(hay, i, needle) {
            return Some(i);
        }
        i += 1;
    }
    if matches_at(hay, i, needle) {
        Some(i)
    } else {
        None
    }
}

/// Plain substring test: whether `text` stands somewhere in `template`.
pub fn contains(template: &str, text: &str) -> (b: bool)
    ensures
        b == occurs_in(template@, text@),
{
    let hay = to_chars(template);
    let needle = to_chars(text);
    find_chars(&hay, &needle).is_some()
}

/// The bytes of `code` that `range` covers are text.
pub open spec fn covers_text(code: Seq<u8>, range: Range) -> bool {
    range.within(code.len() as int) && valid_utf8(
        code.subrange(range.start_byte as int, range.end_byte as int),
    )
}

/// The text that `range` covers in `code`.
pub open spec fn text_in(code: Seq<u8>, range: Range) -> Seq<char> {
    decode_utf8(code.subrange(range.start_byte as int, range.end_byte as int))
}

/// The text that `range` covers in `code`, where those bytes are text.
pub fn text_of(code: &[u8], range: &Range) -> (r: Option<String>)
    ensures
        r is Some <==> covers_text(code@, *range),
        r matches Some(text) ==> text@ == text_in(code@, *range),
{
    if range.start_byte > range.end_byte || range.end_byte > code.len() {
        return None;
    }
    let part = slice_subrange(code, range.start_byte, range.end_byte);
    let mut bytes: Vec<u8> = Vec::new();
    bytes.extend_from_slice(part);
    assert(bytes@ =~= code@.subrange(range.start_byte as int, range.end_byte as int));
    string_from_utf8(bytes)
}

/// The texts of a list of strings.
pub open spec fn texts(list: Seq<String>) -> Seq<Seq<char>> {
    list.map_values(|s: String| s@)
}

/// The texts of `list` in a row, with `sep` between each two.
pub open spec fn joined(list: Seq<Seq<char>>, sep: Seq<char>) -> Seq<char>
    decreases list.len(),
{
    if list.len() == 0 {
        Seq::empty()
    } else if list.len() == 1 {
        list[0]
    } else {
        joined(list.drop_last(), sep) + sep + list.last()
    }
}

/// Joins the strings of `list`, with `sep` between each two.
pub fn join_texts(list: &Vec<String>, sep: &str) -> (r: String)
    ensures
        r@ == joined(texts(list@), sep@),
{
    let ghost all = texts(list@);
    let mut r = String::new();
    let mut i: usize = 0;
    while i < list.len()
        invariant
            i <= list@.len(),
            all == texts(list@),
            r@ == joined(all.take(i as int), sep@),
        decreases list.len() - i,
    {
        proof {
            assert(all.take(i + 1).drop_last() =~= all.take(i as int));
        }
        if i > 0 {
            r.push_str(sep);
        }
        r.push_str(list[i].as_str());
        i += 1;
    }
    assert(all.take(all.len() as int) =~= all);
    r
}

/// `String::push_str` of the standard library: the text is appended at the
/// end and nothing else changes.
pub assume_specification[ String::push_str ](s: &mut String, text: &str)
    ensures
        final(s)@ == old(s)@ + text@,
;
} // verus!
