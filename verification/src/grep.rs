//! The grep heuristic: the fragments of which a file must hold one to be
//! worth parsing.
use vstd::prelude::*;
use crate::rule::Rule;
use crate::rule_store::rule_views;
use crate::rule::RuleView;
use crate::text::{contains, occurs_in, same_text, texts, to_chars};

verus! {
/// `a` comes before `b`, or is `b`, in the order of strings: the order of
/// the first character in which they differ, a prefix before what extends it.
pub open spec fn text_le(a: Seq<char>, b: Seq<char>) -> bool
    decreases a.len(),
{
    if a.len() == 0 {
        true
    } else if b.len() == 0 {
        false
    } else if a[0] != b[0] {
        (a[0] as u32) < (b[0] as u32)
    } else {
        text_le(a.skip(1), b.skip(1))
    }
}

/// A sorted list with `x` put in behind the last text that does not come
/// after it.
pub open spec fn inserted(sorted: Seq<Seq<char>>, x: Seq<char>) -> Seq<Seq<char>>
    decreases sorted.len(),
{
    if sorted.len() == 0 {
        seq![x]
    } else if text_le(sorted.last(), x) {
        sorted.push(x)
    } else {
        inserted(sorted.drop_last(), x).push(sorted.last())
    }
}

/// The texts of `list` in the order of strings.
pub open spec fn sorted_texts(list: Seq<Seq<char>>) -> Seq<Seq<char>>
    decreases list.len(),
{
    if list.len() == 0 {
        Seq::empty()
    } else {
        inserted(sorted_texts(list.drop_last()), list.last())
    }
}

/// `list` without the texts that repeat the text right before them.
pub open spec fn deduped(list: Seq<Seq<char>>) -> Seq<Seq<char>>
    decreases list.len(),
{
    if list.len() <= 1 {
        list
    } else {
        let before = deduped(list.drop_last());
        if list.last() == list[list.len() - 2] {
            before
        } else {
            before.push(list.last())
        }
    }
}

/// The test for a text that is neither of the two boolean literals.
pub open spec fn telling() -> spec_fn(Seq<char>) -> bool {
    |t: Seq<char>| t != "true"@ && t != "false"@
}

/// The grep heuristics of all of `rules`, rule after rule.
pub open spec fn all_heuristics(rules: Seq<RuleView>) -> Seq<Seq<char>>
    decreases rules.len(),
{
    if rules.len() == 0 {
        Seq::empty()
    } else {
        all_heuristics(rules.drop_last()) + rules.last().grep_heuristics
    }
}

/// The grep heuristics of `rules`: the texts that their holes were filled
/// with, sorted, each once, without the two boolean literals.
pub open spec fn heuristics_of(rules: Seq<RuleView>) -> Seq<Seq<char>> {
    deduped(sorted_texts(all_heuristics(rules))).filter(telling())
}

/// The text holds one of the fragments. A list of no fragments lets every
/// text pass.
pub open spec fn grep_hit(fragments: Seq<Seq<char>>, text: Seq<char>) -> bool {
    fragments.len() == 0 || exists|k: int|
        0 <= k < fragments.len() && occurs_in(text, #[trigger] fragments[k])
}

/// A text put into a sorted list is in it, and so is all that was there.
pub proof fn lemma_inserted_holds(sorted: Seq<Seq<char>>, x: Seq<char>, y: Seq<char>)
    ensures
        inserted(sorted, x).contains(y) <==> y == x || sorted.contains(y),
    decreases sorted.len(),
{
    let r = inserted(sorted, x);
    if sorted.len() == 0 {
        assert(r[0] == x);
    } else if text_le(sorted.last(), x) {
        assert(r.last() == x);
        assert forall|i: int| 0 <= i < sorted.len() implies r[i] == sorted[i] by {}
        if sorted.contains(y) {
            let i = choose|i: int| 0 <= i < sorted.len() && sorted[i] == y;
        }
    } else {
        let rest = sorted.drop_last();
        lemma_inserted_holds(rest, x, y);
        assert(r.last() == sorted.last());
        assert(r.drop_last() =~= inserted(rest, x));
        if r.contains(y) {
            let i = choose|i: int| 0 <= i < r.len() && r[i] == y;
            if i < r.len() - 1 {
                if y != x {
                    let l = choose|l: int| 0 <= l < rest.len() && rest[l] == y;
                }
            }
        }
        if y == x || rest.contains(y) {
            let i = choose|i: int| 0 <= i < inserted(rest, x).len() && inserted(rest, x)[i] == y;
        }
        if sorted.contains(y) {
            let l = choose|l: int| 0 <= l < sorted.len() && sorted[l] == y;
            if l == sorted.len() - 1 {
            } else {
                assert(rest[l] == y);
            }
        }
    }
}

/// Sorting neither drops a text nor brings one in.
pub proof fn lemma_sorted_holds(list: Seq<Seq<char>>, y: Seq<char>)
    ensures
        sorted_texts(list).contains(y) <==> list.contains(y),
    decreases list.len(),
{
    if list.len() > 0 {
        let rest = list.drop_last();
        lemma_sorted_holds(rest, y);
        lemma_inserted_holds(sorted_texts(rest), list.last(), y);
        if list.contains(y) {
            let l = choose|l: int| 0 <= l < list.len() && list[l] == y;
            if l < list.len() - 1 {
                assert(rest[l] == y);
            }
        }
        if rest.contains(y) {
            let l = choose|l: int| 0 <= l < rest.len() && rest[l] == y;
        }
    }
}

/// Dropping repeats neither drops a text altogether nor brings one in.
pub proof fn lemma_deduped_holds(list: Seq<Seq<char>>, y: Seq<char>)
    ensures
        deduped(list).contains(y) <==> list.contains(y),
    decreases list.len(),
{
    if list.len() > 1 {
        let rest = list.drop_last();
        let before = deduped(rest);
        lemma_deduped_holds(rest, y);
        if list.contains(y) {
            let l = choose|l: int| 0 <= l < list.len() && list[l] == y;
            if l < list.len() - 1 {
                assert(rest[l] == y);
            } else if list.last() == list[list.len() - 2] {
                assert(rest[list.len() - 2] == y);
            } else {
                assert(before.push(list.last())[before.len() as int] == y);
            }
        }
        if before.contains(y) {
            let l = choose|l: int| 0 <= l < before.len() && before[l] == y;
            assert(before.push(list.last())[l] == y);
            let m = choose|m: int| 0 <= m < rest.len() && rest[m] == y;
        }
        if deduped(list).contains(y) && !before.contains(y) {
            let l = choose|l: int| 0 <= l < deduped(list).len() && deduped(list)[l] == y;
        }
    }
}

/// The grep heuristics of all the rules are those of each rule.
pub proof fn lemma_all_heuristics_hold(rules: Seq<RuleView>, y: Seq<char>)
    ensures
        all_heuristics(rules).contains(y) <==> exists|i: int|
            0 <= i < rules.len() && (#[trigger] rules[i]).grep_heuristics.contains(y),
    decreases rules.len(),
{
    if rules.len() > 0 {
        let rest = rules.drop_last();
        let head = all_heuristics(rest);
        let tail = rules.last().grep_heuristics;
        lemma_all_heuristics_hold(rest, y);
        if all_heuristics(rules).contains(y) {
            let l = choose|l: int| 0 <= l < (head + tail).len() && (head + tail)[l] == y;
            if l < head.len() {
                let i = choose|i: int|
                    0 <= i < rest.len() && (#[trigger] rest[i]).grep_heuristics.contains(y);
            }
        }
        if exists|i: int| 0 <= i < rules.len() && (#[trigger] rules[i]).grep_heuristics.contains(y) {
            let i = choose|i: int|
                0 <= i < rules.len() && (#[trigger] rules[i]).grep_heuristics.contains(y);
            if i < rules.len() - 1 {
                assert(rest[i] == rules[i]);
                let l = choose|l: int| 0 <= l < head.len() && head[l] == y;
                assert((head + tail)[l] == y);
            } else {
                let l = choose|l: int| 0 <= l < tail.len() && tail[l] == y;
                assert((head + tail)[head.len() + l] == y);
            }
        }
    }
}

/// The fragments of the grep heuristic are the grep heuristics of the
/// rules, but for the two boolean literals: none is lost, none is made up.
pub proof fn lemma_heuristics_hold(rules: Seq<RuleView>, y: Seq<char>)
    ensures
        heuristics_of(rules).contains(y) <==> y != "true"@ && y != "false"@ && exists|i: int|
            0 <= i < rules.len() && (#[trigger] rules[i]).grep_heuristics.contains(y),
{
    let all = all_heuristics(rules);
    let listed = deduped(sorted_texts(all));
    lemma_all_heuristics_hold(rules, y);
    lemma_sorted_holds(all, y);
    lemma_deduped_holds(sorted_texts(all), y);
    if listed.contains(y) && telling()(y) {
        let l = choose|l: int| 0 <= l < listed.len() && listed[l] == y;
    }
    if heuristics_of(rules).contains(y) {
        let l = choose|l: int| 0 <= l < heuristics_of(rules).len() && heuristics_of(rules)[l] == y;
        listed.lemma_filter_contains_rev(telling(), y);
    }
}

/// A text that holds a grep heuristic of one of the rules, other than a
/// boolean literal, passes the grep heuristic of the rules.
pub proof fn lemma_heuristic_hits(rules: Seq<RuleView>, i: int, text: Seq<char>, y: Seq<char>)
    requires
        0 <= i < rules.len(),
        rules[i].grep_heuristics.contains(y),
        y != "true"@,
        y != "false"@,
        occurs_in(text, y),
    ensures
        grep_hit(heuristics_of(rules), text),
{
    lemma_heuristics_hold(rules, y);
    let k = choose|k: int| 0 <= k < heuristics_of(rules).len() && heuristics_of(rules)[k] == y;
}

/// Whether `a` comes before `b`, or is `b`, in the order of strings.
pub fn text_precedes(a: &Vec<char>, b: &Vec<char>) -> (r: bool)
    ensures
        r == text_le(a@, b@),
{
    let mut i: usize = 0;
    assert(a@.skip(0) =~= a@ && b@.skip(0) =~= b@);
    loop
        invariant
            i <= a@.len(),
            i <= b@.len(),
            text_le(a@.skip(i as int), b@.skip(i as int)) == text_le(a@, b@),
        decreases a@.len() - i,
    {
        if i == a.len() {
            return true;
        }
        if i == b.len() {
            return false;
        }
        let x = a[i];
        let y = b[i];
        if x != y {
            return (x as u32) < (y as u32);
        }
        assert(a@.skip(i as int).skip(1) =~= a@.skip(i + 1));
        assert(b@.skip(i as int).skip(1) =~= b@.skip(i + 1));
        i += 1;
    }
}

/// Putting `x` in is putting it at the index behind the last text that does
/// not come after it.
pub proof fn lemma_inserted_at(sorted: Seq<Seq<char>>, x: Seq<char>, at: int)
    requires
        0 <= at <= sorted.len(),
        forall|j: int| at <= j < sorted.len() ==> !text_le(#[trigger] sorted[j], x),
        at > 0 ==> text_le(sorted[at - 1], x),
    ensures
        inserted(sorted, x) == sorted.insert(at, x),
    decreases sorted.len(),
{
    if 0 < sorted.len() && at < sorted.len() {
        lemma_inserted_at(sorted.drop_last(), x, at);
    }
}

/// Sorts the strings of `list` in the order of strings.
pub fn sort_texts(list: &Vec<String>) -> (sorted: Vec<String>)
    ensures
        texts(sorted@) == sorted_texts(texts(list@)),
{
    let ghost all = texts(list@);
    let mut sorted: Vec<String> = Vec::new();
    let mut i: usize = 0;
    while i < list.len()
        invariant
            i <= list@.len(),
            all == texts(list@),
            texts(sorted@) == sorted_texts(all.take(i as int)),
        decreases list.len() - i,
    {
        proof {
            assert(all.take(i + 1).drop_last() =~= all.take(i as int));
        }
        let x = to_chars(list[i].as_str());
        let ghost before = texts(sorted@);
        let mut at: usize = sorted.len();
        let mut placed = false;
        while at > 0 && !placed
            invariant
                at <= sorted@.len(),
                before == texts(sorted@),
                forall|j: int| at <= j < before.len() ==> !text_le(#[trigger] before[j], x@),
                placed ==> at > 0 && text_le(before[at - 1], x@),
            decreases at, (if placed { 0int } else { 1int }),
        {
            let y = to_chars(sorted[at - 1].as_str());
            if text_precedes(&y, &x) {
                placed = true;
            } else {
                at -= 1;
            }
        }
        proof {
            lemma_inserted_at(before, x@, at as int);
        }
        let item = list[i].clone();
        sorted.insert(at, item);
        i += 1;
    }
    assert(all.take(all.len() as int) =~= all);
    sorted
}

/// Drops the strings that repeat the string right before them.
pub fn dedup_texts(list: &Vec<String>) -> (kept: Vec<String>)
    ensures
        texts(kept@) == deduped(texts(list@)),
{
    let ghost all = texts(list@);
    let mut kept: Vec<String> = Vec::new();
    let mut i: usize = 0;
    while i < list.len()
        invariant
            i <= list@.len(),
            all == texts(list@),
            texts(kept@) == deduped(all.take(i as int)),
        decreases list.len() - i,
    {
        proof {
            assert(all.take(i + 1).drop_last() =~= all.take(i as int));
        }
        let repeats = i > 0 && same_text(list[i].as_str(), list[i - 1].as_str());
        if !repeats {
            let item = list[i].clone();
            kept.push(item);
        }
        i += 1;
    }
    assert(all.take(all.len() as int) =~= all);
    kept
}

/// Drops the two boolean literals.
pub fn drop_literals(list: &Vec<String>) -> (kept: Vec<String>)
    ensures
        texts(kept@) == texts(list@).filter(telling()),
{
    let ghost all = texts(list@);
    let ghost p = telling();
    let mut kept: Vec<String> = Vec::new();
    let mut i: usize = 0;
    while i < list.len()
        invariant
            i <= list@.len(),
            all == texts(list@),
            p == telling(),
            texts(kept@) == all.take(i as int).filter(p),
        decreases list.len() - i,
    {
        proof {
            assert(all.take(i + 1) =~= all.take(i as int).push(list@[i as int]@));
            all.take(i as int).lemma_filter_push(list@[i as int]@, p);
        }
        let text = list[i].as_str();
        if !same_text(text, "true") && !same_text(text, "false") {
            let item = list[i].clone();
            kept.push(item);
        }
        i += 1;
    }
    assert(all.take(all.len() as int) =~= all);
    kept
}

/// The grep heuristics of all of `rules`, rule after rule.
pub fn gather_heuristics(rules: &Vec<Rule>) -> (list: Vec<String>)
    ensures
        texts(list@) == all_heuristics(rule_views(rules@)),
{
    let ghost all = rule_views(rules@);
    let mut list: Vec<String> = Vec::new();
    let mut i: usize = 0;
    while i < rules.len()
        invariant
            i <= rules@.len(),
            all == rule_views(rules@),
            texts(list@) == all_heuristics(all.take(i as int)),
        decreases rules.len() - i,
    {
        proof {
            assert(all.take(i + 1).drop_last() =~= all.take(i as int));
        }
        let ghost before = texts(list@);
        let own = &rules[i].grep_heuristics;
        let mut j: usize = 0;
        while j < own.len()
            invariant
                j <= own@.len(),
                texts(list@) == before + texts(own@).take(j as int),
            decreases own.len() - j,
        {
            let ghost prev = texts(list@);
            let item = own[j].clone();
            list.push(item);
            assert(texts(list@) =~= prev.push(item@));
            j += 1;
        }
        i += 1;
    }
    assert(all.take(all.len() as int) =~= all);
    list
}

/// The grep heuristics of `rules`.
pub fn grep_heuristics(rules: &Vec<Rule>) -> (kept: Vec<String>)
    ensures
        texts(kept@) == heuristics_of(rule_views(rules@)),
{
    let all = gather_heuristics(rules);
    let sorted = sort_texts(&all);
    let once = dedup_texts(&sorted);
    drop_literals(&once)
}

/// Whether the text holds one of the fragments, as plain text.
pub fn holds_fragment(fragments: &Vec<String>, text: &str) -> (b: bool)
    ensures
        b == grep_hit(texts(fragments@), text@),
{
    if fragments.len() == 0 {
        return true;
    }
    let mut k: usize = 0;
    while k < fragments.len()
        invariant
            k <= fragments@.len(),
            fragments@.len() > 0,
            forall|j: int| 0 <= j < k ==> !occurs_in(text@, #[trigger] texts(fragments@)[j]),
        decreases fragments.len() - k,
    {
        if contains(text, fragments[k].as_str()) {
            assert(occurs_in(text@, texts(fragments@)[k as int]));
            return true;
        }
        k += 1;
    }
    false
}

} // verus!
