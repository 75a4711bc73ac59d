//! Searching the lines of a text for a query, with or without regard to case.

use vstd::prelude::*;

use crate::lines::{lines_of, split_lines};
use crate::text::{chars_of, contains, contains_text, fold_case, fold_chars, lemma_fold_case_concat};

verus! {

/// A line qualifies when it holds `text` exactly.
pub open spec fn holds_exactly(text: Seq<char>) -> spec_fn(Seq<char>) -> bool {
    |l: Seq<char>| contains(l, text)
}

/// A line qualifies when its folded form holds the folded form of `text`.
pub open spec fn holds_folded(text: Seq<char>) -> spec_fn(Seq<char>) -> bool {
    |l: Seq<char>| contains(fold_case(l), fold_case(text))
}

/// The lines of `contents` that hold `text` exactly, in their order.
pub open spec fn sensitive_matches(text: Seq<char>, contents: Seq<char>) -> Seq<Seq<char>> {
    lines_of(contents).filter(holds_exactly(text))
}

/// The lines of `contents` whose folded form holds the folded form of `text`,
/// in their order.
pub open spec fn insensitive_matches(text: Seq<char>, contents: Seq<char>) -> Seq<Seq<char>> {
    lines_of(contents).filter(holds_folded(text))
}

/// The lines of `contents` that contain `text`, compared character for
/// character, in the order in which they stand.
pub fn search_case_sensitive<'a>(text: &str, contents: &'a str) -> (r: Vec<&'a str>)
    ensures
        r@.map_values(|l: &str| l@) == sensitive_matches(text@, contents@),
{
    let lines = split_lines(contents);
    let needle = chars_of(text);
    let ghost all = lines@.map_values(|l: &str| l@);
    let ghost pred = holds_exactly(text@);
    let mut out: Vec<&'a str> = Vec::new();
    for i in 0..lines.len()
        invariant
            needle@ == text@,
            pred == holds_exactly(text@),
            all == lines@.map_values(|l: &str| l@),
            all == lines_of(contents@),
            out@.map_values(|l: &str| l@) == all.take(i as int).filter(pred),
    {
        let line = lines[i];
        let hay = chars_of(line);
        let found = contains_text(&hay, &needle);
        proof {
            assert(all.take(i + 1) =~= all.take(i as int).push(line@));
            all.take(i as int).lemma_filter_push(line@, pred);
        }
        if found {
            let ghost prev = out@.map_values(|l: &str| l@);
            out.push(line);
            assert(out@.map_values(|l: &str| l@) =~= prev.push(line@));
        }
    }
    assert(all.take(lines@.len() as int) =~= all);
    out
}

/// The lines of `contents` that contain `text` once both are case-folded,
/// in the order in which they stand.
pub fn search_case_insensitive<'a>(text: &str, contents: &'a str) -> (r: Vec<&'a str>)
    ensures
        r@.map_values(|l: &str| l@) == insensitive_matches(text@, contents@),
{
    let needle = fold_chars(&chars_of(text));
    let lines = split_lines(contents);
    let ghost all = lines@.map_values(|l: &str| l@);
    let ghost pred = holds_folded(text@);
    let mut out: Vec<&'a str> = Vec::new();
    for i in 0..lines.len()
        invariant
            needle@ == fold_case(text@),
            pred == holds_folded(text@),
            all == lines@.map_values(|l: &str| l@),
            all == lines_of(contents@),
            out@.map_values(|l: &str| l@) == all.take(i as int).filter(pred),
    {
        let line = lines[i];
        let hay = fold_chars(&chars_of(line));
        let found = contains_text(&hay, &needle);
        proof {
            assert(all.take(i + 1) =~= all.take(i as int).push(line@));
            all.take(i as int).lemma_filter_push(line@, pred);
        }
        if found {
            let ghost prev = out@.map_values(|l: &str| l@);
            out.push(line);
            assert(out@.map_values(|l: &str| l@) =~= prev.push(line@));
        }
    }
    assert(all.take(lines@.len() as int) =~= all);
    out
}

/// A filter that every element passes keeps the whole sequence.
proof fn lemma_filter_keeps_all(s: Seq<Seq<char>>, p: spec_fn(Seq<char>) -> bool)
    requires
        forall|i: int| 0 <= i < s.len() ==> p(#[trigger] s[i]),
    ensures
        s.filter(p) == s,
    decreases s.len(),
{
    reveal(Seq::filter);
    if s.len() > 0 {
        lemma_filter_keeps_all(s.drop_last(), p);
        assert(s.drop_last().push(s.last()) =~= s);
    }
}

/// Folding both sides keeps an occurrence.
proof fn lemma_fold_keeps_occurrence(l: Seq<char>, t: Seq<char>)
    requires
        contains(l, t),
    ensures
        contains(fold_case(l), fold_case(t)),
{
    let i = choose|i: int|
        0 <= i && i + t.len() <= l.len() && #[trigger] l.subrange(i, i + t.len()) == t;
    let a = l.take(i);
    let b = l.skip(i + t.len());
    assert(l =~= a + (t + b));
    lemma_fold_case_concat(a, t + b);
    lemma_fold_case_concat(t, b);
    let fl = fold_case(l);
    let j = fold_case(a).len() as int;
    assert(fl.subrange(j, j + fold_case(t).len()) =~= fold_case(t));
}

/// Ignoring case is never stricter: every line found when case counts is
/// also found when it does not.
pub proof fn lemma_insensitive_includes_sensitive(text: Seq<char>, contents: Seq<char>)
    ensures
        forall|l: Seq<char>|
            #[trigger] sensitive_matches(text, contents).contains(l) ==> insensitive_matches(
                text,
                contents,
            ).contains(l),
{
    let lines = lines_of(contents);
    assert forall|l: Seq<char>| #[trigger]
        sensitive_matches(text, contents).contains(l) implies insensitive_matches(
        text,
        contents,
    ).contains(l) by {
        let found = sensitive_matches(text, contents);
        let k = choose|k: int| 0 <= k < found.len() && found[k] == l;
        lines.lemma_filter_pred(holds_exactly(text), k);
        lines.lemma_filter_contains_rev(holds_exactly(text), l);
        lemma_fold_keeps_occurrence(l, text);
        let j = choose|j: int| 0 <= j < lines.len() && lines[j] == l;
        lines.lemma_filter_contains(holds_folded(text), j);
    }
}

/// Searching is settled: the lines found depend on the query and the text
/// alone, and searching the found lines again with the same query, with the
/// same regard to case, finds every one of them again and nothing else.
pub proof fn lemma_search_idempotent(text: Seq<char>, contents: Seq<char>)
    ensures
        sensitive_matches(text, contents).filter(holds_exactly(text)) == sensitive_matches(
            text,
            contents,
        ),
        insensitive_matches(text, contents).filter(holds_folded(text)) == insensitive_matches(
            text,
            contents,
        ),
{
    let lines = lines_of(contents);
    let exact = sensitive_matches(text, contents);
    let folded = insensitive_matches(text, contents);
    assert forall|i: int| 0 <= i < exact.len() implies holds_exactly(text)(#[trigger] exact[i]) by {
        lines.lemma_filter_pred(holds_exactly(text), i);
    }
    lemma_filter_keeps_all(exact, holds_exactly(text));
    assert forall|i: int| 0 <= i < folded.len() implies holds_folded(text)(#[trigger] folded[i]) by {
        lines.lemma_filter_pred(holds_folded(text), i);
    }
    lemma_filter_keeps_all(folded, holds_folded(text));
}

/// An empty query is found in every line, with or without regard to case.
pub proof fn lemma_empty_query_finds_every_line(contents: Seq<char>)
    ensures
        sensitive_matches(Seq::empty(), contents) == lines_of(contents),
        insensitive_matches(Seq::empty(), contents) == lines_of(contents),
{
    let lines = lines_of(contents);
    let empty = Seq::<char>::empty();
    assert(fold_case(empty) =~= empty);
    assert forall|l: Seq<char>| #[trigger] contains(l, empty) by {
        assert(l.subrange(0, 0 + empty.len() as int) =~= empty);
    }
    assert forall|i: int| 0 <= i < lines.len() implies holds_exactly(empty)(#[trigger] lines[i]) by {
        assert(contains(lines[i], empty));
    }
    lemma_filter_keeps_all(lines, holds_exactly(empty));
    assert forall|i: int| 0 <= i < lines.len() implies holds_folded(empty)(#[trigger] lines[i]) by {
        assert(contains(fold_case(lines[i]), empty));
    }
    lemma_filter_keeps_all(lines, holds_folded(empty));
}

/// An empty text has no lines, so no query finds anything in it.
pub proof fn lemma_empty_contents_finds_nothing(text: Seq<char>)
    ensures
        sensitive_matches(text, Seq::empty()) == Seq::<Seq<char>>::empty(),
        insensitive_matches(text, Seq::empty()) == Seq::<Seq<char>>::empty(),
{
    reveal(Seq::filter);
}

} // verus!
