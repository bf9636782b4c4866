//! Laws of matching: what holds of every automaton and every text.

use crate::automaton::Automaton;
use crate::spans::{separate, stitched};
use vstd::prelude::*;

verus! {

/// Putting the text together from an earlier position on gives what stands
/// between the two positions and what is put together from the later one.
proof fn lemma_stitched_from(text: Seq<char>, spans: Seq<(usize, usize)>, from: int, later: int)
    requires
        0 <= from <= later <= text.len(),
        separate(spans, later, text.len() as int),
    ensures
        stitched(text, spans, from) == text.subrange(from, later) + stitched(text, spans, later),
{
    if spans.len() == 0 {
        assert(text.subrange(from, text.len() as int) =~= text.subrange(from, later)
            + text.subrange(later, text.len() as int));
    } else {
        let (start, length) = spans[0];
        assert(text.subrange(from, start as int) =~= text.subrange(from, later) + text.subrange(
            later,
            start as int,
        ));
        let matched = text.subrange(start as int, start + length);
        let rest = stitched(text, spans.drop_first(), start + length);
        assert(text.subrange(from, start as int) + matched + rest =~= text.subrange(from, later)
            + (text.subrange(later, start as int) + matched + rest));
    }
}

/// The matches that a scan finds never overlap, none is empty, all lie in the
/// text, and together with what stands between them they make up the text that
/// was scanned.
pub proof fn lemma_scan_partitions(automaton: Automaton, text: Seq<char>, from: int)
    requires
        0 <= from <= text.len() <= usize::MAX,
    ensures
        separate(automaton.scan(text, from), from, text.len() as int),
        stitched(text, automaton.scan(text, from), from) == text.subrange(from, text.len() as int),
    decreases text.len() - from,
{
    let len = text.len() as int;
    if from < len {
        let length = automaton.longest_match(text, from);
        automaton.lemma_longest_match_bounds(text, from);
        if length > 0 {
            let rest = automaton.scan(text, from + length);
            let spans = automaton.scan(text, from);
            lemma_scan_partitions(automaton, text, from + length);
            assert(spans == seq![(from as usize, length as usize)] + rest);
            assert(spans.drop_first() =~= rest);
            assert forall|i: int, j: int| 0 <= i < j < spans.len() implies (#[trigger] spans[i]).0
                + spans[i].1 <= (#[trigger] spans[j]).0 by {
                assert(spans[j] == rest[j - 1]);
                if i > 0 {
                    assert(spans[i] == rest[i - 1]);
                }
            }
            assert forall|i: int| 0 <= i < spans.len() implies from <= (#[trigger] spans[i]).0
                && spans[i].1 > 0 && spans[i].0 + spans[i].1 <= len by {
                if i > 0 {
                    assert(spans[i] == rest[i - 1]);
                }
            }
            assert(text.subrange(from, from) + text.subrange(from, from + length) + text.subrange(
                from + length,
                len,
            ) =~= text.subrange(from, len));
        } else {
            lemma_scan_partitions(automaton, text, from + 1);
            let spans = automaton.scan(text, from);
            lemma_stitched_from(text, spans, from, from + 1);
            assert(text.subrange(from, from + 1) + text.subrange(from + 1, len) =~= text.subrange(
                from,
                len,
            ));
        }
    } else {
        assert(automaton.scan(text, from) =~= Seq::<(usize, usize)>::empty());
    }
}

/// What `matches` returns for a text: spans that never overlap and that, with what
/// stands between them, make up the whole text again. The text is one that a
/// string can hold.
pub proof fn lemma_matches_partition(automaton: Automaton, text: Seq<char>)
    requires
        text.len() <= usize::MAX,
    ensures
        separate(automaton.scan(text, 0), 0, text.len() as int),
        stitched(text, automaton.scan(text, 0), 0) == text,
{
    lemma_scan_partitions(automaton, text, 0);
    assert(text.subrange(0, text.len() as int) =~= text);
}

/// A scan from `from` on finds nothing where no match that is not empty starts at
/// or behind `from`; else its first span is the longest match at the first
/// position at which one starts.
pub proof fn lemma_scan_first(automaton: Automaton, text: Seq<char>, from: int)
    requires
        0 <= from <= text.len() <= usize::MAX,
    ensures
        automaton.scan(text, from).len() == 0 <==> forall|i: int|
            from <= i < text.len() ==> #[trigger] automaton.longest_match(text, i) == 0,
        automaton.scan(text, from).len() > 0 ==> {
            let (start, length) = automaton.scan(text, from)[0];
            &&& from <= start < text.len()
            &&& length == automaton.longest_match(text, start as int)
            &&& length > 0
            &&& forall|i: int|
                from <= i < start ==> #[trigger] automaton.longest_match(text, i) == 0
        },
    decreases text.len() - from,
{
    if from < text.len() {
        automaton.lemma_longest_match_bounds(text, from);
        if automaton.longest_match(text, from) == 0 {
            lemma_scan_first(automaton, text, from + 1);
        }
    }
}

/// What `is_match` and `first_match` return is what `matches` shows: there is a
/// match if and only if `matches` returns a span, and the first match is the
/// first of those spans.
pub proof fn lemma_first_match_is_first_span(
    automaton: Automaton,
    text: Seq<char>,
    span: Option<(usize, usize)>,
)
    requires
        text.len() <= usize::MAX,
        automaton.first_match(text, span),
    ensures
        automaton.matches_somewhere(text) <==> automaton.scan(text, 0).len() > 0,
        span is Some <==> automaton.scan(text, 0).len() > 0,
        span matches Some(found) ==> automaton.scan(text, 0)[0] == found,
{
    lemma_scan_first(automaton, text, 0);
    let spans = automaton.scan(text, 0);
    if spans.len() > 0 {
        let (start, length) = spans[0];
        assert(automaton.longest_match(text, start as int) > 0);
        match span {
            Some((first, size)) => {
                if first < start {
                    assert(automaton.longest_match(text, first as int) == 0);
                }
                if start < first {
                    assert(automaton.longest_match(text, start as int) == 0);
                }
            },
            None => {
                assert(automaton.longest_match(text, start as int) == 0);
            },
        }
    } else {
        if automaton.matches_somewhere(text) {
            let i = choose|i: int|
                0 <= i < text.len() && #[trigger] automaton.longest_match(text, i) > 0;
            assert(automaton.longest_match(text, i) == 0);
        }
        if let Some((first, size)) = span {
            assert(automaton.longest_match(text, first as int) == 0);
        }
    }
}

/// Matching reads the automaton and the text and nothing else: what two calls of
/// `matches` with the same automaton and the same text return is the same.
pub proof fn lemma_matches_repeatable(
    automaton: Automaton,
    text: Seq<char>,
    first: Seq<(usize, usize)>,
    second: Seq<(usize, usize)>,
)
    requires
        first == automaton.scan(text, 0),
        second == automaton.scan(text, 0),
    ensures
        first == second,
{
}

/// What two calls of `test` with the same automaton and the same text return is
/// the same.
pub proof fn lemma_test_repeatable(automaton: Automaton, text: Seq<char>, first: bool, second: bool)
    requires
        first == (automaton.longest_match(text, 0) == text.len()),
        second == (automaton.longest_match(text, 0) == text.len()),
    ensures
        first == second,
{
}

} // verus!
