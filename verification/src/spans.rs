//! Working with the spans that a scan returns: cutting the matched parts out of the
//! text, and writing the text with every match replaced.

use crate::lexer::chars_of;
use crate::text::{push_string, string_of};
use vstd::prelude::*;

verus! {

/// Whether the spans, pairs of start and length, lie between `from` and `len`, none
/// is empty, and each starts at or behind the end of the one before it.
pub open spec fn separate(spans: Seq<(usize, usize)>, from: int, len: int) -> bool {
    &&& forall|i: int|
        0 <= i < spans.len() ==> from <= (#[trigger] spans[i]).0 && spans[i].1 > 0 && spans[i].0
            + spans[i].1 <= len
    &&& forall|i: int, j: int|
        0 <= i < j < spans.len() ==> (#[trigger] spans[i]).0 + spans[i].1 <= (#[trigger] spans[j]).0
}

/// The text from `from` on, put together piece by piece: what stands before the
/// first span, the span, and the rest in the same way.
pub open spec fn stitched(text: Seq<char>, spans: Seq<(usize, usize)>, from: int) -> Seq<char>
    decreases spans.len(),
{
    if spans.len() == 0 {
        text.subrange(from, text.len() as int)
    } else {
        let (start, length) = spans[0];
        text.subrange(from, start as int) + text.subrange(start as int, start + length) + stitched(
            text,
            spans.drop_first(),
            start + length,
        )
    }
}

/// The text from `from` on with `with` in place of each span.
pub open spec fn replaced(
    text: Seq<char>,
    spans: Seq<(usize, usize)>,
    from: int,
    with: Seq<char>,
) -> Seq<char>
    decreases spans.len(),
{
    if spans.len() == 0 {
        text.subrange(from, text.len() as int)
    } else {
        let (start, length) = spans[0];
        text.subrange(from, start as int) + with + replaced(
            text,
            spans.drop_first(),
            start + length,
            with,
        )
    }
}

/// The part of the text that a span covers.
pub open spec fn covered(text: Seq<char>, span: (usize, usize)) -> Seq<char> {
    text.subrange(span.0 as int, span.0 + span.1)
}

/// Whether the spans lie in a text of `len` characters, none is empty, and each
/// starts at or behind the end of the one before it.
pub fn are_separate(spans: &Vec<(usize, usize)>, len: usize) -> (ok: bool)
    ensures
        ok == separate(spans@, 0, len as int),
{
    let mut floor: usize = 0;
    let mut k: usize = 0;
    while k < spans.len()
        invariant
            k <= spans.len(),
            floor <= len,
            separate(spans@.take(k as int), 0, len as int),
            k == 0 ==> floor == 0,
            k > 0 ==> floor == spans@[k as int - 1].0 + spans@[k as int - 1].1,
        decreases spans.len() - k,
    {
        let (start, length) = spans[k];
        if start < floor || length == 0 || start > len || length > len - start {
            proof {
                if separate(spans@, 0, len as int) {
                    if k > 0 {
                        assert(spans@[k as int - 1].0 + spans@[k as int - 1].1 <= spans@[k as int].0);
                    }
                    assert(spans@[k as int].1 > 0);
                    assert(spans@[k as int].0 + spans@[k as int].1 <= len);
                }
            }
            return false;
        }
        proof {
            let before = spans@.take(k as int);
            let after = spans@.take(k + 1);
            assert forall|i: int| 0 <= i < after.len() implies 0 <= (#[trigger] after[i]).0
                && after[i].1 > 0 && after[i].0 + after[i].1 <= len by {
                if i < k {
                    assert(after[i] == before[i]);
                }
            }
            assert forall|i: int, j: int| 0 <= i < j < after.len() implies (#[trigger] after[i]).0
                + after[i].1 <= (#[trigger] after[j]).0 by {
                assert(after[i] == spans@[i]);
                assert(after[j] == spans@[j]);
                if j < k {
                    assert(after[i] == before[i]);
                    assert(after[j] == before[j]);
                } else if i < k - 1 {
                    assert(after[i] == before[i]);
                    assert(before[k as int - 1] == spans@[k as int - 1]);
                }
            }
        }
        floor = start + length;
        k += 1;
    }
    proof {
        assert(spans@.take(spans.len() as int) =~= spans@);
    }
    true
}

/// Appends the characters of `chars` from `from` up to `to`.
fn push_range(chars: &Vec<char>, from: usize, to: usize, out: &mut Vec<char>)
    requires
        from <= to <= chars@.len(),
    ensures
        final(out)@ == old(out)@ + chars@.subrange(from as int, to as int),
{
    let mut i: usize = from;
    proof {
        assert(out@ =~= old(out)@ + chars@.subrange(from as int, from as int));
    }
    while i < to
        invariant
            from <= i <= to <= chars@.len(),
            out@ == old(out)@ + chars@.subrange(from as int, i as int),
        decreases to - i,
    {
        out.push(chars[i]);
        i += 1;
        proof {
            assert(out@ =~= old(out)@ + chars@.subrange(from as int, i as int));
        }
    }
}

/// The parts of `text` that the spans cover, in their order.
pub fn matched_parts(text: &str, spans: &Vec<(usize, usize)>) -> (parts: Vec<String>)
    requires
        separate(spans@, 0, text@.len() as int),
    ensures
        parts@.len() == spans@.len(),
        forall|k: int| 0 <= k < spans@.len() ==> (#[trigger] parts@[k])@ == covered(text@, spans@[k]),
{
    let chars = chars_of(text);
    let count = chars.len();
    let mut parts: Vec<String> = Vec::new();
    let mut k: usize = 0;
    while k < spans.len()
        invariant
            k <= spans.len(),
            chars@ == text@,
            chars@.len() == count,
            separate(spans@, 0, text@.len() as int),
            parts@.len() == k,
            forall|j: int| 0 <= j < k ==> (#[trigger] parts@[j])@ == covered(text@, spans@[j]),
        decreases spans.len() - k,
    {
        let (start, length) = spans[k];
        assert(spans@[k as int].0 + spans@[k as int].1 <= text@.len());
        let mut part: Vec<char> = Vec::new();
        push_range(&chars, start, start + length, &mut part);
        proof {
            assert(part@ =~= covered(text@, spans@[k as int]));
        }
        parts.push(string_of(&part));
        k += 1;
    }
    parts
}

/// `text` with `replacement` in place of everything that the spans cover.
pub fn replace_matches(text: &str, spans: &Vec<(usize, usize)>, replacement: &str) -> (result:
    String)
    requires
        separate(spans@, 0, text@.len() as int),
    ensures
        result@ == replaced(text@, spans@, 0, replacement@),
{
    let chars = chars_of(text);
    let count = chars.len();
    let mut out: Vec<char> = Vec::new();
    let mut i: usize = 0;
    let mut k: usize = 0;
    proof {
        assert(spans@.skip(0) =~= spans@);
        assert(out@ + replaced(text@, spans@.skip(0), 0, replacement@) =~= replaced(
            text@,
            spans@,
            0,
            replacement@,
        ));
    }
    while k < spans.len()
        invariant
            k <= spans.len(),
            i <= chars@.len(),
            chars@ == text@,
            chars@.len() == count,
            separate(spans@, 0, text@.len() as int),
            forall|j: int| k <= j < spans@.len() ==> i <= (#[trigger] spans@[j]).0,
            out@ + replaced(text@, spans@.skip(k as int), i as int, replacement@) == replaced(
                text@,
                spans@,
                0,
                replacement@,
            ),
        decreases spans.len() - k,
    {
        let (start, length) = spans[k];
        let ghost before = out@;
        proof {
            assert(spans@[k as int].0 + spans@[k as int].1 <= text@.len());
            assert(spans@.skip(k as int)[0] == spans@[k as int]);
            assert(spans@.skip(k as int).drop_first() =~= spans@.skip(k + 1));
        }
        push_range(&chars, i, start, &mut out);
        push_string(replacement, &mut out);
        proof {
            let tail = replaced(text@, spans@.skip(k + 1), start + length, replacement@);
            assert(out@ + tail =~= before + (text@.subrange(i as int, start as int) + replacement@
                + tail));
            assert forall|j: int| k + 1 <= j < spans@.len() implies start + length <= (
            #[trigger] spans@[j]).0 by {
                assert(spans@[k as int].0 + spans@[k as int].1 <= spans@[j].0);
            }
        }
        i = start + length;
        k += 1;
    }
    push_range(&chars, i, chars.len(), &mut out);
    proof {
        assert(spans@.skip(spans.len() as int) =~= Seq::<(usize, usize)>::empty());
    }
    string_of(&out)
}

} // verus!
