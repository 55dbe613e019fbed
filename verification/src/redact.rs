//! The redactor.
//!
//! Given a text and the ranges to keep, the redactor copies each range
//! verbatim and puts one placeholder in place of every gap: before a range
//! that starts behind the end of the one before it, and behind the last range
//! where the text goes on.

use vstd::prelude::*;
use vstd::slice::slice_subrange;
use crate::chars::{chars_of, string_of};
use crate::merge::{
    absorb, coalesced, lemma_coalesced_within, lemma_sorted_fixes_ascending, merged,
};
use crate::range::{all_within, chained, lemma_chained_ascends, spans, ByteRange, Span};

verus! {

/// The placeholder that `redact_json` puts in place of a gap: a JSON string.
pub const PLACEHOLDER: &'static str = "\"<REDACTED>\"";

/// What the placeholder holds between its quotes.
pub const REDACTED: &'static str = "<REDACTED>";

/// The placeholder is its content in quotes.
pub proof fn lemma_placeholder_is_quoted()
    ensures
        PLACEHOLDER@ == seq!['"'] + REDACTED@ + seq!['"'],
        REDACTED@.len() == 10,
        forall|k: int| 0 <= k < REDACTED@.len() ==> (#[trigger] REDACTED@[k]) != '"' && REDACTED@[k] != '\\',
{
    reveal_strlit("\"<REDACTED>\"");
    reveal_strlit("<REDACTED>");
    assert(PLACEHOLDER@ =~= seq!['"'] + REDACTED@ + seq!['"']);
}

/// Where the last of `ranges` ends; `start` where there is none.
pub open spec fn end_of(ranges: Seq<Span>, start: int) -> int {
    if ranges.len() == 0 {
        start
    } else {
        ranges.last().end
    }
}

/// What is written for the text between `last` and `next`: `mark` where
/// there is a gap, nothing where there is none.
pub open spec fn gap_mark(last: int, next: int, mark: Seq<char>) -> Seq<char> {
    if last < next {
        mark
    } else {
        Seq::empty()
    }
}

/// What redaction writes for `ranges`, when the text before them has been
/// dealt with up to `start`: each range of `text` verbatim, in the order of
/// the list, and `mark` in front of each one that starts behind the end of
/// the one before it.
pub open spec fn kept_text(text: Seq<char>, ranges: Seq<Span>, mark: Seq<char>, start: int) -> Seq<
    char,
>
    decreases ranges.len(),
{
    if ranges.len() == 0 {
        Seq::empty()
    } else {
        let before = ranges.drop_last();
        let r = ranges.last();
        kept_text(text, before, mark, start) + gap_mark(end_of(before, start), r.start, mark)
            + text.subrange(r.start, r.end)
    }
}

/// The redacted text: the ranges of `text` in the order of the list, each
/// copied verbatim, with `mark` in place of every gap, the one behind the
/// last range included.
pub open spec fn redacted(text: Seq<char>, ranges: Seq<Span>, mark: Seq<char>) -> Seq<char> {
    kept_text(text, ranges, mark, 0) + gap_mark(end_of(ranges, 0), text.len() as int, mark)
}

/// The end of the range before the one at index `k`; 0 for the first.
pub open spec fn end_before(ranges: Seq<Span>, k: int) -> int {
    if k <= 0 {
        0
    } else {
        ranges[k - 1].end
    }
}

/// How many of the first `k` ranges have a gap in front of them.
pub open spec fn gaps_before(ranges: Seq<Span>, k: int) -> nat
    decreases k,
{
    if k <= 0 {
        0
    } else if end_before(ranges, k - 1) < ranges[k - 1].start {
        gaps_before(ranges, k - 1) + 1
    } else {
        gaps_before(ranges, k - 1)
    }
}

/// How many code points the first `k` ranges hold together.
pub open spec fn kept_before(ranges: Seq<Span>, k: int) -> nat
    decreases k,
{
    if k <= 0 {
        0
    } else {
        kept_before(ranges, k - 1) + ranges[k - 1].len()
    }
}

/// How many placeholders redaction writes: one for each range with a gap in
/// front of it, and one more where the text goes on behind the last range.
pub open spec fn gap_count(ranges: Seq<Span>, text_len: int) -> nat {
    let n = ranges.len() as int;
    if end_before(ranges, n) < text_len {
        gaps_before(ranges, n) + 1
    } else {
        gaps_before(ranges, n)
    }
}

/// How many code points redaction has written when it comes to the range at
/// index `k`: the copies of the ranges before it, and a placeholder for each
/// gap in front of one of them.
pub open spec fn written_before(ranges: Seq<Span>, mark_len: nat, k: int) -> int {
    (kept_before(ranges, k) + gaps_before(ranges, k) * mark_len) as int
}

/// Where in the redacted text the copy of the range at index `k` starts:
/// behind what was written before, and behind the placeholder for the gap in
/// front of the range, if there is one.
pub open spec fn place_of(ranges: Seq<Span>, mark_len: nat, k: int) -> int {
    if end_before(ranges, k) < ranges[k].start {
        written_before(ranges, mark_len, k) + mark_len
    } else {
        written_before(ranges, mark_len, k)
    }
}

/// What is written for two lists of ranges, one behind the other, is what is
/// written for the first and then for the second.
pub proof fn lemma_kept_text_concat(
    text: Seq<char>,
    a: Seq<Span>,
    b: Seq<Span>,
    mark: Seq<char>,
    start: int,
)
    ensures
        kept_text(text, a + b, mark, start) == kept_text(text, a, mark, start) + kept_text(
            text,
            b,
            mark,
            end_of(a, start),
        ),
        end_of(a + b, start) == end_of(b, end_of(a, start)),
    decreases b.len(),
{
    if b.len() == 0 {
        assert(a + b =~= a);
        assert(kept_text(text, a, mark, start) + Seq::<char>::empty() =~= kept_text(
            text,
            a,
            mark,
            start,
        ));
    } else {
        let before = b.drop_last();
        lemma_kept_text_concat(text, a, before, mark, start);
        assert((a + b).drop_last() =~= a + before);
        assert((a + b).last() == b.last());
        let r = b.last();
        let gap = gap_mark(end_of(before, end_of(a, start)), r.start, mark);
        let copy = text.subrange(r.start, r.end);
        assert(kept_text(text, a, mark, start) + (kept_text(text, before, mark, end_of(a, start))
            + gap + copy) =~= (kept_text(text, a, mark, start) + kept_text(
            text,
            before,
            mark,
            end_of(a, start),
        )) + gap + copy);
    }
}

proof fn lemma_written_step(ranges: Seq<Span>, mark_len: nat, k: int)
    requires
        0 <= k < ranges.len(),
    ensures
        0 <= written_before(ranges, mark_len, k),
        written_before(ranges, mark_len, k + 1) == place_of(ranges, mark_len, k) + ranges[k].len(),
{
    let g = gaps_before(ranges, k);
    assert((g + 1) * mark_len == g * mark_len + mark_len) by (nonlinear_arith);
    assert(g * mark_len >= 0) by (nonlinear_arith)
        requires
            g >= 0,
            mark_len >= 0,
    ;
}

proof fn lemma_counts_of_prefix(ranges: Seq<Span>, n: int, k: int)
    requires
        0 <= k <= n <= ranges.len(),
    ensures
        kept_before(ranges.take(n), k) == kept_before(ranges, k),
        gaps_before(ranges.take(n), k) == gaps_before(ranges, k),
    decreases k,
{
    if k > 0 {
        lemma_counts_of_prefix(ranges, n, k - 1);
    }
}

proof fn lemma_kept_text_len(text: Seq<char>, ranges: Seq<Span>, mark: Seq<char>)
    requires
        all_within(ranges, text.len() as int),
    ensures
        kept_text(text, ranges, mark, 0).len() == written_before(
            ranges,
            mark.len(),
            ranges.len() as int,
        ),
    decreases ranges.len(),
{
    let n = ranges.len() as int;
    if n == 0 {
        assert(gaps_before(ranges, 0) * mark.len() == 0) by (nonlinear_arith)
            requires
                gaps_before(ranges, 0) == 0,
        ;
    } else {
        let before = ranges.drop_last();
        lemma_kept_text_len(text, before, mark);
        lemma_counts_of_prefix(ranges, n - 1, n - 1);
        lemma_written_step(ranges, mark.len(), n - 1);
        assert(ranges[n - 1].within(text.len() as int));
        assert(end_of(before, 0) == end_before(ranges, n - 1));
    }
}

proof fn lemma_kept_text_prefix(text: Seq<char>, ranges: Seq<Span>, mark: Seq<char>, k: int)
    requires
        all_within(ranges, text.len() as int),
        0 <= k <= ranges.len(),
    ensures
        kept_text(text, ranges.take(k), mark, 0).len() == written_before(ranges, mark.len(), k),
        kept_text(text, ranges.take(k), mark, 0).is_prefix_of(redacted(text, ranges, mark)),
{
    let head = ranges.take(k);
    let rest = ranges.skip(k);
    assert(head + rest =~= ranges);
    lemma_kept_text_concat(text, head, rest, mark, 0);
    lemma_kept_text_len(text, head, mark);
    lemma_counts_of_prefix(ranges, k, k);
}

/// The redacted text is as long as the ranges together and one placeholder
/// for each gap: nothing else is written, and nothing of a range is left
/// out.
pub proof fn lemma_redacted_len(text: Seq<char>, ranges: Seq<Span>, mark: Seq<char>)
    requires
        all_within(ranges, text.len() as int),
    ensures
        redacted(text, ranges, mark).len() == kept_before(ranges, ranges.len() as int) + gap_count(
            ranges,
            text.len() as int,
        ) * mark.len(),
{
    let n = ranges.len() as int;
    lemma_kept_text_len(text, ranges, mark);
    let g = gaps_before(ranges, n);
    assert((g + 1) * mark.len() == g * mark.len() + mark.len()) by (nonlinear_arith);
    assert(end_of(ranges, 0) == end_before(ranges, n));
}

/// Every range is in the redacted text verbatim, at its place: behind the
/// copies of the ranges before it and the placeholders up to it.
pub proof fn lemma_redacted_keeps_range(
    text: Seq<char>,
    ranges: Seq<Span>,
    mark: Seq<char>,
    k: int,
)
    requires
        all_within(ranges, text.len() as int),
        0 <= k < ranges.len(),
    ensures
        0 <= place_of(ranges, mark.len(), k),
        place_of(ranges, mark.len(), k) + ranges[k].len() <= redacted(text, ranges, mark).len(),
        redacted(text, ranges, mark).subrange(
            place_of(ranges, mark.len(), k),
            place_of(ranges, mark.len(), k) + ranges[k].len(),
        ) == text.subrange(ranges[k].start, ranges[k].end),
{
    let out = redacted(text, ranges, mark);
    let r = ranges[k];
    assert(r.within(text.len() as int));
    lemma_kept_text_prefix(text, ranges, mark, k);
    lemma_kept_text_prefix(text, ranges, mark, k + 1);
    lemma_written_step(ranges, mark.len(), k);
    let upto = kept_text(text, ranges.take(k + 1), mark, 0);
    assert(ranges.take(k + 1).drop_last() =~= ranges.take(k));
    assert(end_of(ranges.take(k), 0) == end_before(ranges, k));
    let place = place_of(ranges, mark.len(), k);
    let len: int = r.len() as int;
    assert(upto.subrange(place, place + len) =~= text.subrange(r.start, r.end));
    assert(out.subrange(place, place + len) =~= upto.subrange(place, place + len));
}

/// Every placeholder is in the redacted text, directly in front of the range
/// whose gap it fills.
pub proof fn lemma_redacted_marks_gap(
    text: Seq<char>,
    ranges: Seq<Span>,
    mark: Seq<char>,
    k: int,
)
    requires
        all_within(ranges, text.len() as int),
        0 <= k < ranges.len(),
        end_before(ranges, k) < ranges[k].start,
    ensures
        0 <= place_of(ranges, mark.len(), k) - mark.len(),
        place_of(ranges, mark.len(), k) <= redacted(text, ranges, mark).len(),
        redacted(text, ranges, mark).subrange(
            place_of(ranges, mark.len(), k) - mark.len(),
            place_of(ranges, mark.len(), k),
        ) == mark,
{
    let out = redacted(text, ranges, mark);
    let r = ranges[k];
    assert(r.within(text.len() as int));
    lemma_kept_text_prefix(text, ranges, mark, k);
    lemma_kept_text_prefix(text, ranges, mark, k + 1);
    lemma_written_step(ranges, mark.len(), k);
    let upto = kept_text(text, ranges.take(k + 1), mark, 0);
    assert(ranges.take(k + 1).drop_last() =~= ranges.take(k));
    assert(end_of(ranges.take(k), 0) == end_before(ranges, k));
    let place = place_of(ranges, mark.len(), k);
    let len: int = mark.len() as int;
    assert(upto.subrange(place - len, place) =~= mark);
    assert(out.subrange(place - len, place) =~= upto.subrange(place - len, place));
}

proof fn lemma_coalesced_keeps_text(text: Seq<char>, s: Seq<Span>, mark: Seq<char>, start: int)
    requires
        chained(s),
        all_within(s, text.len() as int),
        s.len() > 0 ==> start <= s[0].start,
    ensures
        kept_text(text, coalesced(s), mark, start) == kept_text(text, s, mark, start),
        end_of(coalesced(s), start) == end_of(s, start),
        s.len() > 0 ==> coalesced(s).len() > 0,
    decreases s.len(),
{
    if s.len() > 0 {
        let before = s.drop_last();
        let x = s.last();
        assert(forall|i: int| 0 <= i < before.len() ==> before[i] == s[i]);
        assert(chained(before)) by {
            assert forall|i: int| 0 <= i < before.len() - 1 implies (#[trigger] before[i]).end
                <= before[i + 1].start by {
                assert(s[i].end <= s[i + 1].start);
            }
        }
        lemma_coalesced_keeps_text(text, before, mark, start);
        let acc = coalesced(before);
        assert(x.within(text.len() as int));
        if before.len() > 0 {
            assert(before.last() == s[s.len() - 2]);
            assert(s[s.len() - 2].end <= s[s.len() - 2 + 1].start);
        }
        if acc.len() > 0 && x.start <= acc.last().end {
            let last = acc.last();
            let fused = Span { start: last.start, end: x.end };
            let out = absorb(acc, x);
            assert(last.end == x.start);
            assert(out == acc.update(acc.len() - 1, fused));
            assert(out.drop_last() =~= acc.drop_last());
            assert(out.last() == fused);
            lemma_coalesced_within(before, text.len() as int);
            assert(acc[acc.len() - 1].within(text.len() as int));
            assert(text.subrange(last.start, x.end) =~= text.subrange(last.start, last.end)
                + text.subrange(x.start, x.end));
            let head = kept_text(text, acc.drop_last(), mark, start) + gap_mark(
                end_of(acc.drop_last(), start),
                last.start,
                mark,
            );
            assert(head + (text.subrange(last.start, last.end) + text.subrange(x.start, x.end))
                =~= head + text.subrange(last.start, last.end) + text.subrange(x.start, x.end));
            assert(kept_text(text, s, mark, start) =~= kept_text(text, before, mark, start)
                + text.subrange(x.start, x.end));
        } else {
            let out = acc.push(x);
            assert(out.drop_last() =~= acc);
        }
    }
}

/// Where each range ends before or where the next starts, merging changes
/// nothing of what redaction writes: ranges that touch are copied one behind
/// the other with no placeholder between them, as the one range that they
/// merge into is.
pub proof fn lemma_merge_keeps_redaction(text: Seq<char>, ranges: Seq<Span>, mark: Seq<char>)
    requires
        chained(ranges),
        all_within(ranges, text.len() as int),
    ensures
        redacted(text, merged(ranges), mark) == redacted(text, ranges, mark),
{
    lemma_chained_ascends(ranges);
    lemma_sorted_fixes_ascending(ranges);
    if ranges.len() > 0 {
        assert(ranges[0].within(text.len() as int));
    }
    lemma_coalesced_keeps_text(text, ranges, mark, 0);
}

/// Redacts `text`: the text of each range of `ranges`, in the order of the
/// list, with `mark` in place of every gap.
pub fn redact_chars(text: &[char], ranges: &[ByteRange], mark: &[char]) -> (out: Vec<char>)
    requires
        all_within(spans(ranges@), text@.len() as int),
    ensures
        out@ == redacted(text@, spans(ranges@), mark@),
{
    let ghost plan = spans(ranges@);
    let mut out: Vec<char> = Vec::new();
    let mut last: usize = 0;
    let mut k: usize = 0;
    while k < ranges.len()
        invariant
            k <= ranges.len(),
            plan == spans(ranges@),
            all_within(plan, text@.len() as int),
            last <= text@.len(),
            last == end_of(plan.take(k as int), 0),
            out@ == kept_text(text@, plan.take(k as int), mark@, 0),
        decreases ranges.len() - k,
    {
        let r = ranges[k];
        assert(plan[k as int].within(text@.len() as int));
        assert(plan.take(k + 1).drop_last() =~= plan.take(k as int));
        if last < r[0] {
            out.extend_from_slice(mark);
        }
        out.extend_from_slice(slice_subrange(text, r[0], r[1]));
        last = r[1];
        k += 1;
    }
    assert(plan.take(k as int) =~= plan);
    if last < text.len() {
        out.extend_from_slice(mark);
    }
    out
}

/// Redacts `json`: the text of each range of `ranges`, in the order of the
/// list, with `placeholder` in place of every gap. Offsets count code
/// points.
pub fn redact(json: &str, ranges: &[ByteRange], placeholder: &str) -> (out: String)
    requires
        all_within(spans(ranges@), json@.len() as int),
    ensures
        out@ == redacted(json@, spans(ranges@), placeholder@),
{
    let text = chars_of(json);
    let mark = chars_of(placeholder);
    let out = redact_chars(text.as_slice(), ranges, mark.as_slice());
    string_of(out.as_slice())
}

/// Redacts `json` as `redact` does, where every range of `ranges` is ordered
/// and ends inside the text; `None` where one is not.
pub fn try_redact(json: &str, ranges: &[ByteRange], placeholder: &str) -> (out: Option<String>)
    ensures
        (out is Some) <==> all_within(spans(ranges@), json@.len() as int),
        out matches Some(s) ==> s@ == redacted(json@, spans(ranges@), placeholder@),
{
    let text = chars_of(json);
    let mut k: usize = 0;
    while k < ranges.len()
        invariant
            k <= ranges.len(),
            text@ == json@,
            forall|i: int| 0 <= i < k ==> (#[trigger] spans(ranges@)[i]).within(text@.len() as int),
        decreases ranges.len() - k,
    {
        let r = ranges[k];
        if r[0] > r[1] || r[1] > text.len() {
            assert(!spans(ranges@)[k as int].within(text@.len() as int));
            return None;
        }
        k += 1;
    }
    let mark = chars_of(placeholder);
    let out = redact_chars(text.as_slice(), ranges, mark.as_slice());
    Some(string_of(out.as_slice()))
}

/// Redacts `json` with the placeholder `"<REDACTED>"`, quotes included.
pub fn redact_json(json: &str, ranges: Vec<ByteRange>) -> (out: String)
    requires
        all_within(spans(ranges@), json@.len() as int),
    ensures
        out@ == redacted(json@, spans(ranges@), PLACEHOLDER@),
{
    redact(json, ranges.as_slice(), PLACEHOLDER)
}

} // verus!
