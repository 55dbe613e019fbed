//! Merging ranges into a minimal ascending list.
//!
//! The ranges are put in order of their starts, ranges with the same start
//! keeping their order, and then folded from the left: a range that starts at
//! or before the end of the last merged range extends it, any other range
//! opens a new one.

use vstd::prelude::*;
use crate::range::{ByteRange, Span, all_ordered, all_within, ascending, covers, range, separated, span_of, spans};

verus! {

/// `x` placed in `s` behind every interval that does not start after it.
pub open spec fn insert_by_start(s: Seq<Span>, x: Span) -> Seq<Span>
    decreases s.len(),
{
    if s.len() > 0 && x.start < s.last().start {
        insert_by_start(s.drop_last(), x).push(s.last())
    } else {
        s.push(x)
    }
}

/// The intervals of `s` in order of their starts; intervals with the same
/// start stay in the order they had in `s`.
pub open spec fn sorted_by_start(s: Seq<Span>) -> Seq<Span>
    decreases s.len(),
{
    if s.len() == 0 {
        s
    } else {
        insert_by_start(sorted_by_start(s.drop_last()), s.last())
    }
}

/// One step of the fold: `x` extends the last interval of `acc` when it starts
/// at or before that interval's end, and is appended otherwise.
pub open spec fn absorb(acc: Seq<Span>, x: Span) -> Seq<Span> {
    if acc.len() > 0 && x.start <= acc.last().end {
        let last = acc.last();
        acc.update(
            acc.len() - 1,
            Span { start: last.start, end: if x.end > last.end { x.end } else { last.end } },
        )
    } else {
        acc.push(x)
    }
}

/// The left fold of `absorb` over `s`.
pub open spec fn coalesced(s: Seq<Span>) -> Seq<Span>
    decreases s.len(),
{
    if s.len() == 0 {
        s
    } else {
        absorb(coalesced(s.drop_last()), s.last())
    }
}

/// What merging makes of `s`: the fold over the intervals in order of start.
pub open spec fn merged(s: Seq<Span>) -> Seq<Span> {
    coalesced(sorted_by_start(s))
}

/// A list that is what merging leaves: no interval inverted, and each one
/// ending strictly before the next starts.
pub open spec fn normal(s: Seq<Span>) -> bool {
    all_ordered(s) && separated(s)
}

/// Two lists as one: each time the last of the two last elements comes
/// last, the one of `r` where their starts are equal.
spec fn interleaved(l: Seq<Span>, r: Seq<Span>) -> Seq<Span>
    decreases l.len() + r.len(),
{
    if r.len() == 0 {
        l
    } else if l.len() == 0 {
        r
    } else if r.last().start >= l.last().start {
        interleaved(l, r.drop_last()).push(r.last())
    } else {
        interleaved(l.drop_last(), r).push(l.last())
    }
}

proof fn lemma_insert_into_interleaved(l: Seq<Span>, r: Seq<Span>, x: Span)
    ensures
        insert_by_start(interleaved(l, r), x) == interleaved(l, insert_by_start(r, x)),
    decreases l.len() + r.len(),
{
    let none = Seq::<Span>::empty();
    if r.len() == 0 {
        let rx = r.push(x);
        assert(insert_by_start(r, x) == rx);
        assert(rx.drop_last() =~= r);
        assert(rx.last() == x);
        assert(interleaved(l, r) == l);
        if l.len() == 0 {
            assert(interleaved(l, rx) == rx);
            assert(l.push(x) =~= rx);
        } else if x.start >= l.last().start {
            assert(interleaved(l, rx) == interleaved(l, r).push(x));
        } else {
            lemma_insert_into_interleaved(l.drop_last(), r, x);
            assert(interleaved(l.drop_last(), r) == l.drop_last());
            assert(insert_by_start(l, x) == insert_by_start(l.drop_last(), x).push(l.last()));
            assert(interleaved(l, rx) == interleaved(l.drop_last(), rx).push(l.last()));
        }
    } else if l.len() == 0 {
        assert(interleaved(l, r) == r);
        let rx = insert_by_start(r, x);
        assert(rx.len() > 0);
        assert(interleaved(l, rx) == rx);
    } else if x.start >= r.last().start {
        let rx = r.push(x);
        assert(insert_by_start(r, x) == rx);
        assert(rx.drop_last() =~= r);
        assert(rx.last() == x);
        let m = interleaved(l, r);
        if x.start >= l.last().start {
            assert(interleaved(l, rx) == m.push(x));
            assert(m.len() > 0 && (m.last() == r.last() || m.last() == l.last()));
            assert(insert_by_start(m, x) == m.push(x));
        } else {
            // the start of `r.last()` is at most that of `x`, which is below that of `l.last()`
            let inner = interleaved(l.drop_last(), r);
            assert(m == inner.push(l.last()));
            assert(m.drop_last() =~= inner);
            assert(insert_by_start(m, x) == insert_by_start(inner, x).push(l.last()));
            lemma_insert_into_interleaved(l.drop_last(), r, x);
            assert(interleaved(l, rx) == interleaved(l.drop_last(), rx).push(l.last()));
        }
    } else {
        let rx = insert_by_start(r.drop_last(), x).push(r.last());
        assert(insert_by_start(r, x) == rx);
        assert(rx.drop_last() =~= insert_by_start(r.drop_last(), x));
        assert(rx.last() == r.last());
        let m = interleaved(l, r);
        if r.last().start >= l.last().start {
            let inner = interleaved(l, r.drop_last());
            assert(m == inner.push(r.last()));
            assert(m.drop_last() =~= inner);
            assert(insert_by_start(m, x) == insert_by_start(inner, x).push(r.last()));
            lemma_insert_into_interleaved(l, r.drop_last(), x);
            assert(interleaved(l, rx) == interleaved(l, rx.drop_last()).push(r.last()));
        } else {
            let inner = interleaved(l.drop_last(), r);
            assert(m == inner.push(l.last()));
            assert(m.drop_last() =~= inner);
            assert(insert_by_start(m, x) == insert_by_start(inner, x).push(l.last()));
            lemma_insert_into_interleaved(l.drop_last(), r, x);
            assert(interleaved(l, rx) == interleaved(l.drop_last(), rx).push(l.last()));
        }
    }
}

proof fn lemma_sorted_of_concat(a: Seq<Span>, b: Seq<Span>)
    ensures
        sorted_by_start(a + b) == interleaved(sorted_by_start(a), sorted_by_start(b)),
    decreases b.len(),
{
    if b.len() == 0 {
        assert(a + b =~= a);
    } else {
        assert((a + b).drop_last() =~= a + b.drop_last());
        lemma_sorted_of_concat(a, b.drop_last());
        lemma_insert_into_interleaved(
            sorted_by_start(a),
            sorted_by_start(b.drop_last()),
            b.last(),
        );
    }
}

proof fn lemma_insert_keeps_order(s: Seq<Span>, x: Span)
    requires
        ascending(s),
    ensures
        ascending(insert_by_start(s, x)),
        insert_by_start(s, x).len() == s.len() + 1,
        insert_by_start(s, x).to_multiset() == s.to_multiset().insert(x),
    decreases s.len(),
{
    broadcast use vstd::seq_lib::group_to_multiset_ensures;

    let r = insert_by_start(s, x);
    if s.len() > 0 && x.start < s.last().start {
        let init = s.drop_last();
        lemma_insert_keeps_order(init, x);
        let ri = insert_by_start(init, x);
        assert(r == ri.push(s.last()));
        assert(s == init.push(s.last()));
        assert forall|i: int| 0 <= i < ri.len() implies (#[trigger] ri[i]).start <= s.last().start by {
            assert(ri.to_multiset().count(ri[i]) > 0);
            if ri[i] != x {
                assert(init.to_multiset().count(ri[i]) > 0);
                assert(init.contains(ri[i]));
                let k = choose|k: int| 0 <= k < init.len() && init[k] == ri[i];
                assert(s[k] == init[k]);
                assert(s[k].start <= s[s.len() - 1].start);
            }
        }
        assert(ri.push(s.last()).to_multiset() == ri.to_multiset().insert(s.last()));
        assert(init.push(s.last()).to_multiset() == init.to_multiset().insert(s.last()));
        assert(r.to_multiset() =~= s.to_multiset().insert(x));
    } else {
        assert(r == s.push(x));
        if s.len() > 0 {
            assert forall|i: int| 0 <= i < s.len() implies (#[trigger] s[i]).start <= x.start by {
                assert(s[i].start <= s[s.len() - 1].start);
            }
        }
    }
}

/// Ordering by start leaves the starts ascending and neither adds nor drops
/// an interval.
pub proof fn lemma_sorted_is_ordered(s: Seq<Span>)
    ensures
        ascending(sorted_by_start(s)),
        sorted_by_start(s).len() == s.len(),
        sorted_by_start(s).to_multiset() == s.to_multiset(),
    decreases s.len(),
{
    broadcast use vstd::seq_lib::group_to_multiset_ensures;

    if s.len() > 0 {
        lemma_sorted_is_ordered(s.drop_last());
        lemma_insert_keeps_order(sorted_by_start(s.drop_last()), s.last());
        assert(s == s.drop_last().push(s.last()));
        assert(s.drop_last().push(s.last()).to_multiset() == s.drop_last().to_multiset().insert(
            s.last(),
        ));
    }
}

/// A list whose starts already ascend is left as it is.
pub proof fn lemma_sorted_fixes_ascending(s: Seq<Span>)
    requires
        ascending(s),
    ensures
        sorted_by_start(s) == s,
    decreases s.len(),
{
    if s.len() > 0 {
        let init = s.drop_last();
        lemma_sorted_fixes_ascending(init);
        if init.len() > 0 {
            assert(init.last() == s[s.len() - 2]);
            assert(s[s.len() - 2].start <= s[s.len() - 1].start);
        }
        assert(init.push(s.last()) =~= s);
    }
}

proof fn lemma_coalesced_len(s: Seq<Span>)
    ensures
        coalesced(s).len() <= s.len(),
        s.len() > 0 ==> coalesced(s).len() > 0,
    decreases s.len(),
{
    if s.len() > 0 {
        lemma_coalesced_len(s.drop_last());
    }
}

proof fn lemma_coalesced_separated(s: Seq<Span>)
    ensures
        separated(coalesced(s)),
    decreases s.len(),
{
    if s.len() > 0 {
        lemma_coalesced_separated(s.drop_last());
        let acc = coalesced(s.drop_last());
        let out = absorb(acc, s.last());
        assert forall|i: int| 0 <= i < out.len() - 1 implies (#[trigger] out[i]).end < out[i
            + 1].start by {
            if i < acc.len() - 1 {
                assert(acc[i].end < acc[i + 1].start);
            }
        }
    }
}

proof fn lemma_coalesced_ordered(s: Seq<Span>)
    requires
        all_ordered(s),
    ensures
        all_ordered(coalesced(s)),
    decreases s.len(),
{
    if s.len() > 0 {
        let init = s.drop_last();
        assert(forall|i: int| 0 <= i < init.len() ==> init[i] == s[i]);
        lemma_coalesced_ordered(init);
        let acc = coalesced(init);
        let out = absorb(acc, s.last());
        assert(s[s.len() - 1].ordered());
        assert forall|i: int| 0 <= i < out.len() implies (#[trigger] out[i]).ordered() by {
            if i < acc.len() {
                assert(acc[i].ordered());
            }
        }
    }
}

proof fn lemma_coalesced_ascending(s: Seq<Span>)
    requires
        ascending(s),
    ensures
        ascending(coalesced(s)),
        s.len() > 0 ==> coalesced(s).len() > 0 && coalesced(s).last().start <= s.last().start,
    decreases s.len(),
{
    if s.len() > 0 {
        let init = s.drop_last();
        let x = s.last();
        assert(forall|i: int| 0 <= i < init.len() ==> init[i] == s[i]);
        lemma_coalesced_ascending(init);
        let acc = coalesced(init);
        let out = absorb(acc, x);
        if init.len() > 0 {
            assert(init.last() == s[s.len() - 2]);
            assert(s[s.len() - 2].start <= s[s.len() - 1].start);
        }
        assert forall|i: int, j: int| 0 <= i <= j < out.len() implies (#[trigger] out[i]).start
            <= (#[trigger] out[j]).start by {
            if j < acc.len() {
                assert(acc[i].start <= acc[j].start);
            } else if i < acc.len() {
                assert(acc[i].start <= acc[acc.len() - 1].start);
            }
        }
    }
}

proof fn lemma_coalesced_shape(s: Seq<Span>)
    requires
        ascending(s),
    ensures
        separated(coalesced(s)),
        ascending(coalesced(s)),
        coalesced(s).len() <= s.len(),
        s.len() > 0 ==> coalesced(s).len() > 0 && coalesced(s).last().start <= s.last().start,
        all_ordered(s) ==> all_ordered(coalesced(s)),
{
    lemma_coalesced_len(s);
    lemma_coalesced_separated(s);
    lemma_coalesced_ascending(s);
    if all_ordered(s) {
        lemma_coalesced_ordered(s);
    }
}

/// A list in which each interval ends strictly before the next starts is left
/// as it is by the fold.
pub proof fn lemma_coalesced_fixes_separated(s: Seq<Span>)
    requires
        separated(s),
    ensures
        coalesced(s) == s,
    decreases s.len(),
{
    if s.len() > 0 {
        let init = s.drop_last();
        assert forall|i: int| 0 <= i < init.len() - 1 implies (#[trigger] init[i]).end < init[i
            + 1].start by {
            assert(s[i].end < s[i + 1].start);
        }
        lemma_coalesced_fixes_separated(init);
        if init.len() > 0 {
            assert(init.last() == s[s.len() - 2]);
            assert(s[s.len() - 2].end < s[s.len() - 2 + 1].start);
        }
        assert(init.push(s.last()) =~= s);
    }
}

proof fn lemma_coalesced_covers(s: Seq<Span>, x: int)
    requires
        ascending(s),
    ensures
        covers(coalesced(s), x) == covers(s, x),
    decreases s.len(),
{
    if s.len() > 0 {
        let init = s.drop_last();
        let cur = s.last();
        assert(forall|i: int| 0 <= i < init.len() ==> init[i] == s[i]);
        lemma_coalesced_covers(init, x);
        lemma_coalesced_shape(init);
        let acc = coalesced(init);
        let out = absorb(acc, cur);
        if init.len() > 0 {
            assert(init.last() == s[s.len() - 2]);
            assert(s[s.len() - 2].start <= s[s.len() - 1].start);
        }
        // what `s` covers is what `init` covers, and what `cur` holds
        assert(covers(s, x) == (covers(init, x) || cur.holds(x))) by {
            if covers(s, x) {
                let i = choose|i: int| 0 <= i < s.len() && (#[trigger] s[i]).holds(x);
                if i < init.len() {
                    assert(init[i].holds(x));
                }
            }
            if covers(init, x) {
                let i = choose|i: int| 0 <= i < init.len() && (#[trigger] init[i]).holds(x);
                assert(s[i].holds(x));
            }
            if cur.holds(x) {
                assert(s[s.len() - 1].holds(x));
            }
        }
        // and the same of `out`, `acc` and `cur`
        assert(covers(out, x) == (covers(acc, x) || cur.holds(x))) by {
            if acc.len() > 0 && cur.start <= acc.last().end {
                let n = acc.len() - 1;
                if covers(out, x) {
                    let i = choose|i: int| 0 <= i < out.len() && (#[trigger] out[i]).holds(x);
                    if i < n {
                        assert(acc[i].holds(x));
                    } else if x < acc[n].end {
                        assert(acc[n].holds(x));
                    }
                }
                if covers(acc, x) {
                    let i = choose|i: int| 0 <= i < acc.len() && (#[trigger] acc[i]).holds(x);
                    assert(out[i].holds(x));
                }
                if cur.holds(x) {
                    assert(out[n].holds(x));
                }
            } else {
                if covers(out, x) {
                    let i = choose|i: int| 0 <= i < out.len() && (#[trigger] out[i]).holds(x);
                    if i < acc.len() {
                        assert(acc[i].holds(x));
                    }
                }
                if covers(acc, x) {
                    let i = choose|i: int| 0 <= i < acc.len() && (#[trigger] acc[i]).holds(x);
                    assert(out[i].holds(x));
                }
                if cur.holds(x) {
                    assert(out[out.len() - 1].holds(x));
                }
            }
        }
    }
}

/// Intervals inside a text stay inside it under the fold.
pub proof fn lemma_coalesced_within(s: Seq<Span>, len: int)
    requires
        all_within(s, len),
    ensures
        all_within(coalesced(s), len),
    decreases s.len(),
{
    if s.len() > 0 {
        let init = s.drop_last();
        assert(forall|i: int| 0 <= i < init.len() ==> init[i] == s[i]);
        lemma_coalesced_within(init, len);
        let acc = coalesced(init);
        let out = absorb(acc, s.last());
        assert(s[s.len() - 1].within(len));
        assert forall|i: int| 0 <= i < out.len() implies (#[trigger] out[i]).within(len) by {
            if i < acc.len() {
                assert(acc[i].within(len));
            }
        }
    }
}

proof fn lemma_same_members_cover(a: Seq<Span>, b: Seq<Span>, x: int)
    requires
        a.to_multiset() == b.to_multiset(),
    ensures
        covers(a, x) ==> covers(b, x),
{
    broadcast use vstd::seq_lib::group_to_multiset_ensures;

    if covers(a, x) {
        let i = choose|i: int| 0 <= i < a.len() && (#[trigger] a[i]).holds(x);
        assert(a.to_multiset().count(a[i]) > 0);
        assert(b.contains(a[i]));
        let j = choose|j: int| 0 <= j < b.len() && b[j] == a[i];
        assert(b[j].holds(x));
    }
}

proof fn lemma_same_members_within(a: Seq<Span>, b: Seq<Span>, len: int)
    requires
        a.to_multiset() == b.to_multiset(),
        all_within(a, len),
    ensures
        all_within(b, len),
{
    broadcast use vstd::seq_lib::group_to_multiset_ensures;

    assert forall|j: int| 0 <= j < b.len() implies (#[trigger] b[j]).within(len) by {
        assert(b.to_multiset().count(b[j]) > 0);
        assert(a.contains(b[j]));
        let i = choose|i: int| 0 <= i < a.len() && a[i] == b[j];
        assert(a[i].within(len));
    }
}

proof fn lemma_same_members_ordered(a: Seq<Span>, b: Seq<Span>)
    requires
        a.to_multiset() == b.to_multiset(),
        all_ordered(a),
    ensures
        all_ordered(b),
{
    broadcast use vstd::seq_lib::group_to_multiset_ensures;

    assert forall|j: int| 0 <= j < b.len() implies (#[trigger] b[j]).ordered() by {
        assert(b.to_multiset().count(b[j]) > 0);
        assert(a.contains(b[j]));
        let i = choose|i: int| 0 <= i < a.len() && a[i] == b[j];
        assert(a[i].ordered());
    }
}

/// In a normal list the starts ascend strictly.
pub proof fn lemma_normal_starts_ascend(m: Seq<Span>)
    requires
        normal(m),
    ensures
        forall|i: int| 0 <= i < m.len() - 1 ==> (#[trigger] m[i]).start < m[i + 1].start,
{
    assert forall|i: int| 0 <= i < m.len() - 1 implies (#[trigger] m[i]).start < m[i + 1].start by {
        assert(m[i].ordered());
        assert(m[i].end < m[i + 1].start);
    }
}

/// In a merged list each interval ends strictly before the next one starts:
/// no two overlap and no two touch. The starts ascend, and the list is normal
/// where no interval of the input is inverted.
pub proof fn lemma_merged_is_separated(s: Seq<Span>)
    ensures
        separated(merged(s)),
        ascending(merged(s)),
        merged(s).len() <= s.len(),
        all_ordered(s) ==> normal(merged(s)),
{
    let sorted = sorted_by_start(s);
    lemma_sorted_is_ordered(s);
    lemma_coalesced_shape(sorted);
    if all_ordered(s) {
        lemma_same_members_ordered(s, sorted);
    }
}

/// Merging is idempotent: a merged list, merged again, is unchanged.
pub proof fn lemma_merge_idempotent(s: Seq<Span>)
    ensures
        merged(merged(s)) == merged(s),
{
    lemma_merged_is_separated(s);
    lemma_sorted_fixes_ascending(merged(s));
    lemma_coalesced_fixes_separated(merged(s));
}

/// A list that is already normal and ascending is its own merge.
pub proof fn lemma_merge_fixes_normal(s: Seq<Span>)
    requires
        ascending(s),
        separated(s),
    ensures
        merged(s) == s,
{
    lemma_sorted_fixes_ascending(s);
    lemma_coalesced_fixes_separated(s);
}

/// Merging neither uncovers an offset nor covers a new one.
pub proof fn lemma_merge_keeps_cover(s: Seq<Span>, x: int)
    ensures
        covers(merged(s), x) == covers(s, x),
{
    lemma_sorted_is_ordered(s);
    lemma_same_members_cover(s, sorted_by_start(s), x);
    lemma_same_members_cover(sorted_by_start(s), s, x);
    lemma_coalesced_covers(sorted_by_start(s), x);
}

/// Intervals inside a text stay inside it when merged.
pub proof fn lemma_merge_stays_within(s: Seq<Span>, len: int)
    requires
        all_within(s, len),
    ensures
        all_within(merged(s), len),
{
    lemma_sorted_is_ordered(s);
    lemma_same_members_within(s, sorted_by_start(s), len);
    lemma_coalesced_within(sorted_by_start(s), len);
}

proof fn lemma_interleaved_last(l: Seq<Span>, r: Seq<Span>, i: int, j: int)
    requires
        0 <= i <= l.len(),
        0 <= j <= r.len(),
        i + j > 0,
    ensures
        j > 0 && (i == 0 || r[j - 1].start >= l[i - 1].start) ==> interleaved(
            l.take(i),
            r.take(j),
        ) == interleaved(l.take(i), r.take(j - 1)).push(r[j - 1]),
        i > 0 && (j == 0 || r[j - 1].start < l[i - 1].start) ==> interleaved(
            l.take(i),
            r.take(j),
        ) == interleaved(l.take(i - 1), r.take(j)).push(l[i - 1]),
{
    let lt = l.take(i);
    let rt = r.take(j);
    if j > 0 {
        assert(rt.drop_last() =~= r.take(j - 1));
        assert(rt.last() == r[j - 1]);
    }
    if i > 0 {
        assert(lt.drop_last() =~= l.take(i - 1));
        assert(lt.last() == l[i - 1]);
    }
    if j > 0 && i == 0 {
        assert(interleaved(lt, rt) == rt);
        assert(interleaved(lt, rt.drop_last()) == rt.drop_last());
        assert(rt.drop_last().push(rt.last()) =~= rt);
    }
    if i > 0 && j == 0 {
        assert(interleaved(lt, rt) == lt);
        assert(interleaved(lt.drop_last(), rt) == lt.drop_last());
        assert(lt.drop_last().push(lt.last()) =~= lt);
    }
}

proof fn lemma_filled_from_the_back(out: Seq<ByteRange>, k: int, x: ByteRange, head: Seq<Span>)
    requires
        0 <= k < out.len(),
    ensures
        head + spans(out.update(k, x)).subrange(k, out.len() as int) == head.push(span_of(x))
            + spans(out).subrange(k + 1, out.len() as int),
{
    let n = out.len() as int;
    let done = spans(out).subrange(k + 1, n);
    assert(spans(out.update(k, x)).subrange(k, n) =~= seq![span_of(x)] + done);
    assert(head.push(span_of(x)) + done =~= head + (seq![span_of(x)] + done));
}

fn interleave(left: &Vec<ByteRange>, right: &Vec<ByteRange>) -> (out: Vec<ByteRange>)
    requires
        left.len() + right.len() <= usize::MAX,
    ensures
        spans(out@) == interleaved(spans(left@), spans(right@)),
{
    let n = left.len() + right.len();
    let ghost l = spans(left@);
    let ghost r = spans(right@);
    let mut out: Vec<ByteRange> = vec![range(0, 0); n];
    let mut i = left.len();
    let mut j = right.len();
    proof {
        assert(l.take(i as int) =~= l);
        assert(r.take(j as int) =~= r);
        assert(interleaved(l, r) + spans(out@).subrange(n as int, n as int) =~= interleaved(l, r));
    }
    while i + j > 0
        invariant
            i <= left.len(),
            j <= right.len(),
            out.len() == n,
            n == left.len() + right.len(),
            l == spans(left@),
            r == spans(right@),
            interleaved(l, r) == interleaved(l.take(i as int), r.take(j as int)) + spans(
                out@,
            ).subrange(i + j, n as int),
        decreases i + j,
    {
        let ghost before = out@;
        proof {
            lemma_interleaved_last(l, r, i as int, j as int);
        }
        let from_right = j > 0 && (i == 0 || right[j - 1][0] >= left[i - 1][0]);
        let x = if from_right {
            right[j - 1]
        } else {
            left[i - 1]
        };
        out.set(i + j - 1, x);
        if from_right {
            j -= 1;
        } else {
            i -= 1;
        }
        proof {
            lemma_filled_from_the_back(
                before,
                i + j,
                x,
                interleaved(l.take(i as int), r.take(j as int)),
            );
        }
    }
    proof {
        assert(l.take(0) =~= Seq::<Span>::empty());
        assert(r.take(0) =~= Seq::<Span>::empty());
        assert(interleaved(l.take(0), r.take(0)) + spans(out@).subrange(0, n as int) =~= spans(
            out@,
        ));
    }
    out
}

fn sort_run(ranges: &Vec<ByteRange>, lo: usize, hi: usize) -> (sorted: Vec<ByteRange>)
    requires
        lo <= hi <= ranges.len(),
    ensures
        spans(sorted@) == sorted_by_start(spans(ranges@).subrange(lo as int, hi as int)),
        sorted.len() == hi - lo,
    decreases hi - lo,
{
    let ghost run = spans(ranges@).subrange(lo as int, hi as int);
    proof {
        lemma_sorted_is_ordered(run);
    }
    if hi - lo == 0 {
        let sorted: Vec<ByteRange> = Vec::new();
        assert(spans(sorted@) =~= sorted_by_start(run));
        return sorted;
    }
    if hi - lo == 1 {
        let mut sorted: Vec<ByteRange> = Vec::new();
        sorted.push(ranges[lo]);
        proof {
            assert(run.drop_last() =~= Seq::<Span>::empty());
            assert(sorted_by_start(run.drop_last()) =~= Seq::<Span>::empty());
            assert(spans(sorted@) =~= sorted_by_start(run));
        }
        return sorted;
    }
    let mid = lo + (hi - lo) / 2;
    let left = sort_run(ranges, lo, mid);
    let right = sort_run(ranges, mid, hi);
    proof {
        let a = spans(ranges@).subrange(lo as int, mid as int);
        let b = spans(ranges@).subrange(mid as int, hi as int);
        assert(a + b =~= run);
        lemma_sorted_of_concat(a, b);
    }
    interleave(&left, &right)
}

fn sort_by_start(ranges: &Vec<ByteRange>) -> (sorted: Vec<ByteRange>)
    ensures
        spans(sorted@) == sorted_by_start(spans(ranges@)),
{
    assert(spans(ranges@).subrange(0, ranges.len() as int) =~= spans(ranges@));
    sort_run(ranges, 0, ranges.len())
}

fn coalesce(sorted: &Vec<ByteRange>) -> (out: Vec<ByteRange>)
    ensures
        spans(out@) == coalesced(spans(sorted@)),
{
    let mut out: Vec<ByteRange> = Vec::new();
    let mut k: usize = 0;
    while k < sorted.len()
        invariant
            k <= sorted.len(),
            spans(out@) == coalesced(spans(sorted@).take(k as int)),
        decreases sorted.len() - k,
    {
        let cur = sorted[k];
        let n = out.len();
        proof {
            assert(spans(sorted@).take(k + 1).drop_last() =~= spans(sorted@).take(k as int));
        }
        let ghost acc = spans(out@);
        if n > 0 && cur[0] <= out[n - 1][1] {
            let last = out[n - 1];
            let end = if cur[1] > last[1] {
                cur[1]
            } else {
                last[1]
            };
            out.set(n - 1, range(last[0], end));
            assert(spans(out@) =~= absorb(acc, span_of(cur)));
        } else {
            out.push(cur);
            assert(spans(out@) =~= absorb(acc, span_of(cur)));
        }
        k += 1;
    }
    proof {
        assert(spans(sorted@).take(k as int) =~= spans(sorted@));
    }
    out
}

/// Merges `ranges` into the minimal ascending list that covers the same
/// offsets: the ranges are taken in order of their starts, and each one that
/// starts at or before the end of the last merged range is fused with it.
pub fn merge(ranges: Vec<ByteRange>) -> (out: Vec<ByteRange>)
    ensures
        spans(out@) == merged(spans(ranges@)),
        separated(spans(out@)),
        ascending(spans(out@)),
        all_ordered(spans(ranges@)) ==> normal(spans(out@)),
        forall|len: int|
            all_within(spans(ranges@), len) ==> #[trigger] all_within(spans(out@), len),
{
    let sorted = sort_by_start(&ranges);
    let out = coalesce(&sorted);
    proof {
        let s = spans(ranges@);
        lemma_merged_is_separated(s);
        assert forall|len: int| all_within(s, len) implies #[trigger] all_within(
            spans(out@),
            len,
        ) by {
            lemma_merge_stays_within(s, len);
        }
    }
    out
}

} // verus!
