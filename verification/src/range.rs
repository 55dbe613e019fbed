//! Ranges of code-point offsets and their mathematical model.

use vstd::prelude::*;

verus! {

/// A stored range: the pair `[start, end]` stands for the half-open interval
/// `[start, end)` of code-point offsets into a text.
pub type ByteRange = [usize; 2];

/// A half-open interval `[start, end)` as a mathematical value.
pub struct Span {
    pub start: int,
    pub end: int,
}

impl Span {
    /// `start <= end`: the interval is not inverted.
    pub open spec fn ordered(self) -> bool {
        self.start <= self.end
    }

    /// The number of offsets in the interval, 0 for an inverted one.
    pub open spec fn len(self) -> nat {
        if self.start <= self.end {
            (self.end - self.start) as nat
        } else {
            0
        }
    }

    /// `x` is one of the offsets of the interval.
    pub open spec fn holds(self, x: int) -> bool {
        self.start <= x < self.end
    }

    /// The interval lies inside a text of `len` code points.
    pub open spec fn within(self, len: int) -> bool {
        0 <= self.start <= self.end <= len
    }
}

/// The interval that a stored range denotes.
pub open spec fn span_of(r: ByteRange) -> Span {
    Span { start: r[0] as int, end: r[1] as int }
}

/// The intervals that a list of stored ranges denotes, in the list's order.
pub open spec fn spans(rs: Seq<ByteRange>) -> Seq<Span> {
    Seq::new(rs.len(), |i: int| span_of(rs[i]))
}

/// No interval of `s` is inverted.
pub open spec fn all_ordered(s: Seq<Span>) -> bool {
    forall|i: int| 0 <= i < s.len() ==> (#[trigger] s[i]).ordered()
}

/// Every interval of `s` lies inside a text of `len` code points.
pub open spec fn all_within(s: Seq<Span>, len: int) -> bool {
    forall|i: int| 0 <= i < s.len() ==> (#[trigger] s[i]).within(len)
}

/// Each interval ends strictly before the next one starts: neighbours neither
/// overlap nor touch.
pub open spec fn separated(s: Seq<Span>) -> bool {
    forall|i: int| 0 <= i < s.len() - 1 ==> (#[trigger] s[i]).end < s[i + 1].start
}

/// The starts of `s` never decrease.
pub open spec fn ascending(s: Seq<Span>) -> bool {
    forall|i: int, j: int| 0 <= i <= j < s.len() ==> (#[trigger] s[i]).start <= (#[trigger] s[j]).start
}

/// No interval of `s` is inverted, and each ends before or where the next
/// one starts.
pub open spec fn chained(s: Seq<Span>) -> bool {
    &&& all_ordered(s)
    &&& forall|i: int| 0 <= i < s.len() - 1 ==> (#[trigger] s[i]).end <= s[i + 1].start
}

/// Some interval of `s` holds the offset `x`.
pub open spec fn covers(s: Seq<Span>, x: int) -> bool {
    exists|i: int| 0 <= i < s.len() && (#[trigger] s[i]).holds(x)
}

/// The stored range `[start, end]`.
pub fn range(start: usize, end: usize) -> (r: ByteRange)
    ensures
        r[0] == start,
        r[1] == end,
        span_of(r) == (Span { start: start as int, end: end as int }),
{
    [start, end]
}

/// In a chained list the starts ascend.
pub proof fn lemma_chained_ascends(s: Seq<Span>)
    requires
        chained(s),
    ensures
        ascending(s),
{
    assert forall|a: int, b: int| 0 <= a <= b < s.len() implies (#[trigger] s[a]).start <= (
    #[trigger] s[b]).start by {
        lemma_chained_pair(s, a, b);
    }
}

proof fn lemma_chained_pair(s: Seq<Span>, a: int, b: int)
    requires
        chained(s),
        0 <= a <= b < s.len(),
    ensures
        s[a].start <= s[b].start,
    decreases b - a,
{
    if a < b {
        lemma_chained_pair(s, a, b - 1);
        assert(s[b - 1].ordered());
        assert(s[b - 1].end <= s[b - 1 + 1].start);
    }
}

/// Appending a stored range appends its interval.
pub proof fn lemma_spans_push(rs: Seq<ByteRange>, r: ByteRange)
    ensures
        spans(rs.push(r)) == spans(rs).push(span_of(r)),
{
    assert(spans(rs.push(r)) =~= spans(rs).push(span_of(r)));
}

/// Two lists of stored ranges that denote the same intervals are the same list.
pub proof fn lemma_spans_injective(a: Seq<ByteRange>, b: Seq<ByteRange>)
    requires
        spans(a) == spans(b),
    ensures
        a == b,
{
    assert(a.len() == spans(a).len());
    assert(b.len() == spans(b).len());
    assert forall|i: int| 0 <= i < a.len() implies a[i] == b[i] by {
        assert(span_of(a[i]) == spans(a)[i]);
        assert(span_of(b[i]) == spans(b)[i]);
        assert(a[i]@ =~= b[i]@);
    }
    assert(a =~= b);
}

/// Whether every range of `ranges` is ordered and ends inside a text of `len`
/// code points.
pub fn ranges_within(ranges: &Vec<ByteRange>, len: usize) -> (ok: bool)
    ensures
        ok == all_within(spans(ranges@), len as int),
{
    let mut k: usize = 0;
    while k < ranges.len()
        invariant
            k <= ranges.len(),
            forall|i: int| 0 <= i < k ==> (#[trigger] spans(ranges@)[i]).within(len as int),
        decreases ranges.len() - k,
    {
        let r = ranges[k];
        if r[0] > r[1] || r[1] > len {
            assert(!spans(ranges@)[k as int].within(len as int));
            return false;
        }
        k += 1;
    }
    true
}

} // verus!
