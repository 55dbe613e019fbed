//! Redaction plans.
//!
//! A plan pairs a text with the merged ranges that survive redaction. It is
//! made by scanning the text, so its ranges always fit the text, and it is
//! used up by redacting.

use vstd::prelude::*;
use crate::chars::{chars_of, string_of};
use crate::merge::{lemma_merge_stays_within, merge, merged, normal};
use crate::range::{all_within, ascending, spans, ByteRange, Span};
use crate::redact::{redact_chars, redacted};
use crate::scan::{scan_chars, scanned, targets_chars};

verus! {

/// A text and the ranges of it to keep: merged, ascending, and inside the
/// text.
pub struct RedactionPlan {
    text: Vec<char>,
    ranges: Vec<ByteRange>,
}

impl RedactionPlan {
    #[verifier::type_invariant]
    spec fn fits(&self) -> bool {
        &&& normal(spans(self.ranges@))
        &&& ascending(spans(self.ranges@))
        &&& all_within(spans(self.ranges@), self.text@.len() as int)
    }

    /// The text of the plan.
    pub closed spec fn text(&self) -> Seq<char> {
        self.text@
    }

    /// The intervals that the plan keeps.
    pub closed spec fn kept(&self) -> Seq<Span> {
        spans(self.ranges@)
    }

    /// The plan for `json` under the key paths of `targets`: the scanned
    /// ranges, merged.
    pub fn new(json: &str, targets: &[Vec<&str>]) -> (plan: RedactionPlan)
        ensures
            plan.text() == json@,
            plan.kept() == merged(scanned(json@, targets.deep_view())),
            normal(plan.kept()),
            all_within(plan.kept(), json@.len() as int),
    {
        let text = chars_of(json);
        let paths = targets_chars(targets);
        let raw = scan_chars(text.as_slice(), &paths);
        proof {
            lemma_merge_stays_within(spans(raw@), text@.len() as int);
        }
        let ranges = merge(raw);
        RedactionPlan { text, ranges }
    }

    /// The ranges of the plan, ascending.
    pub fn ranges(&self) -> (out: Vec<ByteRange>)
        ensures
            spans(out@) == self.kept(),
            normal(self.kept()),
            ascending(self.kept()),
            all_within(self.kept(), self.text().len() as int),
    {
        proof {
            use_type_invariant(self);
        }
        let mut out: Vec<ByteRange> = Vec::new();
        let mut k: usize = 0;
        while k < self.ranges.len()
            invariant
                k <= self.ranges.len(),
                out@ == self.ranges@.take(k as int),
            decreases self.ranges.len() - k,
        {
            out.push(self.ranges[k]);
            assert(self.ranges@.take(k + 1) =~= self.ranges@.take(k as int).push(
                self.ranges@[k as int],
            ));
            k += 1;
        }
        assert(self.ranges@.take(k as int) =~= self.ranges@);
        out
    }

    /// Redacts the text of the plan: each range verbatim, and `placeholder`
    /// in place of every gap.
    pub fn redact(self, placeholder: &str) -> (out: String)
        ensures
            out@ == redacted(self.text(), self.kept(), placeholder@),
    {
        proof {
            use_type_invariant(&self);
        }
        let mark = chars_of(placeholder);
        let out = redact_chars(self.text.as_slice(), self.ranges.as_slice(), mark.as_slice());
        string_of(out.as_slice())
    }
}

} // verus!
