//! The range scanner.
//!
//! The scan walks the text once, token by token, with a stack of the frames
//! that are open. Every token occupies a range of the text, from where the
//! token starts to where the next one starts, and the scan decides of each
//! whether to keep it. The skeleton is always kept: brackets, braces, colons,
//! commas, keys and whitespace. A value is kept where the key path of its
//! position is one of the targets: a string or a bare value as its own range,
//! an object or an array as one range from its opening bracket to the bracket
//! that closes it. The scan ends with the text, or earlier at a string that is
//! not terminated or a bracket that has no partner.

use vstd::prelude::*;
use vstd::slice::{slice_subrange, slice_to_vec};
use crate::chars::chars_of;
use crate::lex::{
    bare_end, find_string_close, find_subtree_close, is_key_at, is_space, key_follows,
    lemma_bare_end, lemma_space_end, lemma_string_close, lemma_subtree_close, skip_bare,
    skip_space, space, space_end, string_close, subtree_close,
};
use crate::merge::{lemma_merge_stays_within, merge, merged, normal};
use crate::path::{
    close_container, end_value, key_path, path_selected, selects, Frame, FrameView,
};
use crate::range::{
    all_within, ascending, chained, lemma_chained_ascends, lemma_spans_push, range, spans,
    ByteRange, Span,
};

verus! {

/// What the scan makes of the token at one position.
pub struct Step {
    /// Whether the token's range is kept.
    pub keep: bool,
    /// Where the token ends and the next one starts.
    pub next: int,
    /// The stack of open frames behind the token.
    pub frames: Seq<FrameView>,
}

/// The step that the scan takes at position `i` of `text`, with `frames` open
/// there; `None` where the scan stops.
pub open spec fn step(
    text: Seq<char>,
    targets: Seq<Seq<Seq<char>>>,
    i: int,
    frames: Seq<FrameView>,
) -> Option<Step> {
    let c = text[i];
    let hit = selects(targets, key_path(frames));
    if is_space(c) {
        Some(Step { keep: true, next: space_end(text, i + 1), frames })
    } else if c == '{' || c == '[' {
        if hit {
            match subtree_close(text, i + 1, c, 1, false) {
                Some(q) => Some(Step { keep: true, next: q + 1, frames: end_value(frames) }),
                None => None,
            }
        } else {
            let opened = if c == '{' {
                FrameView::Object
            } else {
                FrameView::Array
            };
            Some(Step { keep: true, next: i + 1, frames: frames.push(opened) })
        }
    } else if c == '}' || c == ']' {
        let closed = if c == '}' {
            FrameView::Object
        } else {
            FrameView::Array
        };
        match close_container(frames, closed) {
            Some(rest) => Some(Step { keep: true, next: i + 1, frames: rest }),
            None => None,
        }
    } else if c == ':' {
        Some(Step { keep: true, next: i + 1, frames })
    } else if c == ',' {
        Some(Step { keep: true, next: i + 1, frames: end_value(frames) })
    } else if c == '"' {
        match string_close(text, i + 1) {
            Some(q) => if is_key_at(text, q) {
                let key = FrameView::Key(text.subrange(i + 1, q));
                Some(Step { keep: true, next: q + 1, frames: frames.push(key) })
            } else {
                Some(Step { keep: hit, next: q + 1, frames })
            },
            None => None,
        }
    } else {
        Some(Step { keep: hit, next: bare_end(text, i + 1), frames })
    }
}

/// Every step moves forward and ends inside the text.
pub proof fn lemma_step_advances(
    text: Seq<char>,
    targets: Seq<Seq<Seq<char>>>,
    i: int,
    frames: Seq<FrameView>,
)
    requires
        0 <= i < text.len(),
    ensures
        step(text, targets, i, frames) matches Some(s) ==> i < s.next <= text.len(),
{
    lemma_space_end(text, i + 1);
    lemma_bare_end(text, i + 1);
    lemma_string_close(text, i + 1);
    lemma_subtree_close(text, i + 1, text[i], 1, false);
}

/// The ranges that the scan keeps from position `i` on, with `frames` open
/// there.
pub open spec fn scan_from(
    text: Seq<char>,
    targets: Seq<Seq<Seq<char>>>,
    i: int,
    frames: Seq<FrameView>,
) -> Seq<Span>
    decreases text.len() - i,
    via scan_from_decreases
{
    if 0 <= i < text.len() {
        match step(text, targets, i, frames) {
            Some(s) => {
                let rest = scan_from(text, targets, s.next, s.frames);
                if s.keep {
                    seq![Span { start: i, end: s.next }] + rest
                } else {
                    rest
                }
            },
            None => Seq::empty(),
        }
    } else {
        Seq::empty()
    }
}

#[via_fn]
proof fn scan_from_decreases(
    text: Seq<char>,
    targets: Seq<Seq<Seq<char>>>,
    i: int,
    frames: Seq<FrameView>,
) {
    if 0 <= i < text.len() {
        lemma_step_advances(text, targets, i, frames);
    }
}

/// The scan depends on the targets only through the paths they select: two
/// lists that select the same paths, such as one list in two orders, give
/// the same ranges on every text.
pub proof fn lemma_scan_depends_on_selection(
    text: Seq<char>,
    a: Seq<Seq<Seq<char>>>,
    b: Seq<Seq<Seq<char>>>,
    i: int,
    frames: Seq<FrameView>,
)
    requires
        forall|path: Seq<Seq<char>>| selects(a, path) == selects(b, path),
    ensures
        scan_from(text, a, i, frames) == scan_from(text, b, i, frames),
    decreases text.len() - i,
{
    if 0 <= i < text.len() {
        lemma_step_advances(text, a, i, frames);
        assert(selects(a, key_path(frames)) == selects(b, key_path(frames)));
        assert(step(text, a, i, frames) == step(text, b, i, frames));
        match step(text, a, i, frames) {
            Some(s) => {
                lemma_scan_depends_on_selection(text, a, b, s.next, s.frames);
            },
            None => {},
        }
    }
}

/// The ranges that the scan of `text` keeps for `targets`, in the order in
/// which the scan meets them.
pub open spec fn scanned(text: Seq<char>, targets: Seq<Seq<Seq<char>>>) -> Seq<Span> {
    scan_from(text, targets, 0, Seq::empty())
}

/// The intervals of `s` lie between `lo` and `hi`, none is empty, and each
/// ends before or where the next starts.
pub open spec fn tiles(s: Seq<Span>, lo: int, hi: int) -> bool {
    &&& forall|k: int| 0 <= k < s.len() ==> lo <= (#[trigger] s[k]).start < s[k].end <= hi
    &&& forall|k: int| 0 <= k < s.len() - 1 ==> (#[trigger] s[k]).end <= s[k + 1].start
}

/// The ranges scanned from position `i` on lie at or behind `i` and inside
/// the text; none is empty; and each ends before or where the next starts.
pub proof fn lemma_scan_from_shape(
    text: Seq<char>,
    targets: Seq<Seq<Seq<char>>>,
    i: int,
    frames: Seq<FrameView>,
)
    requires
        0 <= i <= text.len(),
    ensures
        tiles(scan_from(text, targets, i, frames), i, text.len() as int),
    decreases text.len() - i,
{
    if i < text.len() {
        lemma_step_advances(text, targets, i, frames);
        match step(text, targets, i, frames) {
            Some(s) => {
                lemma_scan_from_shape(text, targets, s.next, s.frames);
                let rest = scan_from(text, targets, s.next, s.frames);
                let all = scan_from(text, targets, i, frames);
                let len = text.len() as int;
                if s.keep {
                    assert(all == seq![Span { start: i, end: s.next }] + rest);
                    assert forall|k: int| 0 <= k < all.len() implies i <= (#[trigger] all[k]).start
                        < all[k].end <= len by {
                        if k > 0 {
                            assert(all[k] == rest[k - 1]);
                        }
                    }
                    assert forall|k: int| 0 <= k < all.len() - 1 implies (#[trigger] all[k]).end
                        <= all[k + 1].start by {
                        assert(all[k + 1] == rest[k]);
                        if k > 0 {
                            assert(all[k] == rest[k - 1]);
                        }
                    }
                } else {
                    assert(all == rest);
                }
            },
            None => {},
        }
    }
}

proof fn lemma_tiles_are_chained(s: Seq<Span>, len: int)
    requires
        tiles(s, 0, len),
    ensures
        all_within(s, len),
        chained(s),
        ascending(s),
{
    assert forall|k: int| 0 <= k < s.len() implies (#[trigger] s[k]).within(len) by {
        assert(0 <= s[k].start < s[k].end <= len);
    }
    assert forall|k: int| 0 <= k < s.len() implies (#[trigger] s[k]).ordered() by {
        assert(0 <= s[k].start < s[k].end <= len);
    }
    lemma_chained_ascends(s);
}

/// The scanned ranges lie inside the text, none of them is empty, and each
/// ends before or where the next starts.
pub proof fn lemma_scanned_shape(text: Seq<char>, targets: Seq<Seq<Seq<char>>>)
    ensures
        tiles(scanned(text, targets), 0, text.len() as int),
        all_within(scanned(text, targets), text.len() as int),
        chained(scanned(text, targets)),
        ascending(scanned(text, targets)),
{
    lemma_scan_from_shape(text, targets, 0, Seq::empty());
    lemma_tiles_are_chained(scanned(text, targets), text.len() as int);
}

/// The state of one scan: the position of the next token, the frames that
/// are open there, and the ranges kept so far.
struct ScanState {
    at: usize,
    frames: Vec<Frame>,
    ranges: Vec<ByteRange>,
}

fn is_key(frame: &Frame) -> (b: bool)
    ensures
        b == (frame.deep_view() is Key),
{
    match frame {
        Frame::Key(_) => true,
        _ => false,
    }
}

fn drop_value_key(frames: &mut Vec<Frame>)
    ensures
        final(frames).deep_view() == end_value(old(frames).deep_view()),
{
    let n = frames.len();
    if n > 0 && is_key(&frames[n - 1]) {
        frames.pop();
        assert(frames.deep_view() =~= old(frames).deep_view().drop_last());
    }
}

fn close_frames(frames: &mut Vec<Frame>, brace: bool) -> (ok: bool)
    ensures
        match close_container(
            old(frames).deep_view(),
            if brace {
                FrameView::Object
            } else {
                FrameView::Array
            },
        ) {
            Some(rest) => ok && final(frames).deep_view() == rest,
            None => !ok,
        },
{
    drop_value_key(frames);
    let ghost inner = frames.deep_view();
    let n = frames.len();
    if n == 0 {
        return false;
    }
    let fits = match &frames[n - 1] {
        Frame::Object => brace,
        Frame::Array => !brace,
        Frame::Key(_) => false,
    };
    assert(inner.last() == frames@[n - 1].deep_view());
    if !fits {
        return false;
    }
    frames.pop();
    assert(frames.deep_view() =~= inner.drop_last());
    drop_value_key(frames);
    true
}

impl ScanState {
    /// Takes the step at the current position.
    fn advance(&mut self, text: &[char], targets: &Vec<Vec<Vec<char>>>) -> (more: bool)
        requires
            old(self).at < text.len(),
        ensures
            match step(
                text@,
                targets.deep_view(),
                old(self).at as int,
                old(self).frames.deep_view(),
            ) {
                Some(s) => {
                    &&& more
                    &&& final(self).at == s.next
                    &&& final(self).frames.deep_view() == s.frames
                    &&& spans(final(self).ranges@) == if s.keep {
                        spans(old(self).ranges@).push(
                            Span { start: old(self).at as int, end: s.next },
                        )
                    } else {
                        spans(old(self).ranges@)
                    }
                },
                None => !more && final(self).ranges@ == old(self).ranges@,
            },
    {
        let i = self.at;
        let c = text[i];
        let ghost stack = self.frames.deep_view();
        let ghost kept = self.ranges@;
        proof {
            lemma_step_advances(text@, targets.deep_view(), i as int, stack);
        }
        let mut keep = true;
        let next: usize;
        if space(c) {
            next = skip_space(text, i + 1);
        } else if c == '{' || c == '[' {
            if path_selected(&self.frames, targets) {
                match find_subtree_close(text, i) {
                    Some(q) => {
                        next = q + 1;
                        drop_value_key(&mut self.frames);
                    },
                    None => {
                        return false;
                    },
                }
            } else {
                next = i + 1;
                self.frames.push(
                    if c == '{' {
                        Frame::Object
                    } else {
                        Frame::Array
                    },
                );
                assert(self.frames.deep_view() =~= stack.push(
                    if c == '{' {
                        FrameView::Object
                    } else {
                        FrameView::Array
                    },
                ));
            }
        } else if c == '}' || c == ']' {
            if !close_frames(&mut self.frames, c == '}') {
                return false;
            }
            next = i + 1;
        } else if c == ':' {
            next = i + 1;
        } else if c == ',' {
            drop_value_key(&mut self.frames);
            next = i + 1;
        } else if c == '"' {
            match find_string_close(text, i + 1) {
                Some(q) => {
                    next = q + 1;
                    if key_follows(text, q) {
                        let key = slice_to_vec(slice_subrange(text, i + 1, q));
                        self.frames.push(Frame::Key(key));
                        assert(self.frames.deep_view() =~= stack.push(
                            FrameView::Key(text@.subrange(i + 1, q as int)),
                        ));
                    } else {
                        keep = path_selected(&self.frames, targets);
                    }
                },
                None => {
                    return false;
                },
            }
        } else {
            next = skip_bare(text, i + 1);
            keep = path_selected(&self.frames, targets);
        }
        if keep {
            let r = range(i, next);
            self.ranges.push(r);
            proof {
                lemma_spans_push(kept, r);
            }
        }
        self.at = next;
        true
    }
}

/// Scans `text` for the ranges that `targets` keep: the skeleton of the
/// document and the values whose key path is one of the targets.
pub fn scan_chars(text: &[char], targets: &Vec<Vec<Vec<char>>>) -> (out: Vec<ByteRange>)
    ensures
        spans(out@) == scanned(text@, targets.deep_view()),
        all_within(spans(out@), text@.len() as int),
        chained(spans(out@)),
        ascending(spans(out@)),
{
    let mut state = ScanState { at: 0, frames: Vec::new(), ranges: Vec::new() };
    let ghost wanted = targets.deep_view();
    assert(state.frames.deep_view() =~= Seq::<FrameView>::empty());
    assert(spans(state.ranges@) =~= Seq::<Span>::empty());
    loop
        invariant_except_break
            state.at <= text.len(),
            spans(state.ranges@) + scan_from(
                text@,
                wanted,
                state.at as int,
                state.frames.deep_view(),
            ) == scanned(text@, wanted),
        invariant
            wanted == targets.deep_view(),
        ensures
            spans(state.ranges@) == scanned(text@, wanted),
        decreases text.len() - state.at,
    {
        let ghost kept = spans(state.ranges@);
        let ghost rest = scan_from(text@, wanted, state.at as int, state.frames.deep_view());
        if state.at >= text.len() {
            assert(kept + rest =~= kept);
            break ;
        }
        proof {
            lemma_step_advances(text@, wanted, state.at as int, state.frames.deep_view());
        }
        let ghost here = state.at as int;
        let ghost taken = step(text@, wanted, here, state.frames.deep_view());
        if !state.advance(text, targets) {
            assert(kept + rest =~= kept);
            break ;
        }
        proof {
            let s = taken->0;
            let tail = scan_from(text@, wanted, s.next, s.frames);
            if s.keep {
                assert(kept + (seq![Span { start: here, end: s.next }] + tail) =~= kept.push(
                    Span { start: here, end: s.next },
                ) + tail);
            }
        }
    }
    proof {
        lemma_scanned_shape(text@, wanted);
    }
    state.ranges
}

fn path_chars(path: &Vec<&str>) -> (keys: Vec<Vec<char>>)
    ensures
        keys.deep_view() == path.deep_view(),
{
    let mut keys: Vec<Vec<char>> = Vec::new();
    let mut k: usize = 0;
    while k < path.len()
        invariant
            k <= path.len(),
            keys.len() == k,
            forall|j: int| 0 <= j < k ==> (#[trigger] keys@[j])@ == path@[j]@,
        decreases path.len() - k,
    {
        keys.push(chars_of(path[k]));
        k += 1;
    }
    assert(keys.deep_view() =~= path.deep_view()) by {
        assert forall|j: int| 0 <= j < keys.len() implies #[trigger] keys.deep_view()[j]
            == path.deep_view()[j] by {
            assert(keys@[j].deep_view() =~= keys@[j]@);
        }
    }
    keys
}

pub fn targets_chars(targets: &[Vec<&str>]) -> (paths: Vec<Vec<Vec<char>>>)
    ensures
        paths.deep_view() == targets.deep_view(),
{
    let mut paths: Vec<Vec<Vec<char>>> = Vec::new();
    let mut t: usize = 0;
    while t < targets.len()
        invariant
            t <= targets.len(),
            paths.len() == t,
            forall|j: int| 0 <= j < t ==> (#[trigger] paths@[j]).deep_view() == targets@[j].deep_view(),
        decreases targets.len() - t,
    {
        paths.push(path_chars(&targets[t]));
        t += 1;
    }
    assert(paths.deep_view() =~= targets.deep_view());
    paths
}

/// Scans the document `json` for the ranges that `targets` keep, in the order
/// in which the scan meets them. Offsets count code points. A key is compared
/// with the keys of a target as it is written between its quotes: escapes
/// are not decoded.
pub fn scan(json: &str, targets: &[Vec<&str>]) -> (out: Vec<ByteRange>)
    ensures
        spans(out@) == scanned(json@, targets.deep_view()),
        all_within(spans(out@), json@.len() as int),
        chained(spans(out@)),
        ascending(spans(out@)),
{
    let text = chars_of(json);
    let paths = targets_chars(targets);
    scan_chars(text.as_slice(), &paths)
}

/// Finds the ranges of `json` that survive redaction under the key paths of
/// `target_keys_list`: the scanned ranges, merged.
pub fn find_ranges(json: &str, target_keys_list: &[Vec<&str>]) -> (ranges: Vec<ByteRange>)
    ensures
        spans(ranges@) == merged(scanned(json@, target_keys_list.deep_view())),
        normal(spans(ranges@)),
        ascending(spans(ranges@)),
        all_within(spans(ranges@), json@.len() as int),
{
    let raw = scan(json, target_keys_list);
    proof {
        lemma_merge_stays_within(spans(raw@), json@.len() as int);
    }
    merge(raw)
}

} // verus!
