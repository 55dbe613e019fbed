//! Key paths and the stack of open frames.
//!
//! While a document is scanned, a stack records what is open at the current
//! position: objects, arrays, and the keys whose values have not ended yet.
//! The keys on the stack, bottom to top, are the key path of the position;
//! array indices are no part of it. A target selects a position when it is
//! that path: the same keys, as many, in the same order.

use vstd::prelude::*;

verus! {

/// One entry of the stack of open frames.
#[derive(Debug)]
pub enum Frame {
    /// An object whose closing brace has not been met.
    Object,
    /// An array whose closing bracket has not been met.
    Array,
    /// A key whose value has not ended, with the text between its quotes.
    Key(Vec<char>),
}

/// A `Frame` as a mathematical value.
pub enum FrameView {
    Object,
    Array,
    Key(Seq<char>),
}

impl DeepView for Frame {
    type V = FrameView;

    open spec fn deep_view(&self) -> FrameView {
        match self {
            Frame::Object => FrameView::Object,
            Frame::Array => FrameView::Array,
            Frame::Key(k) => FrameView::Key(k@),
        }
    }
}

/// The keys among `frames`, bottom to top.
pub open spec fn key_path(frames: Seq<FrameView>) -> Seq<Seq<char>>
    decreases frames.len(),
{
    if frames.len() == 0 {
        Seq::empty()
    } else {
        let below = key_path(frames.drop_last());
        match frames.last() {
            FrameView::Key(k) => below.push(k),
            _ => below,
        }
    }
}

/// Some target is exactly `path`.
pub open spec fn selects(targets: Seq<Seq<Seq<char>>>, path: Seq<Seq<char>>) -> bool {
    exists|t: int| 0 <= t < targets.len() && #[trigger] targets[t] == path
}

/// The stack after a value has ended: a key on top, whose value it was, is
/// gone.
pub open spec fn end_value(frames: Seq<FrameView>) -> Seq<FrameView> {
    if frames.len() > 0 && frames.last() is Key {
        frames.drop_last()
    } else {
        frames
    }
}

/// The stack after a closing bracket of the kind `kind`. A key whose value
/// ends with the bracket leaves first; the innermost open container must then
/// be of that kind, and leaves together with the key whose value it was.
/// `None` where no container is open or the innermost is of the other kind.
pub open spec fn close_container(frames: Seq<FrameView>, kind: FrameView) -> Option<
    Seq<FrameView>,
> {
    let inner = end_value(frames);
    if inner.len() > 0 && inner.last() == kind {
        Some(end_value(inner.drop_last()))
    } else {
        None
    }
}

/// The key path of the lower part of a stack is a prefix of the key path of
/// the whole.
pub proof fn lemma_key_path_prefix(frames: Seq<FrameView>, n: int)
    requires
        0 <= n <= frames.len(),
    ensures
        key_path(frames.take(n)).len() <= key_path(frames).len(),
        key_path(frames.take(n)) == key_path(frames).take(key_path(frames.take(n)).len() as int),
    decreases frames.len() - n,
{
    if n == frames.len() {
        assert(frames.take(n) =~= frames);
        assert(key_path(frames).take(key_path(frames).len() as int) =~= key_path(frames));
    } else {
        lemma_key_path_prefix(frames, n + 1);
        let upper = frames.take(n + 1);
        assert(upper.drop_last() =~= frames.take(n));
        let lower_path = key_path(frames.take(n));
        let upper_path = key_path(upper);
        assert(lower_path =~= upper_path.take(lower_path.len() as int));
        assert(upper_path.take(lower_path.len() as int) =~= key_path(frames).take(
            lower_path.len() as int,
        ));
    }
}

/// Only exact equality selects: a target with fewer keys than the path, or
/// with more, does not select it, and neither does one that differs from it
/// in some key.
pub proof fn lemma_selection_is_exact(target: Seq<Seq<char>>, path: Seq<Seq<char>>)
    ensures
        selects(seq![target], path) <==> target == path,
        target.len() != path.len() ==> !selects(seq![target], path),
        (exists|k: int| 0 <= k < path.len() && k < target.len() && target[k] != path[k])
            ==> !selects(seq![target], path),
{
    let targets = seq![target];
    assert(targets[0] == target);
    if target == path {
        assert(targets[0] == path);
    }
}

/// Some target is exactly one of `paths`.
pub open spec fn selects_any(targets: Seq<Seq<Seq<char>>>, paths: Seq<Seq<Seq<char>>>) -> bool {
    exists|k: int| 0 <= k < paths.len() && selects(targets, #[trigger] paths[k])
}

/// Two lists of targets together select a path exactly where one of them
/// does.
pub proof fn lemma_selects_either(
    a: Seq<Seq<Seq<char>>>,
    b: Seq<Seq<Seq<char>>>,
    path: Seq<Seq<char>>,
)
    ensures
        selects(a + b, path) == (selects(a, path) || selects(b, path)),
{
    let both = a + b;
    if selects(both, path) {
        let t = choose|t: int| 0 <= t < both.len() && #[trigger] both[t] == path;
        if t < a.len() {
            assert(a[t] == path);
        } else {
            assert(b[t - a.len()] == path);
        }
    }
    if selects(a, path) {
        let t = choose|t: int| 0 <= t < a.len() && #[trigger] a[t] == path;
        assert(both[t] == path);
    }
    if selects(b, path) {
        let t = choose|t: int| 0 <= t < b.len() && #[trigger] b[t] == path;
        assert(both[a.len() + t] == path);
    }
}

/// A proper prefix of a target, and a proper extension of it, are not
/// selected by it.
pub proof fn lemma_prefix_and_extension_not_selected(
    target: Seq<Seq<char>>,
    path: Seq<Seq<char>>,
)
    requires
        target.len() != path.len(),
        target.is_prefix_of(path) || path.is_prefix_of(target),
    ensures
        !selects(seq![target], path),
{
    lemma_selection_is_exact(target, path);
}

/// Whether two runs of code points are the same.
pub fn same_chars(a: &[char], b: &[char]) -> (same: bool)
    ensures
        same == (a@ == b@),
{
    if a.len() != b.len() {
        return false;
    }
    let mut i: usize = 0;
    while i < a.len()
        invariant
            a.len() == b.len(),
            i <= a.len(),
            forall|k: int| 0 <= k < i ==> a@[k] == b@[k],
        decreases a.len() - i,
    {
        if a[i] != b[i] {
            return false;
        }
        i += 1;
    }
    assert(a@ =~= b@);
    true
}

/// Whether the key path of `frames` is exactly `target`.
pub fn path_is(frames: &Vec<Frame>, target: &Vec<Vec<char>>) -> (hit: bool)
    ensures
        hit == (key_path(frames.deep_view()) == target.deep_view()),
{
    let ghost stack = frames.deep_view();
    let ghost wanted = target.deep_view();
    let mut f: usize = 0;
    let mut t: usize = 0;
    while f < frames.len()
        invariant
            f <= frames.len(),
            t <= target.len(),
            stack == frames.deep_view(),
            wanted == target.deep_view(),
            key_path(stack.take(f as int)) == wanted.take(t as int),
        decreases frames.len() - f,
    {
        proof {
            lemma_key_path_prefix(stack, f as int);
            lemma_key_path_prefix(stack, f + 1);
            assert(stack.take(f + 1).drop_last() =~= stack.take(f as int));
            assert(stack.take(f + 1).last() == frames@[f as int].deep_view());
        }
        match &frames[f] {
            Frame::Key(k) => {
                if t >= target.len() {
                    proof {
                        assert(key_path(stack.take(f + 1)).len() == t + 1);
                    }
                    return false;
                }
                if !same_chars(k.as_slice(), target[t].as_slice()) {
                    proof {
                        let seen = key_path(stack.take(f + 1));
                        assert(seen[t as int] == k@);
                        assert(key_path(stack)[t as int] == seen[t as int]);
                        assert(wanted[t as int] =~= target@[t as int]@);
                    }
                    return false;
                }
                proof {
                    assert(wanted[t as int] =~= target@[t as int]@);
                    assert(wanted.take(t + 1) =~= wanted.take(t as int).push(wanted[t as int]));
                }
                t += 1;
            },
            _ => {},
        }
        f += 1;
    }
    proof {
        assert(stack.take(f as int) =~= stack);
        if t == target.len() {
            assert(wanted.take(t as int) =~= wanted);
        }
    }
    t == target.len()
}

/// Whether some target is exactly the key path of `frames`.
pub fn path_selected(frames: &Vec<Frame>, targets: &Vec<Vec<Vec<char>>>) -> (hit: bool)
    ensures
        hit == selects(targets.deep_view(), key_path(frames.deep_view())),
{
    let ghost path = key_path(frames.deep_view());
    let mut t: usize = 0;
    while t < targets.len()
        invariant
            t <= targets.len(),
            path == key_path(frames.deep_view()),
            forall|k: int| 0 <= k < t ==> (#[trigger] targets.deep_view()[k]) != path,
        decreases targets.len() - t,
    {
        if path_is(frames, &targets[t]) {
            assert(targets.deep_view()[t as int] == path);
            return true;
        }
        assert(targets.deep_view()[t as int] == targets@[t as int].deep_view());
        t += 1;
    }
    false
}

} // verus!
