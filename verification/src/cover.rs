//! What the ranges of a well-formed document cover.
//!
//! The proofs of this module follow the scanner through the text of a
//! document as those of `walk` do, and show of every position whether a
//! range covers it: the skeleton is covered whatever the targets are, and a
//! position in a value exactly where a target selects that value or one
//! around it.

use vstd::prelude::*;
use crate::document::{
    is_bare_char, is_blank, is_punctuation, items_leaf_at, items_paths_at, items_selected_at,
    items_skeleton_at, items_string_at, items_text, members_leaf_at, members_paths_at,
    members_selected_at, members_skeleton_at, members_string_at, members_text, Json, Key,
};
use crate::lex::{closer_of, is_key_at, is_space};
use crate::merge::{lemma_merge_keeps_cover, merged};
use crate::path::{
    end_value, key_path, lemma_selects_either, selects, selects_any, FrameView,
};
use crate::range::{covers, Span};
use crate::scan::{lemma_scan_from_shape, lemma_step_advances, scan_from, scanned, step, Step};
use crate::walk::{
    after_value, followed, lemma_body_starts, lemma_container_frames, lemma_key_frames,
    lemma_scalar_step, lemma_space_run, lemma_stands_blank, lemma_stands_char,
    lemma_stands_split, lemma_string_run, lemma_subtree_closes, stands_at,
};

verus! {

/// A range scanned from position `i` on, with `frames` open there, covers
/// the position `x`.
spec fn covered(
    text: Seq<char>,
    targets: Seq<Seq<Seq<char>>>,
    i: int,
    frames: Seq<FrameView>,
    x: int,
) -> bool {
    covers(scan_from(text, targets, i, frames), x)
}

/// Of the ranges scanned from `i` on, those up to `j` cover `x` exactly
/// where `x` lies between `i` and `j` and `kept` holds, and those from `j`
/// on are the ranges scanned from `j`; the frames open are `from` at `i` and
/// `to` at `j`.
spec fn spans_to(
    text: Seq<char>,
    targets: Seq<Seq<Seq<char>>>,
    i: int,
    from: Seq<FrameView>,
    j: int,
    to: Seq<FrameView>,
    x: int,
    kept: bool,
) -> bool {
    covered(text, targets, i, from, x) == (if x < j {
        i <= x && kept
    } else {
        covered(text, targets, j, to, x)
    })
}

proof fn lemma_nothing_before(
    text: Seq<char>,
    targets: Seq<Seq<Seq<char>>>,
    i: int,
    frames: Seq<FrameView>,
    x: int,
)
    requires
        0 <= i <= text.len(),
        x < i || x >= text.len(),
    ensures
        !covered(text, targets, i, frames, x),
{
    lemma_scan_from_shape(text, targets, i, frames);
    let s = scan_from(text, targets, i, frames);
    if covers(s, x) {
        let k = choose|k: int| 0 <= k < s.len() && (#[trigger] s[k]).holds(x);
        assert(i <= s[k].start < s[k].end <= text.len());
    }
}

proof fn lemma_cover_step(
    text: Seq<char>,
    targets: Seq<Seq<Seq<char>>>,
    i: int,
    frames: Seq<FrameView>,
    x: int,
)
    requires
        0 <= i < text.len(),
        step(text, targets, i, frames) is Some,
    ensures
        spans_to(
            text,
            targets,
            i,
            frames,
            step(text, targets, i, frames)->0.next,
            step(text, targets, i, frames)->0.frames,
            x,
            step(text, targets, i, frames)->0.keep,
        ),
{
    let s = step(text, targets, i, frames)->0;
    lemma_step_advances(text, targets, i, frames);
    let rest = scan_from(text, targets, s.next, s.frames);
    let all = scan_from(text, targets, i, frames);
    if x < s.next {
        lemma_nothing_before(text, targets, s.next, s.frames, x);
    }
    if s.keep {
        let token = Span { start: i, end: s.next };
        assert(all == seq![token] + rest);
        if covers(all, x) {
            let k = choose|k: int| 0 <= k < all.len() && (#[trigger] all[k]).holds(x);
            if k > 0 {
                assert(all[k] == rest[k - 1]);
                assert(rest[k - 1].holds(x));
            }
        }
        if token.holds(x) {
            assert(all[0].holds(x));
        }
        if covers(rest, x) {
            let k = choose|k: int| 0 <= k < rest.len() && (#[trigger] rest[k]).holds(x);
            assert(all[k + 1] == rest[k]);
            assert(all[k + 1].holds(x));
        }
    } else {
        assert(all == rest);
    }
}

proof fn lemma_cover_chain(
    text: Seq<char>,
    targets: Seq<Seq<Seq<char>>>,
    i: int,
    from: Seq<FrameView>,
    j: int,
    via: Seq<FrameView>,
    k: int,
    to: Seq<FrameView>,
    x: int,
    a: bool,
    b: bool,
)
    requires
        i <= j <= k,
        spans_to(text, targets, i, from, j, via, x, a),
        spans_to(text, targets, j, via, k, to, x, b),
    ensures
        spans_to(text, targets, i, from, k, to, x, if x < j { a } else { b }),
{
}

proof fn lemma_cover_nowhere(
    text: Seq<char>,
    targets: Seq<Seq<Seq<char>>>,
    i: int,
    frames: Seq<FrameView>,
    x: int,
    kept: bool,
)
    requires
        0 <= i <= text.len(),
    ensures
        spans_to(text, targets, i, frames, i, frames, x, kept),
{
    if x < i {
        lemma_nothing_before(text, targets, i, frames, x);
    }
}

/// A token of one character that is kept.
proof fn lemma_char_covers(
    text: Seq<char>,
    targets: Seq<Seq<Seq<char>>>,
    i: int,
    frames: Seq<FrameView>,
    behind: Seq<FrameView>,
    x: int,
)
    requires
        0 <= i < text.len(),
        step(text, targets, i, frames) == Some(Step { keep: true, next: i + 1, frames: behind }),
    ensures
        spans_to(text, targets, i, frames, i + 1, behind, x, true),
{
    lemma_cover_step(text, targets, i, frames, x);
}

/// A run of whitespace is covered.
proof fn lemma_blank_covers(
    text: Seq<char>,
    targets: Seq<Seq<Seq<char>>>,
    i: int,
    blank: Seq<char>,
    frames: Seq<FrameView>,
    x: int,
)
    requires
        stands_at(text, i, blank),
        is_blank(blank),
        i + blank.len() == text.len() || !is_space(text[i + blank.len()]),
    ensures
        spans_to(text, targets, i, frames, i + blank.len(), frames, x, true),
{
    if blank.len() == 0 {
        lemma_cover_nowhere(text, targets, i, frames, x, true);
    } else {
        lemma_stands_blank(text, i, blank);
        lemma_space_run(text, i + 1, i + blank.len());
        assert(is_space(text[i]));
        lemma_cover_step(text, targets, i, frames, x);
    }
}

/// A key is covered, from the whitespace in front of it to its colon.
proof fn lemma_key_covers(
    text: Seq<char>,
    targets: Seq<Seq<Seq<char>>>,
    i: int,
    key: Key,
    frames: Seq<FrameView>,
    x: int,
)
    requires
        stands_at(text, i, key.text()),
        key.well_formed(),
    ensures
        spans_to(
            text,
            targets,
            i,
            frames,
            i + key.text().len(),
            frames.push(FrameView::Key(key.name)),
            x,
            true,
        ),
{
    let quote = seq!['"'];
    let colon = seq![':'];
    let a = i + key.lead.len();
    let q = a + 1 + key.name.len();
    let g = q + 1;
    let c = g + key.gap.len();
    let opened = frames.push(FrameView::Key(key.name));
    lemma_stands_split(text, i, key.lead + quote + key.name + quote + key.gap, colon);
    lemma_stands_split(text, i, key.lead + quote + key.name + quote, key.gap);
    lemma_stands_split(text, i, key.lead + quote + key.name, quote);
    lemma_stands_split(text, i, key.lead + quote, key.name);
    lemma_stands_split(text, i, key.lead, quote);
    lemma_stands_char(text, a, quote, 0);
    lemma_stands_char(text, q, quote, 0);
    lemma_stands_char(text, c, colon, 0);
    assert(text[a] == '"' && text[q] == '"' && text[c] == ':');
    lemma_blank_covers(text, targets, i, key.lead, frames, x);
    assert(stands_at(text, a + 1, key.name + quote)) by {
        assert(text.subrange(a + 1, q + 1) =~= text.subrange(a + 1, q) + text.subrange(q, q + 1));
    }
    lemma_string_run(text, a + 1, key.name, 0);
    lemma_stands_blank(text, g, key.gap);
    lemma_space_run(text, g, c);
    assert(is_key_at(text, q));
    assert(text.subrange(a + 1, q) == key.name);
    assert(step(text, targets, a, frames) == Some(Step { keep: true, next: g, frames: opened }));
    lemma_cover_step(text, targets, a, frames, x);
    lemma_blank_covers(text, targets, g, key.gap, opened, x);
    assert(step(text, targets, c, opened) == Some(Step { keep: true, next: c + 1, frames: opened }));
    lemma_char_covers(text, targets, c, opened, opened, x);
    lemma_cover_chain(text, targets, i, frames, a, frames, g, opened, x, true, true);
    lemma_cover_chain(text, targets, i, frames, g, opened, c, opened, x, true, true);
    lemma_cover_chain(text, targets, i, frames, c, opened, c + 1, opened, x, true, true);
}

/// What is covered of a well-formed value: its skeleton, and what a target
/// selects.
proof fn lemma_value_covers(
    text: Seq<char>,
    targets: Seq<Seq<Seq<char>>>,
    i: int,
    v: Json,
    path: Seq<Seq<char>>,
    frames: Seq<FrameView>,
    x: int,
)
    requires
        stands_at(text, i, v.text()),
        v.well_formed(),
        key_path(frames) == path,
        followed(text, i + v.text().len(), frames),
    ensures
        spans_to(
            text,
            targets,
            i,
            frames,
            i + v.text().len(),
            after_value(v, frames),
            x,
            v.skeleton_at(x - i) || v.selected_at(targets, path, x - i),
        ),
    decreases v, 2int,
{
    let a = i + v.lead().len();
    let b = a + v.body().len();
    let j = b + v.trail().len();
    let behind = after_value(v, frames);
    lemma_stands_split(text, i, v.lead() + v.body(), v.trail());
    lemma_stands_split(text, i, v.lead(), v.body());
    lemma_body_starts(v);
    lemma_stands_char(text, a, v.body(), 0);
    lemma_stands_blank(text, b, v.trail());
    lemma_blank_covers(text, targets, i, v.lead(), frames, x);
    lemma_blank_covers(text, targets, b, v.trail(), behind, x);
    let inner = v.skeleton_at(x - i) || v.selected_at(targets, path, x - i);
    if v.is_container() {
        lemma_container_covers(text, targets, a, v, path, frames, x);
    } else {
        lemma_scalar_step(text, targets, a, v, frames);
        lemma_cover_step(text, targets, a, frames, x);
    }
    lemma_cover_chain(text, targets, i, frames, a, frames, b, behind, x, true, inner);
    lemma_cover_chain(
        text,
        targets,
        i,
        frames,
        b,
        behind,
        j,
        behind,
        x,
        if x < a {
            true
        } else {
            inner
        },
        true,
    );
}

/// What is covered of an array or an object, from its opening bracket to its
/// closing one.
proof fn lemma_container_covers(
    text: Seq<char>,
    targets: Seq<Seq<Seq<char>>>,
    a: int,
    v: Json,
    path: Seq<Seq<char>>,
    frames: Seq<FrameView>,
    x: int,
)
    requires
        stands_at(text, a, v.body()),
        v.well_formed(),
        v.is_container(),
        key_path(frames) == path,
    ensures
        spans_to(
            text,
            targets,
            a,
            frames,
            a + v.body().len(),
            end_value(frames),
            x,
            v.skeleton_at(x - a + v.lead().len()) || v.selected_at(
                targets,
                path,
                x - a + v.lead().len(),
            ),
        ),
    decreases v, 1int,
{
    let b = a + v.body().len();
    let open = if v is Array {
        '['
    } else {
        '{'
    };
    let kind = if v is Array {
        FrameView::Array
    } else {
        FrameView::Object
    };
    let opener = seq![open];
    let closer = seq![closer_of(open)];
    let inside = v.inside();
    let q = x - a + v.lead().len();
    let kept = v.skeleton_at(q) || v.selected_at(targets, path, q);
    assert(v.body() == opener + inside + closer);
    lemma_stands_split(text, a, opener + inside, closer);
    lemma_stands_split(text, a, opener, inside);
    lemma_stands_char(text, a, opener, 0);
    lemma_stands_char(text, b - 1, closer, 0);
    if selects(targets, path) {
        lemma_subtree_closes(text, a, v);
        assert(step(text, targets, a, frames) == Some(
            Step { keep: true, next: b, frames: end_value(frames) },
        ));
        lemma_cover_step(text, targets, a, frames, x);
    } else {
        let opened = frames.push(kind);
        lemma_container_frames(frames, kind);
        assert(step(text, targets, a, frames) == Some(
            Step { keep: true, next: a + 1, frames: opened },
        ));
        lemma_char_covers(text, targets, a, frames, opened, x);
        assert(stands_at(text, a + 1, inside + closer)) by {
            assert(text.subrange(a + 1, b) =~= inside + closer);
        }
        let within: bool = match v {
            Json::Array { items, pad, .. } => {
                if items.len() == 0 {
                    lemma_empty_covers(text, targets, a + 1, pad, kind, frames, x);
                    true
                } else {
                    lemma_items_covers(text, targets, a + 1, items, 0, path, frames, x);
                    x == b - 1 || items_skeleton_at(items, 0, x - a - 1) || items_selected_at(
                        items,
                        0,
                        targets,
                        path,
                        x - a - 1,
                    )
                }
            },
            Json::Object { keys, values, pad, .. } => {
                if values.len() == 0 {
                    lemma_empty_covers(text, targets, a + 1, pad, kind, frames, x);
                    true
                } else {
                    lemma_members_covers(text, targets, a + 1, keys, values, 0, path, frames, x);
                    x == b - 1 || members_skeleton_at(keys, values, 0, x - a - 1)
                        || members_selected_at(keys, values, 0, targets, path, x - a - 1)
                }
            },
            _ => true,
        };
        lemma_cover_chain(
            text,
            targets,
            a,
            frames,
            a + 1,
            opened,
            b,
            end_value(frames),
            x,
            true,
            within,
        );
    }
}

/// The whitespace inside an empty array or object, and the bracket that
/// closes it, are covered.
proof fn lemma_empty_covers(
    text: Seq<char>,
    targets: Seq<Seq<Seq<char>>>,
    p: int,
    pad: Seq<char>,
    kind: FrameView,
    below: Seq<FrameView>,
    x: int,
)
    requires
        kind == FrameView::Object || kind == FrameView::Array,
        is_blank(pad),
        stands_at(text, p, pad + seq![if kind == FrameView::Array { ']' } else { '}' }]),
    ensures
        spans_to(
            text,
            targets,
            p,
            below.push(kind),
            p + pad.len() + 1,
            end_value(below),
            x,
            true,
        ),
{
    let closer = seq![if kind == FrameView::Array { ']' } else { '}' }];
    let opened = below.push(kind);
    let e = p + pad.len();
    lemma_container_frames(below, kind);
    lemma_stands_split(text, p, pad, closer);
    lemma_stands_char(text, e, closer, 0);
    lemma_blank_covers(text, targets, p, pad, opened, x);
    assert(step(text, targets, e, opened) == Some(
        Step { keep: true, next: e + 1, frames: end_value(below) },
    ));
    lemma_char_covers(text, targets, e, opened, end_value(below), x);
    lemma_cover_chain(text, targets, p, opened, e, opened, e + 1, end_value(below), x, true, true);
}

/// What is covered of the items of an array from index `k` on, and of the
/// bracket that closes the array.
proof fn lemma_items_covers(
    text: Seq<char>,
    targets: Seq<Seq<Seq<char>>>,
    p: int,
    items: Seq<Json>,
    k: int,
    path: Seq<Seq<char>>,
    below: Seq<FrameView>,
    x: int,
)
    requires
        stands_at(text, p, items_text(items, k) + seq![']']),
        0 <= k < items.len(),
        forall|n: int| 0 <= n < items.len() ==> (#[trigger] items[n]).well_formed(),
        key_path(below) == path,
    ensures
        spans_to(
            text,
            targets,
            p,
            below.push(FrameView::Array),
            p + items_text(items, k).len() + 1,
            end_value(below),
            x,
            x - p == items_text(items, k).len() || items_skeleton_at(items, k, x - p)
                || items_selected_at(items, k, targets, path, x - p),
        ),
    decreases items, items.len() - k,
{
    let opened = below.push(FrameView::Array);
    let closer = seq![']'];
    let comma = seq![','];
    let item = items[k];
    let e = p + item.text().len();
    let end = p + items_text(items, k).len();
    let kept = item.skeleton_at(x - p) || item.selected_at(targets, path, x - p);
    lemma_container_frames(below, FrameView::Array);
    lemma_stands_split(text, p, items_text(items, k), closer);
    lemma_stands_char(text, end, closer, 0);
    if k == items.len() - 1 {
        assert(followed(text, e, opened));
        lemma_value_covers(text, targets, p, item, path, opened, x);
        assert(after_value(item, opened) == opened);
        assert(step(text, targets, e, opened) == Some(
            Step { keep: true, next: e + 1, frames: end_value(below) },
        ));
        lemma_char_covers(text, targets, e, opened, end_value(below), x);
        lemma_cover_chain(
            text,
            targets,
            p,
            opened,
            e,
            opened,
            e + 1,
            end_value(below),
            x,
            kept,
            true,
        );
    } else {
        let rest = items_text(items, k + 1);
        lemma_stands_split(text, p, item.text() + comma, rest);
        lemma_stands_split(text, p, item.text(), comma);
        lemma_stands_char(text, e, comma, 0);
        assert(followed(text, e, opened));
        lemma_value_covers(text, targets, p, item, path, opened, x);
        assert(after_value(item, opened) == opened);
        assert(step(text, targets, e, opened) == Some(
            Step { keep: true, next: e + 1, frames: opened },
        ));
        lemma_char_covers(text, targets, e, opened, opened, x);
        assert(stands_at(text, e + 1, rest + closer)) by {
            assert(text.subrange(e + 1, end + 1) =~= text.subrange(e + 1, end) + text.subrange(
                end,
                end + 1,
            ));
        }
        lemma_items_covers(text, targets, e + 1, items, k + 1, path, below, x);
        let tail = x - (e + 1) == rest.len() || items_skeleton_at(items, k + 1, x - (e + 1))
            || items_selected_at(items, k + 1, targets, path, x - (e + 1));
        lemma_cover_chain(text, targets, p, opened, e, opened, e + 1, opened, x, kept, true);
        lemma_cover_chain(
            text,
            targets,
            p,
            opened,
            e + 1,
            opened,
            end + 1,
            end_value(below),
            x,
            if x < e {
                kept
            } else {
                true
            },
            tail,
        );
    }
}

/// What is covered of the members of an object from index `k` on, and of the
/// brace that closes the object.
proof fn lemma_members_covers(
    text: Seq<char>,
    targets: Seq<Seq<Seq<char>>>,
    p: int,
    keys: Seq<Key>,
    values: Seq<Json>,
    k: int,
    path: Seq<Seq<char>>,
    below: Seq<FrameView>,
    x: int,
)
    requires
        stands_at(text, p, members_text(keys, values, k) + seq!['}']),
        0 <= k < values.len(),
        keys.len() == values.len(),
        forall|n: int| 0 <= n < keys.len() ==> (#[trigger] keys[n]).well_formed(),
        forall|n: int| 0 <= n < values.len() ==> (#[trigger] values[n]).well_formed(),
        key_path(below) == path,
    ensures
        spans_to(
            text,
            targets,
            p,
            below.push(FrameView::Object),
            p + members_text(keys, values, k).len() + 1,
            end_value(below),
            x,
            x - p == members_text(keys, values, k).len() || members_skeleton_at(
                keys,
                values,
                k,
                x - p,
            ) || members_selected_at(keys, values, k, targets, path, x - p),
        ),
    decreases values, values.len() - k,
{
    let opened = below.push(FrameView::Object);
    let keyed = opened.push(FrameView::Key(keys[k].name));
    let closer = seq!['}'];
    let comma = seq![','];
    let key = keys[k].text();
    let value = values[k];
    let inner = path.push(keys[k].name);
    let c = p + key.len();
    let e = c + value.text().len();
    let end = p + members_text(keys, values, k).len();
    let behind = after_value(value, keyed);
    let kept = value.skeleton_at(x - c) || value.selected_at(targets, inner, x - c);
    lemma_container_frames(below, FrameView::Object);
    lemma_key_frames(opened, keys[k].name);
    lemma_stands_split(text, p, members_text(keys, values, k), closer);
    lemma_stands_char(text, end, closer, 0);
    assert(end_value(behind) == opened);
    if k == values.len() - 1 {
        lemma_stands_split(text, p, key, value.text());
        lemma_key_covers(text, targets, p, keys[k], opened, x);
        assert(followed(text, e, keyed));
        lemma_value_covers(text, targets, c, value, inner, keyed, x);
        assert(step(text, targets, e, behind) == Some(
            Step { keep: true, next: e + 1, frames: end_value(below) },
        ));
        lemma_char_covers(text, targets, e, behind, end_value(below), x);
        lemma_cover_chain(text, targets, p, opened, c, keyed, e, behind, x, true, kept);
        lemma_cover_chain(
            text,
            targets,
            p,
            opened,
            e,
            behind,
            e + 1,
            end_value(below),
            x,
            if x < c {
                true
            } else {
                kept
            },
            true,
        );
    } else {
        let rest = members_text(keys, values, k + 1);
        lemma_stands_split(text, p, key + value.text() + comma, rest);
        lemma_stands_split(text, p, key + value.text(), comma);
        lemma_stands_split(text, p, key, value.text());
        lemma_stands_char(text, e, comma, 0);
        lemma_key_covers(text, targets, p, keys[k], opened, x);
        assert(followed(text, e, keyed));
        lemma_value_covers(text, targets, c, value, inner, keyed, x);
        assert(step(text, targets, e, behind) == Some(
            Step { keep: true, next: e + 1, frames: opened },
        ));
        lemma_char_covers(text, targets, e, behind, opened, x);
        assert(stands_at(text, e + 1, rest + closer)) by {
            assert(text.subrange(e + 1, end + 1) =~= text.subrange(e + 1, end) + text.subrange(
                end,
                end + 1,
            ));
        }
        lemma_members_covers(text, targets, e + 1, keys, values, k + 1, path, below, x);
        let tail = x - (e + 1) == rest.len() || members_skeleton_at(
            keys,
            values,
            k + 1,
            x - (e + 1),
        ) || members_selected_at(keys, values, k + 1, targets, path, x - (e + 1));
        let first = if x < c {
            true
        } else {
            kept
        };
        lemma_cover_chain(text, targets, p, opened, c, keyed, e, behind, x, true, kept);
        lemma_cover_chain(text, targets, p, opened, e, behind, e + 1, opened, x, first, true);
        lemma_cover_chain(
            text,
            targets,
            p,
            opened,
            e + 1,
            opened,
            end + 1,
            end_value(below),
            x,
            if x < e {
                first
            } else {
                true
            },
            tail,
        );
    }
}

/// The merged ranges of a well-formed document cover a position exactly
/// where it belongs to the skeleton or lies in a value that a target
/// selects.
pub proof fn lemma_cover_of_document(doc: Json, targets: Seq<Seq<Seq<char>>>, x: int)
    requires
        doc.well_formed(),
    ensures
        covers(merged(scanned(doc.text(), targets)), x) == (doc.skeleton_at(x) || doc.selected_at(
            targets,
            Seq::empty(),
            x,
        )),
{
    let text = doc.text();
    let none = Seq::<FrameView>::empty();
    let root = Seq::<Seq<char>>::empty();
    let end = text.len() as int;
    assert(text.subrange(0, end) =~= text);
    lemma_value_covers(text, targets, 0, doc, root, none, x);
    if x >= end {
        lemma_nothing_before(text, targets, end, after_value(doc, none), x);
    }
    lemma_merge_keeps_cover(scanned(text, targets), x);
}

/// The skeleton of a well-formed document is covered whatever the targets
/// are: no bracket, brace, comma, colon, key or whitespace falls into a gap.
pub proof fn lemma_skeleton_is_covered(doc: Json, targets: Seq<Seq<Seq<char>>>, x: int)
    requires
        doc.well_formed(),
        doc.skeleton_at(x),
    ensures
        covers(merged(scanned(doc.text(), targets)), x),
{
    lemma_cover_of_document(doc, targets, x);
}

/// Every bracket, brace, comma and colon of a well-formed document that
/// does not stand in a string value is covered, whatever the targets are.
pub proof fn lemma_punctuation_is_covered(doc: Json, targets: Seq<Seq<Seq<char>>>, x: int)
    requires
        doc.well_formed(),
        0 <= x < doc.text().len(),
        is_punctuation(doc.text()[x]),
        !doc.string_at(x),
    ensures
        covers(merged(scanned(doc.text(), targets)), x),
{
    lemma_punctuation_is_skeleton(doc, x);
    lemma_cover_of_document(doc, targets, x);
}

/// A position of a string or a bare value of a well-formed document is
/// covered exactly where a target selects the value or an array or object
/// around it.
pub proof fn lemma_value_is_covered_where_selected(
    doc: Json,
    targets: Seq<Seq<Seq<char>>>,
    x: int,
)
    requires
        doc.well_formed(),
        !doc.skeleton_at(x),
    ensures
        covers(merged(scanned(doc.text(), targets)), x) == doc.selected_at(
            targets,
            Seq::empty(),
            x,
        ),
{
    lemma_cover_of_document(doc, targets, x);
}

proof fn lemma_selected_by_either(
    v: Json,
    a: Seq<Seq<Seq<char>>>,
    b: Seq<Seq<Seq<char>>>,
    path: Seq<Seq<char>>,
    q: int,
)
    ensures
        v.selected_at(a + b, path, q) == (v.selected_at(a, path, q) || v.selected_at(b, path, q)),
    decreases v, 1int,
{
    lemma_selects_either(a, b, path);
    let at = v.lead().len() as int;
    match v {
        Json::Array { items, .. } => {
            lemma_items_selected_by_either(items, 0, a, b, path, q - at - 1);
        },
        Json::Object { keys, values, .. } => {
            lemma_members_selected_by_either(keys, values, 0, a, b, path, q - at - 1);
        },
        _ => {},
    }
}

proof fn lemma_items_selected_by_either(
    items: Seq<Json>,
    k: int,
    a: Seq<Seq<Seq<char>>>,
    b: Seq<Seq<Seq<char>>>,
    path: Seq<Seq<char>>,
    q: int,
)
    ensures
        items_selected_at(items, k, a + b, path, q) == (items_selected_at(items, k, a, path, q)
            || items_selected_at(items, k, b, path, q)),
    decreases items, items.len() - k,
{
    if 0 <= k < items.len() {
        let n = items[k].text().len() as int;
        if q < n {
            lemma_selected_by_either(items[k], a, b, path, q);
        } else if q > n {
            lemma_items_selected_by_either(items, k + 1, a, b, path, q - n - 1);
        }
    }
}

proof fn lemma_members_selected_by_either(
    keys: Seq<Key>,
    values: Seq<Json>,
    k: int,
    a: Seq<Seq<Seq<char>>>,
    b: Seq<Seq<Seq<char>>>,
    path: Seq<Seq<char>>,
    q: int,
)
    ensures
        members_selected_at(keys, values, k, a + b, path, q) == (members_selected_at(
            keys,
            values,
            k,
            a,
            path,
            q,
        ) || members_selected_at(keys, values, k, b, path, q)),
    decreases values, values.len() - k,
{
    if 0 <= k < values.len() {
        let m = keys[k].text().len() as int;
        let n = m + values[k].text().len();
        if m <= q < n {
            lemma_selected_by_either(values[k], a, b, path.push(keys[k].name), q - m);
        } else if q > n {
            lemma_members_selected_by_either(keys, values, k + 1, a, b, path, q - n - 1);
        }
    }
}

/// The ranges of a well-formed document for two lists of targets together
/// cover what the ranges for the one list cover and what those for the
/// other cover, and nothing else.
pub proof fn lemma_cover_of_union(
    doc: Json,
    a: Seq<Seq<Seq<char>>>,
    b: Seq<Seq<Seq<char>>>,
    x: int,
)
    requires
        doc.well_formed(),
    ensures
        covers(merged(scanned(doc.text(), a + b)), x) == (covers(
            merged(scanned(doc.text(), a)),
            x,
        ) || covers(merged(scanned(doc.text(), b)), x)),
{
    lemma_cover_of_document(doc, a + b, x);
    lemma_cover_of_document(doc, a, x);
    lemma_cover_of_document(doc, b, x);
    lemma_selected_by_either(doc, a, b, Seq::empty(), x);
}

/// Punctuation that does not stand in a string belongs to the skeleton: a
/// bare value holds none.
pub proof fn lemma_punctuation_is_skeleton(v: Json, q: int)
    requires
        v.well_formed(),
        0 <= q < v.text().len(),
        is_punctuation(v.text()[q]),
        !v.string_at(q),
    ensures
        v.skeleton_at(q),
    decreases v, 1int,
{
    let a = v.lead().len() as int;
    let b = a + v.body().len();
    if a <= q < b {
        assert(v.text()[q] == v.body()[q - a]);
        match v {
            Json::Bare { token, .. } => {
                assert(is_bare_char(token[q - a]));
            },
            Json::Array { items, .. } => {
                if a < q < b - 1 && items.len() > 0 {
                    assert(v.body()[q - a] == items_text(items, 0)[q - a - 1]);
                    lemma_items_punctuation_is_skeleton(items, 0, q - a - 1);
                }
            },
            Json::Object { keys, values, .. } => {
                if a < q < b - 1 && values.len() > 0 {
                    assert(v.body()[q - a] == members_text(keys, values, 0)[q - a - 1]);
                    lemma_members_punctuation_is_skeleton(keys, values, 0, q - a - 1);
                }
            },
            _ => {},
        }
    }
}

proof fn lemma_items_punctuation_is_skeleton(items: Seq<Json>, k: int, q: int)
    requires
        0 <= k < items.len(),
        forall|n: int| 0 <= n < items.len() ==> (#[trigger] items[n]).well_formed(),
        0 <= q < items_text(items, k).len(),
        is_punctuation(items_text(items, k)[q]),
        !items_string_at(items, k, q),
    ensures
        items_skeleton_at(items, k, q),
    decreases items, items.len() - k,
{
    let n = items[k].text().len() as int;
    if q < n {
        assert(items_text(items, k)[q] == items[k].text()[q]);
        lemma_punctuation_is_skeleton(items[k], q);
    } else if q > n {
        assert(items_text(items, k)[q] == items_text(items, k + 1)[q - n - 1]);
        lemma_items_punctuation_is_skeleton(items, k + 1, q - n - 1);
    }
}

proof fn lemma_members_punctuation_is_skeleton(keys: Seq<Key>, values: Seq<Json>, k: int, q: int)
    requires
        0 <= k < values.len(),
        forall|n: int| 0 <= n < values.len() ==> (#[trigger] values[n]).well_formed(),
        0 <= q < members_text(keys, values, k).len(),
        is_punctuation(members_text(keys, values, k)[q]),
        !members_string_at(keys, values, k, q),
    ensures
        members_skeleton_at(keys, values, k, q),
    decreases values, values.len() - k,
{
    let m = keys[k].text().len() as int;
    let n = m + values[k].text().len();
    if m <= q < n {
        assert(members_text(keys, values, k)[q] == values[k].text()[q - m]);
        lemma_punctuation_is_skeleton(values[k], q - m);
    } else if q > n {
        assert(members_text(keys, values, k)[q] == members_text(keys, values, k + 1)[q - n - 1]);
        lemma_members_punctuation_is_skeleton(keys, values, k + 1, q - n - 1);
    }
}

/// Every position of the text of a value belongs either to the skeleton or
/// to a string or bare value, and none to both.
pub proof fn lemma_skeleton_or_leaf(v: Json, q: int)
    requires
        0 <= q < v.text().len(),
    ensures
        v.skeleton_at(q) != v.leaf_at(q),
    decreases v, 1int,
{
    let a = v.lead().len() as int;
    let b = a + v.body().len();
    if a < q < b - 1 {
        match v {
            Json::Array { items, .. } => {
                if items.len() > 0 {
                    lemma_items_skeleton_or_leaf(items, 0, q - a - 1);
                }
            },
            Json::Object { keys, values, .. } => {
                if values.len() > 0 {
                    lemma_members_skeleton_or_leaf(keys, values, 0, q - a - 1);
                }
            },
            _ => {},
        }
    }
}

proof fn lemma_items_skeleton_or_leaf(items: Seq<Json>, k: int, q: int)
    requires
        0 <= k < items.len(),
        0 <= q < items_text(items, k).len(),
    ensures
        items_skeleton_at(items, k, q) != items_leaf_at(items, k, q),
    decreases items, items.len() - k,
{
    let n = items[k].text().len() as int;
    if q < n {
        lemma_skeleton_or_leaf(items[k], q);
    } else if q > n {
        lemma_items_skeleton_or_leaf(items, k + 1, q - n - 1);
    }
}

proof fn lemma_members_skeleton_or_leaf(keys: Seq<Key>, values: Seq<Json>, k: int, q: int)
    requires
        0 <= k < values.len(),
        0 <= q < members_text(keys, values, k).len(),
    ensures
        members_skeleton_at(keys, values, k, q) != members_leaf_at(keys, values, k, q),
    decreases values, values.len() - k,
{
    let m = keys[k].text().len() as int;
    let n = m + values[k].text().len();
    if m <= q < n {
        lemma_skeleton_or_leaf(values[k], q - m);
    } else if q > n {
        lemma_members_skeleton_or_leaf(keys, values, k + 1, q - n - 1);
    }
}

proof fn lemma_selects_any_first(
    targets: Seq<Seq<Seq<char>>>,
    path: Seq<Seq<char>>,
    inner: Seq<Seq<Seq<char>>>,
)
    ensures
        selects_any(targets, seq![path] + inner) == (selects(targets, path) || selects_any(
            targets,
            inner,
        )),
{
    let all = seq![path] + inner;
    if selects_any(targets, all) {
        let k = choose|k: int| 0 <= k < all.len() && selects(targets, #[trigger] all[k]);
        if k > 0 {
            assert(all[k] == inner[k - 1]);
            assert(selects(targets, inner[k - 1]));
        }
    }
    if selects(targets, path) {
        assert(selects(targets, all[0]));
    }
    if selects_any(targets, inner) {
        let k = choose|k: int| 0 <= k < inner.len() && selects(targets, #[trigger] inner[k]);
        assert(all[k + 1] == inner[k]);
        assert(selects(targets, all[k + 1]));
    }
}

/// A position lies in a value that a target selects exactly where some
/// target is the key path of one of the values around the position.
pub proof fn lemma_selected_is_some_path(
    v: Json,
    targets: Seq<Seq<Seq<char>>>,
    path: Seq<Seq<char>>,
    q: int,
)
    ensures
        v.selected_at(targets, path, q) == selects_any(targets, v.paths_at(path, q)),
    decreases v, 1int,
{
    let a = v.lead().len() as int;
    let b = a + v.body().len();
    if a <= q < b {
        let inner: Seq<Seq<Seq<char>>> = match v {
            Json::Array { items, .. } => if a < q < b - 1 {
                lemma_items_selected_is_some_path(items, 0, targets, path, q - a - 1);
                items_paths_at(items, 0, path, q - a - 1)
            } else {
                Seq::empty()
            },
            Json::Object { keys, values, .. } => if a < q < b - 1 {
                lemma_members_selected_is_some_path(keys, values, 0, targets, path, q - a - 1);
                members_paths_at(keys, values, 0, path, q - a - 1)
            } else {
                Seq::empty()
            },
            _ => Seq::empty(),
        };
        lemma_selects_any_first(targets, path, inner);
    }
}

proof fn lemma_items_selected_is_some_path(
    items: Seq<Json>,
    k: int,
    targets: Seq<Seq<Seq<char>>>,
    path: Seq<Seq<char>>,
    q: int,
)
    ensures
        items_selected_at(items, k, targets, path, q) == selects_any(
            targets,
            items_paths_at(items, k, path, q),
        ),
    decreases items, items.len() - k,
{
    if 0 <= k < items.len() {
        let n = items[k].text().len() as int;
        if q < n {
            lemma_selected_is_some_path(items[k], targets, path, q);
        } else if q > n {
            lemma_items_selected_is_some_path(items, k + 1, targets, path, q - n - 1);
        }
    }
}

proof fn lemma_members_selected_is_some_path(
    keys: Seq<Key>,
    values: Seq<Json>,
    k: int,
    targets: Seq<Seq<Seq<char>>>,
    path: Seq<Seq<char>>,
    q: int,
)
    ensures
        members_selected_at(keys, values, k, targets, path, q) == selects_any(
            targets,
            members_paths_at(keys, values, k, path, q),
        ),
    decreases values, values.len() - k,
{
    if 0 <= k < values.len() {
        let m = keys[k].text().len() as int;
        let n = m + values[k].text().len();
        if m <= q < n {
            lemma_selected_is_some_path(values[k], targets, path.push(keys[k].name), q - m);
        } else if q > n {
            lemma_members_selected_is_some_path(keys, values, k + 1, targets, path, q - n - 1);
        }
    }
}

proof fn lemma_prefix_chain(a: Seq<Seq<char>>, b: Seq<Seq<char>>, c: Seq<Seq<char>>)
    requires
        a.is_prefix_of(b),
        b.is_prefix_of(c),
    ensures
        a.is_prefix_of(c),
{
    assert(a =~= c.subrange(0, a.len() as int)) by {
        assert(b == c.subrange(0, b.len() as int));
        assert(a == b.subrange(0, a.len() as int));
    }
}

/// The key paths of the values around a position extend one another from
/// the outermost inwards: each begins with the key path of the outermost
/// value and is the beginning of the key path of the innermost.
pub proof fn lemma_paths_nest(v: Json, path: Seq<Seq<char>>, q: int, k: int)
    requires
        0 <= k < v.paths_at(path, q).len(),
    ensures
        path.is_prefix_of(v.paths_at(path, q)[k]),
        v.paths_at(path, q)[k].is_prefix_of(v.paths_at(path, q).last()),
        v.paths_at(path, q)[0] == path,
    decreases v, 1int,
{
    let a = v.lead().len() as int;
    let b = a + v.body().len();
    let all = v.paths_at(path, q);
    assert(path.is_prefix_of(path)) by {
        assert(path =~= path.subrange(0, path.len() as int));
    }
    match v {
        Json::Array { items, .. } => {
            if a < q < b - 1 {
                let inner = items_paths_at(items, 0, path, q - a - 1);
                assert(all == seq![path] + inner);
                if inner.len() > 0 {
                    lemma_items_paths_nest(items, 0, path, q - a - 1, inner.len() - 1);
                    if k > 0 {
                        lemma_items_paths_nest(items, 0, path, q - a - 1, k - 1);
                    }
                }
            }
        },
        Json::Object { keys, values, .. } => {
            if a < q < b - 1 {
                let inner = members_paths_at(keys, values, 0, path, q - a - 1);
                assert(all == seq![path] + inner);
                if inner.len() > 0 {
                    lemma_members_paths_nest(keys, values, 0, path, q - a - 1, inner.len() - 1);
                    if k > 0 {
                        lemma_members_paths_nest(keys, values, 0, path, q - a - 1, k - 1);
                    }
                }
            }
        },
        _ => {},
    }
}

proof fn lemma_items_paths_nest(items: Seq<Json>, i: int, path: Seq<Seq<char>>, q: int, k: int)
    requires
        0 <= k < items_paths_at(items, i, path, q).len(),
    ensures
        path.is_prefix_of(items_paths_at(items, i, path, q)[k]),
        items_paths_at(items, i, path, q)[k].is_prefix_of(items_paths_at(items, i, path, q).last()),
    decreases items, items.len() - i,
{
    if 0 <= i < items.len() {
        let n = items[i].text().len() as int;
        if q < n {
            lemma_paths_nest(items[i], path, q, k);
        } else if q > n {
            lemma_items_paths_nest(items, i + 1, path, q - n - 1, k);
        }
    }
}

proof fn lemma_members_paths_nest(
    keys: Seq<Key>,
    values: Seq<Json>,
    i: int,
    path: Seq<Seq<char>>,
    q: int,
    k: int,
)
    requires
        0 <= k < members_paths_at(keys, values, i, path, q).len(),
    ensures
        path.is_prefix_of(members_paths_at(keys, values, i, path, q)[k]),
        members_paths_at(keys, values, i, path, q)[k].is_prefix_of(
            members_paths_at(keys, values, i, path, q).last(),
        ),
    decreases values, values.len() - i,
{
    if 0 <= i < values.len() {
        let m = keys[i].text().len() as int;
        let n = m + values[i].text().len();
        if m <= q < n {
            let inner = path.push(keys[i].name);
            lemma_paths_nest(values[i], inner, q - m, k);
            assert(path.is_prefix_of(inner)) by {
                assert(path =~= inner.subrange(0, path.len() as int));
            }
            lemma_prefix_chain(path, inner, values[i].paths_at(inner, q - m)[k]);
        } else if q > n {
            lemma_members_paths_nest(keys, values, i + 1, path, q - n - 1, k);
        }
    }
}

/// A position in a string or bare value of a well-formed document is
/// covered exactly where some target is the key path of the value or of an
/// array or object around it. All these key paths are beginnings of the key
/// path of the value, so a target that is longer than it, or differs from
/// it in a key, covers nothing of the value.
pub proof fn lemma_value_cover_by_paths(doc: Json, targets: Seq<Seq<Seq<char>>>, x: int)
    requires
        doc.well_formed(),
        doc.leaf_at(x),
    ensures
        covers(merged(scanned(doc.text(), targets)), x) == selects_any(
            targets,
            doc.paths_at(Seq::empty(), x),
        ),
        doc.paths_at(Seq::empty(), x).len() > 0,
        forall|k: int|
            0 <= k < doc.paths_at(Seq::empty(), x).len() ==> (#[trigger] doc.paths_at(
                Seq::empty(),
                x,
            )[k]).is_prefix_of(doc.paths_at(Seq::empty(), x).last()),
{
    let root = Seq::<Seq<char>>::empty();
    let around = doc.paths_at(root, x);
    assert(0 <= x < doc.text().len());
    lemma_skeleton_or_leaf(doc, x);
    lemma_cover_of_document(doc, targets, x);
    lemma_selected_is_some_path(doc, targets, root, x);
    assert forall|k: int| 0 <= k < around.len() implies (#[trigger] around[k]).is_prefix_of(
        around.last(),
    ) by {
        lemma_paths_nest(doc, root, x, k);
    }
}

} // verus!
