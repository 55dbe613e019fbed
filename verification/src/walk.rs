//! The scan of a well-formed document.
//!
//! The proofs of this module follow the scanner through the text of a
//! document, token by token and value by value, and show what redaction
//! writes for it.

use vstd::prelude::*;
use crate::document::{
    is_bare_char, is_blank, items_redaction, items_text, lemma_blanked,
    lemma_plain_is_well_escaped, members_redaction, members_text, well_escaped, Json, Key,
};
use crate::lex::{
    bare_end, closer_of, ends_bare, is_key_at, is_space, space_end, string_close, subtree_close,
};
use crate::merge::merged;
use crate::path::{close_container, end_value, key_path, selects, FrameView};
use crate::range::Span;
use crate::redact::{
    end_of, gap_mark, kept_text, lemma_kept_text_concat, lemma_merge_keeps_redaction,
    lemma_placeholder_is_quoted, redacted, PLACEHOLDER, REDACTED,
};
use crate::scan::{lemma_scanned_shape, lemma_step_advances, scan_from, scanned, step, Step};

verus! {

/// `s` stands in `text` at position `i`.
pub open spec fn stands_at(text: Seq<char>, i: int, s: Seq<char>) -> bool {
    0 <= i && i + s.len() <= text.len() && text.subrange(i, i + s.len()) == s
}

/// Where two texts stand one behind the other, each stands at its place.
pub proof fn lemma_stands_split(text: Seq<char>, i: int, a: Seq<char>, b: Seq<char>)
    requires
        stands_at(text, i, a + b),
    ensures
        stands_at(text, i, a),
        stands_at(text, i + a.len(), b),
{
    let whole = text.subrange(i, i + (a + b).len());
    assert(text.subrange(i, i + a.len()) =~= whole.subrange(0, a.len() as int));
    assert(whole.subrange(0, a.len() as int) =~= a);
    assert(text.subrange(i + a.len(), i + a.len() + b.len()) =~= whole.subrange(
        a.len() as int,
        (a + b).len() as int,
    ));
    assert(whole.subrange(a.len() as int, (a + b).len() as int) =~= b);
}

/// A text that stands at `i` has its characters there.
pub proof fn lemma_stands_char(text: Seq<char>, i: int, s: Seq<char>, k: int)
    requires
        stands_at(text, i, s),
        0 <= k < s.len(),
    ensures
        text[i + k] == s[k],
{
    assert(text.subrange(i, i + s.len())[k] == text[i + k]);
}

/// Where whitespace stands, the text holds whitespace.
pub proof fn lemma_stands_blank(text: Seq<char>, i: int, s: Seq<char>)
    requires
        stands_at(text, i, s),
        is_blank(s),
    ensures
        forall|k: int| i <= k < i + s.len() ==> is_space(#[trigger] text[k]),
{
    assert forall|k: int| i <= k < i + s.len() implies is_space(#[trigger] text[k]) by {
        lemma_stands_char(text, i, s, k - i);
    }
}

/// A run of whitespace from `i` to `j`, with no whitespace at `j`, ends at `j`.
pub proof fn lemma_space_run(text: Seq<char>, i: int, j: int)
    requires
        0 <= i <= j <= text.len(),
        forall|k: int| i <= k < j ==> is_space(#[trigger] text[k]),
        j == text.len() || !is_space(text[j]),
    ensures
        space_end(text, i) == j,
    decreases j - i,
{
    if i < j {
        lemma_space_run(text, i + 1, j);
    }
}

proof fn lemma_bare_run(text: Seq<char>, i: int, j: int)
    requires
        0 <= i <= j <= text.len(),
        forall|k: int| i <= k < j ==> !ends_bare(#[trigger] text[k]),
        j == text.len() || ends_bare(text[j]),
    ensures
        bare_end(text, i) == j,
    decreases j - i,
{
    if i < j {
        lemma_bare_run(text, i + 1, j);
    }
}

/// The quote behind a well-escaped content closes the string.
pub proof fn lemma_string_run(text: Seq<char>, i: int, content: Seq<char>, k: int)
    requires
        stands_at(text, i, content + seq!['"']),
        0 <= k <= content.len(),
        well_escaped(content, k),
    ensures
        string_close(text, i + k) == Some(i + content.len()),
    decreases content.len() - k,
{
    let s = content + seq!['"'];
    lemma_stands_char(text, i, s, k);
    if k == content.len() {
    } else {
        assert(s[k] == content[k]);
        if content[k] == '\\' {
            lemma_string_run(text, i, content, k + 2);
        } else {
            lemma_string_run(text, i, content, k + 1);
        }
    }
}

/// What redaction writes from position `i` on, with `frames` open there and
/// the text dealt with up to `last`.
spec fn output_from(
    text: Seq<char>,
    targets: Seq<Seq<Seq<char>>>,
    mark: Seq<char>,
    i: int,
    frames: Seq<FrameView>,
    last: int,
) -> Seq<char>
    decreases text.len() - i,
    via output_from_decreases
{
    if 0 <= i < text.len() {
        match step(text, targets, i, frames) {
            Some(s) => if s.keep {
                gap_mark(last, i, mark) + text.subrange(i, s.next) + output_from(
                    text,
                    targets,
                    mark,
                    s.next,
                    s.frames,
                    s.next,
                )
            } else {
                output_from(text, targets, mark, s.next, s.frames, last)
            },
            None => gap_mark(last, text.len() as int, mark),
        }
    } else {
        gap_mark(last, text.len() as int, mark)
    }
}

#[via_fn]
proof fn output_from_decreases(
    text: Seq<char>,
    targets: Seq<Seq<Seq<char>>>,
    mark: Seq<char>,
    i: int,
    frames: Seq<FrameView>,
    last: int,
) {
    if 0 <= i < text.len() {
        lemma_step_advances(text, targets, i, frames);
    }
}

proof fn lemma_output_is_redaction(
    text: Seq<char>,
    targets: Seq<Seq<Seq<char>>>,
    mark: Seq<char>,
    i: int,
    frames: Seq<FrameView>,
    last: int,
)
    requires
        0 <= i <= text.len(),
    ensures
        output_from(text, targets, mark, i, frames, last) == kept_text(
            text,
            scan_from(text, targets, i, frames),
            mark,
            last,
        ) + gap_mark(end_of(scan_from(text, targets, i, frames), last), text.len() as int, mark),
    decreases text.len() - i,
{
    let ranges = scan_from(text, targets, i, frames);
    if i < text.len() {
        lemma_step_advances(text, targets, i, frames);
        match step(text, targets, i, frames) {
            Some(s) => {
                let rest = scan_from(text, targets, s.next, s.frames);
                if s.keep {
                    lemma_output_is_redaction(text, targets, mark, s.next, s.frames, s.next);
                    let token = seq![Span { start: i, end: s.next }];
                    lemma_kept_text_concat(text, token, rest, mark, last);
                    assert(token.drop_last() =~= Seq::<Span>::empty());
                    assert(token.last() == Span { start: i, end: s.next });
                    assert(kept_text(text, token.drop_last(), mark, last) =~= Seq::<char>::empty());
                    assert(kept_text(text, token, mark, last) =~= gap_mark(last, i, mark)
                        + text.subrange(i, s.next));
                    let tail = gap_mark(end_of(rest, s.next), text.len() as int, mark);
                    assert(kept_text(text, token, mark, last) + (kept_text(
                        text,
                        rest,
                        mark,
                        s.next,
                    ) + tail) =~= kept_text(text, token, mark, last) + kept_text(
                        text,
                        rest,
                        mark,
                        s.next,
                    ) + tail);
                } else {
                    lemma_output_is_redaction(text, targets, mark, s.next, s.frames, last);
                }
            },
            None => {
                assert(kept_text(text, ranges, mark, last) + gap_mark(
                    last,
                    text.len() as int,
                    mark,
                ) =~= gap_mark(last, text.len() as int, mark));
            },
        }
    } else {
        assert(kept_text(text, ranges, mark, last) + gap_mark(last, text.len() as int, mark)
            =~= gap_mark(last, text.len() as int, mark));
    }
}

/// Redaction, having dealt with the text up to `i`, writes `out` for the
/// text from `i` to `j`, and has then dealt with the text up to `j`; the
/// frames open are `from` at `i` and `to` at `j`.
spec fn leads(
    text: Seq<char>,
    targets: Seq<Seq<Seq<char>>>,
    mark: Seq<char>,
    i: int,
    from: Seq<FrameView>,
    j: int,
    to: Seq<FrameView>,
    out: Seq<char>,
) -> bool {
    output_from(text, targets, mark, i, from, i) == out + output_from(
        text,
        targets,
        mark,
        j,
        to,
        j,
    )
}

proof fn lemma_leads_chain(
    text: Seq<char>,
    targets: Seq<Seq<Seq<char>>>,
    mark: Seq<char>,
    i: int,
    from: Seq<FrameView>,
    j: int,
    via: Seq<FrameView>,
    k: int,
    to: Seq<FrameView>,
    a: Seq<char>,
    b: Seq<char>,
)
    requires
        leads(text, targets, mark, i, from, j, via, a),
        leads(text, targets, mark, j, via, k, to, b),
    ensures
        leads(text, targets, mark, i, from, k, to, a + b),
{
    let rest = output_from(text, targets, mark, k, to, k);
    assert(a + (b + rest) =~= (a + b) + rest);
}

proof fn lemma_leads_nowhere(
    text: Seq<char>,
    targets: Seq<Seq<Seq<char>>>,
    mark: Seq<char>,
    i: int,
    frames: Seq<FrameView>,
)
    ensures
        leads(text, targets, mark, i, frames, i, frames, Seq::empty()),
{
    let rest = output_from(text, targets, mark, i, frames, i);
    assert(Seq::<char>::empty() + rest =~= rest);
}

/// A token that is kept: redaction copies it.
proof fn lemma_kept_token(
    text: Seq<char>,
    targets: Seq<Seq<Seq<char>>>,
    mark: Seq<char>,
    i: int,
    frames: Seq<FrameView>,
)
    requires
        0 <= i < text.len(),
        step(text, targets, i, frames) is Some,
        step(text, targets, i, frames)->0.keep,
    ensures
        leads(
            text,
            targets,
            mark,
            i,
            frames,
            step(text, targets, i, frames)->0.next,
            step(text, targets, i, frames)->0.frames,
            text.subrange(i, step(text, targets, i, frames)->0.next),
        ),
{
    let s = step(text, targets, i, frames)->0;
    let rest = output_from(text, targets, mark, s.next, s.frames, s.next);
    assert(gap_mark(i, i, mark) + text.subrange(i, s.next) + rest =~= text.subrange(i, s.next)
        + rest);
}

/// The placeholder for a gap is written with the first token behind the gap
/// that is kept, or at the end of the text.
proof fn lemma_gap_is_marked(
    text: Seq<char>,
    targets: Seq<Seq<Seq<char>>>,
    mark: Seq<char>,
    j: int,
    frames: Seq<FrameView>,
    last: int,
)
    requires
        0 <= last < j <= text.len(),
        j < text.len() ==> step(text, targets, j, frames) is Some && step(
            text,
            targets,
            j,
            frames,
        )->0.keep,
    ensures
        output_from(text, targets, mark, j, frames, last) == mark + output_from(
            text,
            targets,
            mark,
            j,
            frames,
            j,
        ),
{
    if j < text.len() {
        let s = step(text, targets, j, frames)->0;
        let rest = output_from(text, targets, mark, s.next, s.frames, s.next);
        let copy = text.subrange(j, s.next);
        assert(gap_mark(last, j, mark) + copy + rest =~= mark + (gap_mark(j, j, mark) + copy
            + rest));
    } else {
        assert(mark + gap_mark(j, text.len() as int, mark) =~= mark);
    }
}

/// A run of whitespace is one token, and is kept.
proof fn lemma_blank_leads(
    text: Seq<char>,
    targets: Seq<Seq<Seq<char>>>,
    mark: Seq<char>,
    i: int,
    blank: Seq<char>,
    frames: Seq<FrameView>,
)
    requires
        stands_at(text, i, blank),
        is_blank(blank),
        i + blank.len() == text.len() || !is_space(text[i + blank.len()]),
    ensures
        leads(text, targets, mark, i, frames, i + blank.len(), frames, blank),
{
    if blank.len() == 0 {
        lemma_leads_nowhere(text, targets, mark, i, frames);
        assert(blank =~= Seq::<char>::empty());
    } else {
        lemma_stands_blank(text, i, blank);
        lemma_space_run(text, i + 1, i + blank.len());
        assert(is_space(text[i]));
        lemma_kept_token(text, targets, mark, i, frames);
    }
}

/// A token of one character that is kept.
proof fn lemma_char_leads(
    text: Seq<char>,
    targets: Seq<Seq<Seq<char>>>,
    mark: Seq<char>,
    i: int,
    frames: Seq<FrameView>,
)
    requires
        0 <= i < text.len(),
        step(text, targets, i, frames) is Some,
        step(text, targets, i, frames)->0.keep,
        step(text, targets, i, frames)->0.next == i + 1,
    ensures
        leads(
            text,
            targets,
            mark,
            i,
            frames,
            i + 1,
            step(text, targets, i, frames)->0.frames,
            seq![text[i]],
        ),
{
    lemma_kept_token(text, targets, mark, i, frames);
    assert(text.subrange(i, i + 1) =~= seq![text[i]]);
}

/// A key, from the whitespace in front of it to its colon: all of it is
/// kept, and the key is open behind it.
proof fn lemma_key_leads(
    text: Seq<char>,
    targets: Seq<Seq<Seq<char>>>,
    mark: Seq<char>,
    i: int,
    key: Key,
    frames: Seq<FrameView>,
)
    requires
        stands_at(text, i, key.text()),
        key.well_formed(),
    ensures
        leads(
            text,
            targets,
            mark,
            i,
            frames,
            i + key.text().len(),
            frames.push(FrameView::Key(key.name)),
            key.text(),
        ),
{
    let quote = seq!['"'];
    let colon = seq![':'];
    let a = i + key.lead.len();
    let q = a + 1 + key.name.len();
    let g = q + 1;
    let c = g + key.gap.len();
    lemma_stands_split(text, i, key.lead + quote + key.name + quote + key.gap, colon);
    lemma_stands_split(text, i, key.lead + quote + key.name + quote, key.gap);
    lemma_stands_split(text, i, key.lead + quote + key.name, quote);
    lemma_stands_split(text, i, key.lead + quote, key.name);
    lemma_stands_split(text, i, key.lead, quote);
    lemma_stands_char(text, a, quote, 0);
    lemma_stands_char(text, q, quote, 0);
    lemma_stands_char(text, c, colon, 0);
    assert(text[a] == '"' && text[q] == '"' && text[c] == ':');
    // the whitespace in front
    lemma_blank_leads(text, targets, mark, i, key.lead, frames);
    // the key itself
    let opened = frames.push(FrameView::Key(key.name));
    assert(stands_at(text, a + 1, key.name + quote)) by {
        assert(text.subrange(a + 1, q + 1) =~= text.subrange(a + 1, q) + text.subrange(q, q + 1));
    }
    lemma_string_run(text, a + 1, key.name, 0);
    lemma_stands_blank(text, g, key.gap);
    lemma_space_run(text, g, c);
    assert(is_key_at(text, q));
    assert(text.subrange(a + 1, q) == key.name);
    assert(step(text, targets, a, frames) == Some(Step { keep: true, next: g, frames: opened }));
    lemma_kept_token(text, targets, mark, a, frames);
    assert(text.subrange(a, g) =~= quote + key.name + quote);
    // the whitespace behind it, and the colon
    lemma_blank_leads(text, targets, mark, g, key.gap, opened);
    assert(step(text, targets, c, opened) == Some(Step { keep: true, next: c + 1, frames: opened }));
    lemma_char_leads(text, targets, mark, c, opened);
    lemma_leads_chain(text, targets, mark, i, frames, a, frames, g, opened, key.lead, quote + key.name + quote);
    lemma_leads_chain(text, targets, mark, i, frames, g, opened, c, opened, key.lead + (quote + key.name + quote), key.gap);
    lemma_leads_chain(text, targets, mark, i, frames, c, opened, c + 1, opened, key.lead + (quote + key.name + quote) + key.gap, colon);
    assert(key.lead + (quote + key.name + quote) + key.gap + colon =~= key.text());
}

/// The search for the bracket that closes a subtree comes from `i` to `j`
/// with the same brackets open, and outside any string.
spec fn passes(text: Seq<char>, i: int, j: int, open: char, depth: nat) -> bool {
    subtree_close(text, i, open, depth, false) == subtree_close(text, j, open, depth, false)
}

proof fn lemma_pass_plain(text: Seq<char>, i: int, j: int, open: char, depth: nat)
    requires
        0 <= i <= j <= text.len(),
        forall|k: int|
            i <= k < j ==> (#[trigger] text[k]) != '"' && text[k] != open && text[k] != closer_of(
                open,
            ),
    ensures
        passes(text, i, j, open, depth),
    decreases j - i,
{
    if i < j {
        lemma_pass_plain(text, i + 1, j, open, depth);
    }
}

proof fn lemma_pass_blank(text: Seq<char>, i: int, blank: Seq<char>, open: char, depth: nat)
    requires
        stands_at(text, i, blank),
        is_blank(blank),
        open == '{' || open == '[',
    ensures
        passes(text, i, i + blank.len(), open, depth),
{
    lemma_stands_blank(text, i, blank);
    lemma_pass_plain(text, i, i + blank.len(), open, depth);
}

proof fn lemma_pass_char(text: Seq<char>, i: int, c: char, open: char, depth: nat)
    requires
        0 <= i < text.len(),
        text[i] == c,
        c != '"' && c != open && c != closer_of(open),
    ensures
        passes(text, i, i + 1, open, depth),
{
    lemma_pass_plain(text, i, i + 1, open, depth);
}

proof fn lemma_pass_quoted(
    text: Seq<char>,
    i: int,
    content: Seq<char>,
    k: int,
    open: char,
    depth: nat,
)
    requires
        stands_at(text, i, content + seq!['"']),
        0 <= k <= content.len(),
        well_escaped(content, k),
    ensures
        subtree_close(text, i + k, open, depth, true) == subtree_close(
            text,
            i + content.len() + 1,
            open,
            depth,
            false,
        ),
    decreases content.len() - k,
{
    let s = content + seq!['"'];
    lemma_stands_char(text, i, s, k);
    if k < content.len() {
        assert(s[k] == content[k]);
        if content[k] == '\\' {
            lemma_pass_quoted(text, i, content, k + 2, open, depth);
        } else {
            lemma_pass_quoted(text, i, content, k + 1, open, depth);
        }
    }
}

proof fn lemma_pass_string(text: Seq<char>, i: int, content: Seq<char>, open: char, depth: nat)
    requires
        stands_at(text, i, seq!['"'] + content + seq!['"']),
        well_escaped(content, 0),
    ensures
        passes(text, i, i + content.len() + 2, open, depth),
{
    let quote = seq!['"'];
    lemma_stands_split(text, i, quote + content, quote);
    lemma_stands_split(text, i, quote, content);
    lemma_stands_char(text, i, quote, 0);
    assert(stands_at(text, i + 1, content + quote)) by {
        let q = i + 1 + content.len();
        assert(text.subrange(i + 1, q + 1) =~= text.subrange(i + 1, q) + text.subrange(q, q + 1));
    }
    lemma_pass_quoted(text, i + 1, content, 0, open, depth);
}

proof fn lemma_pass_key(text: Seq<char>, i: int, key: Key, open: char, depth: nat)
    requires
        stands_at(text, i, key.text()),
        key.well_formed(),
        open == '{' || open == '[',
    ensures
        passes(text, i, i + key.text().len(), open, depth),
{
    let quote = seq!['"'];
    let colon = seq![':'];
    let a = i + key.lead.len();
    let g = a + key.name.len() + 2;
    let c = g + key.gap.len();
    lemma_stands_split(text, i, key.lead + quote + key.name + quote + key.gap, colon);
    lemma_stands_split(text, i, key.lead + quote + key.name + quote, key.gap);
    assert(key.lead + quote + key.name + quote =~= key.lead + (quote + key.name + quote));
    lemma_stands_split(text, i, key.lead, quote + key.name + quote);
    lemma_stands_char(text, c, colon, 0);
    lemma_pass_blank(text, i, key.lead, open, depth);
    lemma_pass_string(text, a, key.name, open, depth);
    lemma_pass_blank(text, g, key.gap, open, depth);
    lemma_pass_char(text, c, ':', open, depth);
}

proof fn lemma_pass_value(text: Seq<char>, i: int, v: Json, open: char, depth: nat)
    requires
        stands_at(text, i, v.text()),
        v.well_formed(),
        open == '{' || open == '[',
        depth >= 1,
    ensures
        passes(text, i, i + v.text().len(), open, depth),
    decreases v, 0int,
{
    let a = i + v.lead().len();
    let b = a + v.body().len();
    lemma_stands_split(text, i, v.lead() + v.body(), v.trail());
    lemma_stands_split(text, i, v.lead(), v.body());
    lemma_pass_blank(text, i, v.lead(), open, depth);
    lemma_pass_blank(text, b, v.trail(), open, depth);
    match v {
        Json::Bare { token, .. } => {
            assert forall|k: int| a <= k < b implies (#[trigger] text[k]) != '"' && text[k] != open
                && text[k] != closer_of(open) by {
                lemma_stands_char(text, a, token, k - a);
                assert(is_bare_char(token[k - a]));
            }
            lemma_pass_plain(text, a, b, open, depth);
        },
        Json::Text { content, .. } => {
            lemma_pass_string(text, a, content, open, depth);
        },
        Json::Array { items, pad, .. } => {
            let inside = v.inside();
            lemma_stands_split(text, a, seq!['['] + inside, seq![']']);
            lemma_stands_split(text, a, seq!['['], inside);
            lemma_stands_char(text, a, seq!['['], 0);
            lemma_stands_char(text, b - 1, seq![']'], 0);
            let within: nat = if open == '[' {
                depth + 1
            } else {
                depth
            };
            if items.len() == 0 {
                lemma_pass_blank(text, a + 1, pad, open, within);
            } else {
                lemma_pass_items(text, a + 1, items, 0, open, within);
            }
            assert(subtree_close(text, a, open, depth, false) == subtree_close(
                text,
                a + 1,
                open,
                within,
                false,
            ));
            assert(subtree_close(text, b - 1, open, within, false) == subtree_close(
                text,
                b,
                open,
                depth,
                false,
            ));
        },
        Json::Object { keys, values, pad, .. } => {
            let inside = v.inside();
            lemma_stands_split(text, a, seq!['{'] + inside, seq!['}']);
            lemma_stands_split(text, a, seq!['{'], inside);
            lemma_stands_char(text, a, seq!['{'], 0);
            lemma_stands_char(text, b - 1, seq!['}'], 0);
            let within: nat = if open == '{' {
                depth + 1
            } else {
                depth
            };
            if values.len() == 0 {
                lemma_pass_blank(text, a + 1, pad, open, within);
            } else {
                lemma_pass_members(text, a + 1, keys, values, 0, open, within);
            }
            assert(subtree_close(text, a, open, depth, false) == subtree_close(
                text,
                a + 1,
                open,
                within,
                false,
            ));
            assert(subtree_close(text, b - 1, open, within, false) == subtree_close(
                text,
                b,
                open,
                depth,
                false,
            ));
        },
    }
}

proof fn lemma_pass_items(
    text: Seq<char>,
    i: int,
    items: Seq<Json>,
    k: int,
    open: char,
    depth: nat,
)
    requires
        stands_at(text, i, items_text(items, k)),
        0 <= k < items.len(),
        forall|n: int| 0 <= n < items.len() ==> (#[trigger] items[n]).well_formed(),
        open == '{' || open == '[',
        depth >= 1,
    ensures
        passes(text, i, i + items_text(items, k).len(), open, depth),
    decreases items, items.len() - k,
{
    let item = items[k].text();
    if k == items.len() - 1 {
        lemma_pass_value(text, i, items[k], open, depth);
    } else {
        let rest = items_text(items, k + 1);
        lemma_stands_split(text, i, item + seq![','], rest);
        lemma_stands_split(text, i, item, seq![',']);
        lemma_stands_char(text, i + item.len(), seq![','], 0);
        lemma_pass_value(text, i, items[k], open, depth);
        lemma_pass_char(text, i + item.len(), ',', open, depth);
        lemma_pass_items(text, i + item.len() + 1, items, k + 1, open, depth);
    }
}

proof fn lemma_pass_members(
    text: Seq<char>,
    i: int,
    keys: Seq<Key>,
    values: Seq<Json>,
    k: int,
    open: char,
    depth: nat,
)
    requires
        stands_at(text, i, members_text(keys, values, k)),
        0 <= k < values.len(),
        keys.len() == values.len(),
        forall|n: int| 0 <= n < keys.len() ==> (#[trigger] keys[n]).well_formed(),
        forall|n: int| 0 <= n < values.len() ==> (#[trigger] values[n]).well_formed(),
        open == '{' || open == '[',
        depth >= 1,
    ensures
        passes(text, i, i + members_text(keys, values, k).len(), open, depth),
    decreases values, values.len() - k,
{
    let key = keys[k].text();
    let value = values[k].text();
    if k == values.len() - 1 {
        lemma_stands_split(text, i, key, value);
        lemma_pass_key(text, i, keys[k], open, depth);
        lemma_pass_value(text, i + key.len(), values[k], open, depth);
    } else {
        let rest = members_text(keys, values, k + 1);
        lemma_stands_split(text, i, key + value + seq![','], rest);
        lemma_stands_split(text, i, key + value, seq![',']);
        lemma_stands_split(text, i, key, value);
        lemma_stands_char(text, i + key.len() + value.len(), seq![','], 0);
        lemma_pass_key(text, i, keys[k], open, depth);
        lemma_pass_value(text, i + key.len(), values[k], open, depth);
        lemma_pass_char(text, i + key.len() + value.len(), ',', open, depth);
        lemma_pass_members(text, i + key.len() + value.len() + 1, keys, values, k + 1, open, depth);
    }
}

/// The bracket that closes an array or object of a well-formed document is
/// its last character.
pub proof fn lemma_subtree_closes(text: Seq<char>, a: int, v: Json)
    requires
        stands_at(text, a, v.body()),
        v.well_formed(),
        v.is_container(),
    ensures
        subtree_close(text, a + 1, text[a], 1, false) == Some(a + v.body().len() - 1),
{
    let open = if v is Array {
        '['
    } else {
        '{'
    };
    let opener = seq![open];
    let closer = seq![closer_of(open)];
    let inside = v.inside();
    let b = a + v.body().len();
    assert(v.body() == opener + inside + closer);
    lemma_stands_split(text, a, opener + inside, closer);
    lemma_stands_split(text, a, opener, inside);
    lemma_stands_char(text, a, opener, 0);
    lemma_stands_char(text, b - 1, closer, 0);
    match v {
        Json::Array { items, pad, .. } => {
            if items.len() == 0 {
                lemma_pass_blank(text, a + 1, pad, open, 1);
            } else {
                lemma_pass_items(text, a + 1, items, 0, open, 1);
            }
        },
        Json::Object { keys, values, pad, .. } => {
            if values.len() == 0 {
                lemma_pass_blank(text, a + 1, pad, open, 1);
            } else {
                lemma_pass_members(text, a + 1, keys, values, 0, open, 1);
            }
        },
        _ => {},
    }
}

/// The innermost open frame is `kind`.
pub open spec fn top_is(frames: Seq<FrameView>, kind: FrameView) -> bool {
    frames.len() > 0 && frames.last() == kind
}

/// What stands behind a value at position `j` lets the scan go on: the end
/// of the text, a comma, or the bracket that closes the innermost container
/// open around the value.
pub open spec fn followed(text: Seq<char>, j: int, frames: Seq<FrameView>) -> bool {
    j == text.len() || (0 <= j < text.len() && {
        ||| text[j] == ','
        ||| text[j] == '}' && top_is(end_value(frames), FrameView::Object)
        ||| text[j] == ']' && top_is(end_value(frames), FrameView::Array)
    })
}

/// The frames open behind a value, `frames` having been open in front of
/// it: the scan drops the key of an array or object when that one closes,
/// and the key of a string or bare value only at the comma or bracket that
/// comes next.
pub open spec fn after_value(v: Json, frames: Seq<FrameView>) -> Seq<FrameView> {
    if v.is_container() {
        end_value(frames)
    } else {
        frames
    }
}

/// The frames behind an opening bracket, and what its closing bracket makes
/// of them.
pub proof fn lemma_container_frames(below: Seq<FrameView>, kind: FrameView)
    requires
        kind == FrameView::Object || kind == FrameView::Array,
    ensures
        end_value(below.push(kind)) == below.push(kind),
        key_path(below.push(kind)) == key_path(below),
        close_container(below.push(kind), kind) == Some(end_value(below)),
        top_is(below.push(kind), kind),
{
    let opened = below.push(kind);
    assert(opened.drop_last() =~= below);
}

/// The frames behind a key.
pub proof fn lemma_key_frames(inside: Seq<FrameView>, name: Seq<char>)
    ensures
        end_value(inside.push(FrameView::Key(name))) == inside,
        key_path(inside.push(FrameView::Key(name))) == key_path(inside).push(name),
{
    let keyed = inside.push(FrameView::Key(name));
    assert(keyed.drop_last() =~= inside);
}

/// A value starts with a character that is no whitespace and tells its kind.
pub proof fn lemma_body_starts(v: Json)
    requires
        v.well_formed(),
    ensures
        v.body().len() > 0,
        !is_space(v.body()[0]),
        v is Bare ==> is_bare_char(v.body()[0]),
        v is Text ==> v.body()[0] == '"',
        v is Array ==> v.body()[0] == '[',
        v is Object ==> v.body()[0] == '{',
{
    match v {
        Json::Bare { token, .. } => {
            assert(is_bare_char(token[0]));
        },
        _ => {},
    }
}

/// The scan of a well-formed value: redaction writes the value as
/// `Json::redaction` says.
proof fn lemma_value_leads(
    text: Seq<char>,
    targets: Seq<Seq<Seq<char>>>,
    mark: Seq<char>,
    i: int,
    v: Json,
    path: Seq<Seq<char>>,
    frames: Seq<FrameView>,
)
    requires
        stands_at(text, i, v.text()),
        v.well_formed(),
        key_path(frames) == path,
        followed(text, i + v.text().len(), frames),
    ensures
        leads(
            text,
            targets,
            mark,
            i,
            frames,
            i + v.text().len(),
            after_value(v, frames),
            v.redaction(targets, path, mark),
        ),
    decreases v, 4int,
{
    let a = i + v.lead().len();
    let b = a + v.body().len();
    let j = b + v.trail().len();
    let behind = after_value(v, frames);
    let hit = selects(targets, path);
    lemma_stands_split(text, i, v.lead() + v.body(), v.trail());
    lemma_stands_split(text, i, v.lead(), v.body());
    lemma_body_starts(v);
    lemma_stands_char(text, a, v.body(), 0);
    // the whitespace in front
    lemma_blank_leads(text, targets, mark, i, v.lead(), frames);
    // the value itself and the whitespace behind it
    lemma_body_leads(text, targets, mark, a, v, path, frames);
    lemma_leads_chain(
        text,
        targets,
        mark,
        i,
        frames,
        a,
        frames,
        j,
        behind,
        v.lead(),
        v.body_redaction(targets, path, mark) + v.trail(),
    );
    assert(v.lead() + (v.body_redaction(targets, path, mark) + v.trail()) =~= v.redaction(
        targets,
        path,
        mark,
    ));
}

/// The scan of a well-formed value from its first character to the end of
/// the whitespace behind it.
proof fn lemma_body_leads(
    text: Seq<char>,
    targets: Seq<Seq<Seq<char>>>,
    mark: Seq<char>,
    a: int,
    v: Json,
    path: Seq<Seq<char>>,
    frames: Seq<FrameView>,
)
    requires
        stands_at(text, a, v.body()),
        stands_at(text, a + v.body().len(), v.trail()),
        v.well_formed(),
        key_path(frames) == path,
        followed(text, a + v.body().len() + v.trail().len(), frames),
    ensures
        leads(
            text,
            targets,
            mark,
            a,
            frames,
            a + v.body().len() + v.trail().len(),
            after_value(v, frames),
            v.body_redaction(targets, path, mark) + v.trail(),
        ),
    decreases v, 3int,
{
    let b = a + v.body().len();
    let j = b + v.trail().len();
    let behind = after_value(v, frames);
    let hit = selects(targets, path);
    lemma_body_starts(v);
    lemma_stands_char(text, a, v.body(), 0);
    lemma_stands_blank(text, b, v.trail());
    if v.is_container() {
        lemma_container_leads(text, targets, mark, a, v, path, frames);
        lemma_blank_leads(text, targets, mark, b, v.trail(), behind);
        lemma_leads_chain(
            text,
            targets,
            mark,
            a,
            frames,
            b,
            behind,
            j,
            behind,
            v.body_redaction(targets, path, mark),
            v.trail(),
        );
    } else {
        // a string or a bare value is one token, from `a` to `b`
        lemma_scalar_step(text, targets, a, v, frames);
        if hit {
            lemma_kept_token(text, targets, mark, a, frames);
            lemma_blank_leads(text, targets, mark, b, v.trail(), frames);
            lemma_leads_chain(
                text,
                targets,
                mark,
                a,
                frames,
                b,
                frames,
                j,
                frames,
                v.body(),
                v.trail(),
            );
        } else {
            assert(output_from(text, targets, mark, a, frames, a) == output_from(
                text,
                targets,
                mark,
                b,
                frames,
                a,
            ));
            let rest = output_from(text, targets, mark, j, frames, j);
            if v.trail().len() > 0 {
                lemma_space_run(text, b + 1, j);
                assert(is_space(text[b]));
                assert(step(text, targets, b, frames) == Some(
                    Step { keep: true, next: j, frames },
                ));
                assert(gap_mark(a, b, mark) + text.subrange(b, j) + rest =~= (mark + v.trail())
                    + rest);
            } else {
                lemma_follower_kept(text, targets, j, frames);
                lemma_gap_is_marked(text, targets, mark, j, frames, a);
                assert(mark + v.trail() =~= mark);
            }
        }
    }
}

proof fn lemma_follower_kept(
    text: Seq<char>,
    targets: Seq<Seq<Seq<char>>>,
    j: int,
    frames: Seq<FrameView>,
)
    requires
        followed(text, j, frames),
    ensures
        j < text.len() ==> step(text, targets, j, frames) is Some && step(
            text,
            targets,
            j,
            frames,
        )->0.keep,
{
}

/// A string or a bare value is one token; it is kept where a target selects
/// its key path, and leaves the frames as they are.
pub proof fn lemma_scalar_step(
    text: Seq<char>,
    targets: Seq<Seq<Seq<char>>>,
    a: int,
    v: Json,
    frames: Seq<FrameView>,
)
    requires
        stands_at(text, a, v.body()),
        stands_at(text, a + v.body().len(), v.trail()),
        v.well_formed(),
        !v.is_container(),
        followed(text, a + v.body().len() + v.trail().len(), frames),
    ensures
        step(text, targets, a, frames) == Some(
            Step {
                keep: selects(targets, key_path(frames)),
                next: a + v.body().len(),
                frames,
            },
        ),
{
    let b = a + v.body().len();
    let j = b + v.trail().len();
    lemma_body_starts(v);
    lemma_stands_char(text, a, v.body(), 0);
    lemma_stands_blank(text, b, v.trail());
    match v {
        Json::Bare { token, .. } => {
            assert forall|k: int| a + 1 <= k < b implies !ends_bare(#[trigger] text[k]) by {
                lemma_stands_char(text, a, token, k - a);
                assert(is_bare_char(token[k - a]));
            }
            if v.trail().len() > 0 {
                assert(is_space(text[b]));
            }
            lemma_bare_run(text, a + 1, b);
        },
        Json::Text { content, .. } => {
            let quote = seq!['"'];
            lemma_stands_split(text, a, quote + content, quote);
            lemma_stands_split(text, a, quote, content);
            assert(stands_at(text, a + 1, content + quote)) by {
                let q = a + 1 + content.len();
                assert(text.subrange(a + 1, q + 1) =~= text.subrange(a + 1, q) + text.subrange(
                    q,
                    q + 1,
                ));
            }
            lemma_string_run(text, a + 1, content, 0);
            lemma_space_run(text, b, j);
            assert(!is_key_at(text, b - 1));
        },
        _ => {},
    }
}

/// The scan of an array or an object, from its opening bracket to its
/// closing one.
proof fn lemma_container_leads(
    text: Seq<char>,
    targets: Seq<Seq<Seq<char>>>,
    mark: Seq<char>,
    a: int,
    v: Json,
    path: Seq<Seq<char>>,
    frames: Seq<FrameView>,
)
    requires
        stands_at(text, a, v.body()),
        v.well_formed(),
        v.is_container(),
        key_path(frames) == path,
    ensures
        leads(
            text,
            targets,
            mark,
            a,
            frames,
            a + v.body().len(),
            end_value(frames),
            v.body_redaction(targets, path, mark),
        ),
    decreases v, 2int,
{
    let b = a + v.body().len();
    let open = if v is Array {
        '['
    } else {
        '{'
    };
    let kind = if v is Array {
        FrameView::Array
    } else {
        FrameView::Object
    };
    let opener = seq![open];
    let closer = seq![closer_of(open)];
    let inside = v.inside();
    assert(v.body() == opener + inside + closer);
    lemma_stands_split(text, a, opener + inside, closer);
    lemma_stands_split(text, a, opener, inside);
    lemma_stands_char(text, a, opener, 0);
    lemma_stands_char(text, b - 1, closer, 0);
    if selects(targets, path) {
        lemma_subtree_closes(text, a, v);
        assert(step(text, targets, a, frames) == Some(
            Step { keep: true, next: b, frames: end_value(frames) },
        ));
        lemma_kept_token(text, targets, mark, a, frames);
        assert(text.subrange(a, b) == v.body());
    } else {
        let opened = frames.push(kind);
        lemma_container_frames(frames, kind);
        assert(step(text, targets, a, frames) == Some(
            Step { keep: true, next: a + 1, frames: opened },
        ));
        lemma_char_leads(text, targets, mark, a, frames);
        let written = v.inside_redaction(targets, path, mark);
        assert(text.subrange(a + 1, b) =~= inside + closer);
        lemma_inside_leads(text, targets, mark, a + 1, v, path, frames);
        lemma_leads_chain(
            text,
            targets,
            mark,
            a,
            frames,
            a + 1,
            opened,
            b,
            end_value(frames),
            opener,
            written + closer,
        );
        assert(opener + (written + closer) =~= opener + written + closer);
    }
}

/// The scan of what stands inside an array or object that no target
/// selects, and of the bracket that closes it.
proof fn lemma_inside_leads(
    text: Seq<char>,
    targets: Seq<Seq<Seq<char>>>,
    mark: Seq<char>,
    p: int,
    v: Json,
    path: Seq<Seq<char>>,
    below: Seq<FrameView>,
)
    requires
        v.well_formed(),
        v.is_container(),
        stands_at(text, p, v.inside() + seq![closer_of(if v is Array { '[' } else { '{' })]),
        key_path(below) == path,
    ensures
        leads(
            text,
            targets,
            mark,
            p,
            below.push(if v is Array { FrameView::Array } else { FrameView::Object }),
            p + v.inside().len() + 1,
            end_value(below),
            v.inside_redaction(targets, path, mark) + seq![closer_of(if v is Array { '[' } else { '{' })],
        ),
    decreases v, 1int,
{
    match v {
        Json::Array { items, pad, .. } => {
            if items.len() == 0 {
                lemma_empty_leads(text, targets, mark, p, pad, FrameView::Array, below);
            } else {
                lemma_items_leads(text, targets, mark, p, items, 0, path, below);
            }
        },
        Json::Object { keys, values, pad, .. } => {
            if values.len() == 0 {
                lemma_empty_leads(text, targets, mark, p, pad, FrameView::Object, below);
            } else {
                lemma_members_leads(text, targets, mark, p, keys, values, 0, path, below);
            }
        },
        _ => {},
    }
}

/// The scan of the whitespace inside an empty array or object, and of the
/// bracket that closes it.
proof fn lemma_empty_leads(
    text: Seq<char>,
    targets: Seq<Seq<Seq<char>>>,
    mark: Seq<char>,
    p: int,
    pad: Seq<char>,
    kind: FrameView,
    below: Seq<FrameView>,
)
    requires
        kind == FrameView::Object || kind == FrameView::Array,
        is_blank(pad),
        stands_at(text, p, pad + seq![if kind == FrameView::Array { ']' } else { '}' }]),
    ensures
        leads(
            text,
            targets,
            mark,
            p,
            below.push(kind),
            p + pad.len() + 1,
            end_value(below),
            pad + seq![if kind == FrameView::Array { ']' } else { '}' }],
        ),
{
    let closer = seq![if kind == FrameView::Array { ']' } else { '}' }];
    let opened = below.push(kind);
    let e = p + pad.len();
    lemma_container_frames(below, kind);
    lemma_stands_split(text, p, pad, closer);
    lemma_stands_char(text, e, closer, 0);
    lemma_blank_leads(text, targets, mark, p, pad, opened);
    assert(step(text, targets, e, opened) == Some(
        Step { keep: true, next: e + 1, frames: end_value(below) },
    ));
    lemma_char_leads(text, targets, mark, e, opened);
    lemma_leads_chain(
        text,
        targets,
        mark,
        p,
        opened,
        e,
        opened,
        e + 1,
        end_value(below),
        pad,
        closer,
    );
}

/// The scan of the items of an array from index `k` on, and of the bracket
/// that closes the array.
proof fn lemma_items_leads(
    text: Seq<char>,
    targets: Seq<Seq<Seq<char>>>,
    mark: Seq<char>,
    p: int,
    items: Seq<Json>,
    k: int,
    path: Seq<Seq<char>>,
    below: Seq<FrameView>,
)
    requires
        stands_at(text, p, items_text(items, k) + seq![']']),
        0 <= k < items.len(),
        forall|n: int| 0 <= n < items.len() ==> (#[trigger] items[n]).well_formed(),
        key_path(below) == path,
    ensures
        leads(
            text,
            targets,
            mark,
            p,
            below.push(FrameView::Array),
            p + items_text(items, k).len() + 1,
            end_value(below),
            items_redaction(items, k, targets, path, mark) + seq![']'],
        ),
    decreases items, items.len() - k,
{
    let opened = below.push(FrameView::Array);
    let closer = seq![']'];
    let comma = seq![','];
    let item = items[k];
    let e = p + item.text().len();
    let end = p + items_text(items, k).len();
    let written = item.redaction(targets, path, mark);
    lemma_container_frames(below, FrameView::Array);
    lemma_stands_split(text, p, items_text(items, k), closer);
    lemma_stands_char(text, end, closer, 0);
    if k == items.len() - 1 {
        assert(followed(text, e, opened));
        lemma_value_leads(text, targets, mark, p, item, path, opened);
        assert(after_value(item, opened) == opened);
        assert(step(text, targets, e, opened) == Some(
            Step { keep: true, next: e + 1, frames: end_value(below) },
        ));
        lemma_char_leads(text, targets, mark, e, opened);
        lemma_leads_chain(
            text,
            targets,
            mark,
            p,
            opened,
            e,
            opened,
            e + 1,
            end_value(below),
            written,
            closer,
        );
    } else {
        let rest = items_text(items, k + 1);
        lemma_stands_split(text, p, item.text() + comma, rest);
        lemma_stands_split(text, p, item.text(), comma);
        lemma_stands_char(text, e, comma, 0);
        assert(followed(text, e, opened));
        lemma_value_leads(text, targets, mark, p, item, path, opened);
        assert(after_value(item, opened) == opened);
        assert(step(text, targets, e, opened) == Some(
            Step { keep: true, next: e + 1, frames: opened },
        ));
        lemma_char_leads(text, targets, mark, e, opened);
        assert(stands_at(text, e + 1, rest + closer)) by {
            assert(text.subrange(e + 1, end + 1) =~= text.subrange(e + 1, end) + text.subrange(
                end,
                end + 1,
            ));
        }
        lemma_items_leads(text, targets, mark, e + 1, items, k + 1, path, below);
        let tail = items_redaction(items, k + 1, targets, path, mark);
        lemma_leads_chain(
            text,
            targets,
            mark,
            p,
            opened,
            e,
            opened,
            e + 1,
            opened,
            written,
            comma,
        );
        lemma_leads_chain(
            text,
            targets,
            mark,
            p,
            opened,
            e + 1,
            opened,
            end + 1,
            end_value(below),
            written + comma,
            tail + closer,
        );
        assert(written + comma + (tail + closer) =~= written + comma + tail + closer);
    }
}

/// The scan of the members of an object from index `k` on, and of the brace
/// that closes the object.
proof fn lemma_members_leads(
    text: Seq<char>,
    targets: Seq<Seq<Seq<char>>>,
    mark: Seq<char>,
    p: int,
    keys: Seq<Key>,
    values: Seq<Json>,
    k: int,
    path: Seq<Seq<char>>,
    below: Seq<FrameView>,
)
    requires
        stands_at(text, p, members_text(keys, values, k) + seq!['}']),
        0 <= k < values.len(),
        keys.len() == values.len(),
        forall|n: int| 0 <= n < keys.len() ==> (#[trigger] keys[n]).well_formed(),
        forall|n: int| 0 <= n < values.len() ==> (#[trigger] values[n]).well_formed(),
        key_path(below) == path,
    ensures
        leads(
            text,
            targets,
            mark,
            p,
            below.push(FrameView::Object),
            p + members_text(keys, values, k).len() + 1,
            end_value(below),
            members_redaction(keys, values, k, targets, path, mark) + seq!['}'],
        ),
    decreases values, values.len() - k,
{
    let opened = below.push(FrameView::Object);
    let keyed = opened.push(FrameView::Key(keys[k].name));
    let closer = seq!['}'];
    let comma = seq![','];
    let key = keys[k].text();
    let value = values[k];
    let inner = path.push(keys[k].name);
    let c = p + key.len();
    let e = c + value.text().len();
    let end = p + members_text(keys, values, k).len();
    let written = value.redaction(targets, inner, mark);
    let behind = after_value(value, keyed);
    lemma_container_frames(below, FrameView::Object);
    lemma_key_frames(opened, keys[k].name);
    lemma_stands_split(text, p, members_text(keys, values, k), closer);
    lemma_stands_char(text, end, closer, 0);
    assert(end_value(behind) == opened);
    if k == values.len() - 1 {
        lemma_stands_split(text, p, key, value.text());
        lemma_key_leads(text, targets, mark, p, keys[k], opened);
        assert(followed(text, e, keyed));
        lemma_value_leads(text, targets, mark, c, value, inner, keyed);
        assert(step(text, targets, e, behind) == Some(
            Step { keep: true, next: e + 1, frames: end_value(below) },
        ));
        lemma_char_leads(text, targets, mark, e, behind);
        lemma_leads_chain(text, targets, mark, p, opened, c, keyed, e, behind, key, written);
        lemma_leads_chain(
            text,
            targets,
            mark,
            p,
            opened,
            e,
            behind,
            e + 1,
            end_value(below),
            key + written,
            closer,
        );
    } else {
        let rest = members_text(keys, values, k + 1);
        lemma_stands_split(text, p, key + value.text() + comma, rest);
        lemma_stands_split(text, p, key + value.text(), comma);
        lemma_stands_split(text, p, key, value.text());
        lemma_stands_char(text, e, comma, 0);
        lemma_key_leads(text, targets, mark, p, keys[k], opened);
        assert(followed(text, e, keyed));
        lemma_value_leads(text, targets, mark, c, value, inner, keyed);
        assert(step(text, targets, e, behind) == Some(
            Step { keep: true, next: e + 1, frames: opened },
        ));
        lemma_char_leads(text, targets, mark, e, behind);
        assert(stands_at(text, e + 1, rest + closer)) by {
            assert(text.subrange(e + 1, end + 1) =~= text.subrange(e + 1, end) + text.subrange(
                end,
                end + 1,
            ));
        }
        lemma_members_leads(text, targets, mark, e + 1, keys, values, k + 1, path, below);
        let tail = members_redaction(keys, values, k + 1, targets, path, mark);
        lemma_leads_chain(text, targets, mark, p, opened, c, keyed, e, behind, key, written);
        lemma_leads_chain(
            text,
            targets,
            mark,
            p,
            opened,
            e,
            behind,
            e + 1,
            opened,
            key + written,
            comma,
        );
        lemma_leads_chain(
            text,
            targets,
            mark,
            p,
            opened,
            e + 1,
            opened,
            end + 1,
            end_value(below),
            key + written + comma,
            tail + closer,
        );
        assert(key + written + comma + (tail + closer) =~= key + written + comma + tail + closer);
    }
}

/// Scanning the text of a well-formed document, merging the ranges and
/// redacting writes the document again: every value whose key path is one of
/// the targets as it was written, every other string or bare value as the
/// placeholder, and all keys, punctuation and whitespace as they were.
pub proof fn lemma_redaction_of_document(
    doc: Json,
    targets: Seq<Seq<Seq<char>>>,
    mark: Seq<char>,
)
    requires
        doc.well_formed(),
    ensures
        redacted(doc.text(), merged(scanned(doc.text(), targets)), mark) == doc.redaction(
            targets,
            Seq::empty(),
            mark,
        ),
{
    let text = doc.text();
    let none = Seq::<FrameView>::empty();
    let root = Seq::<Seq<char>>::empty();
    let end = text.len() as int;
    assert(text.subrange(0, end) =~= text);
    lemma_value_leads(text, targets, mark, 0, doc, root, none);
    let written = doc.redaction(targets, root, mark);
    assert(written + gap_mark(end, end, mark) =~= written);
    lemma_output_is_redaction(text, targets, mark, 0, none, 0);
    lemma_scanned_shape(text, targets);
    lemma_merge_keeps_redaction(text, scanned(text, targets), mark);
}

/// With no target, redaction of a well-formed document gives the text of a
/// well-formed document again: the same keys, punctuation and whitespace,
/// and the placeholder string in place of every string and bare value.
pub proof fn lemma_redaction_without_targets(doc: Json)
    requires
        doc.well_formed(),
    ensures
        redacted(doc.text(), merged(scanned(doc.text(), Seq::empty())), PLACEHOLDER@)
            == doc.blanked(REDACTED@).text(),
        doc.blanked(REDACTED@).well_formed(),
        doc.blanked(REDACTED@).leaves_are(REDACTED@),
{
    lemma_placeholder_is_quoted();
    lemma_plain_is_well_escaped(REDACTED@, 0);
    lemma_blanked(doc, REDACTED@, Seq::empty());
    lemma_redaction_of_document(doc, Seq::empty(), PLACEHOLDER@);
}

} // verus!
