//! The lexical layer of the scan: whitespace runs, string literals, bare
//! values and the extent of a bracketed subtree, each as a function of the
//! text and a position.

use vstd::prelude::*;

verus! {

/// The four whitespace characters of JSON.
pub open spec fn is_space(c: char) -> bool {
    c == ' ' || c == '\t' || c == '\n' || c == '\r'
}

/// A character that ends a bare value: a comma, a closing bracket or brace,
/// or whitespace.
pub open spec fn ends_bare(c: char) -> bool {
    c == ',' || c == '}' || c == ']' || is_space(c)
}

/// The bracket that closes what `open` opens: `}` for `{`, and `]` otherwise.
pub open spec fn closer_of(open: char) -> char {
    if open == '{' {
        '}'
    } else {
        ']'
    }
}

/// The first position at or after `i` that holds no whitespace; the length of
/// the text where only whitespace follows.
pub open spec fn space_end(text: Seq<char>, i: int) -> int
    decreases text.len() - i,
{
    if 0 <= i < text.len() && is_space(text[i]) {
        space_end(text, i + 1)
    } else {
        i
    }
}

/// The first position at or after `i` that ends a bare value; the length of
/// the text where none follows.
pub open spec fn bare_end(text: Seq<char>, i: int) -> int
    decreases text.len() - i,
{
    if 0 <= i < text.len() && !ends_bare(text[i]) {
        bare_end(text, i + 1)
    } else {
        i
    }
}

/// The position of the quote that closes a string literal whose content
/// starts at `i`. A backslash takes the character after it with it, so an
/// escaped quote does not close the literal. `None` where the text ends
/// first.
pub open spec fn string_close(text: Seq<char>, i: int) -> Option<int>
    decreases text.len() - i,
{
    if i < 0 || i >= text.len() {
        None
    } else if text[i] == '"' {
        Some(i)
    } else if text[i] == '\\' {
        if i + 1 < text.len() {
            string_close(text, i + 2)
        } else {
            None
        }
    } else {
        string_close(text, i + 1)
    }
}

/// The position of the bracket that closes a subtree opened by `open`, seen
/// from position `i` inside it, `depth` brackets of that kind being open
/// there. `quoted` says that `i` lies inside a string literal. Only brackets
/// of the kind that opened the subtree are counted, and none inside a string
/// literal. `None` where the text ends first.
pub open spec fn subtree_close(
    text: Seq<char>,
    i: int,
    open: char,
    depth: nat,
    quoted: bool,
) -> Option<int>
    decreases text.len() - i,
{
    if i < 0 || i >= text.len() {
        None
    } else if quoted {
        if text[i] == '\\' {
            if i + 1 < text.len() {
                subtree_close(text, i + 2, open, depth, true)
            } else {
                None
            }
        } else {
            subtree_close(text, i + 1, open, depth, text[i] != '"')
        }
    } else if text[i] == '"' {
        subtree_close(text, i + 1, open, depth, true)
    } else if text[i] == open {
        subtree_close(text, i + 1, open, depth + 1, false)
    } else if text[i] == closer_of(open) {
        if depth <= 1 {
            Some(i)
        } else {
            subtree_close(text, i + 1, open, (depth - 1) as nat, false)
        }
    } else {
        subtree_close(text, i + 1, open, depth, false)
    }
}

/// Whether the string literal that closes at `close` is a key: the first
/// character behind it that is no whitespace is a colon.
pub open spec fn is_key_at(text: Seq<char>, close: int) -> bool {
    let k = space_end(text, close + 1);
    k < text.len() && text[k] == ':'
}

/// A whitespace run ends inside the text, at or after the place it was
/// looked for, and consists of whitespace only.
pub proof fn lemma_space_end(text: Seq<char>, i: int)
    requires
        0 <= i <= text.len(),
    ensures
        i <= space_end(text, i) <= text.len(),
        forall|k: int| i <= k < space_end(text, i) ==> is_space(#[trigger] text[k]),
        space_end(text, i) < text.len() ==> !is_space(text[space_end(text, i)]),
    decreases text.len() - i,
{
    if i < text.len() && is_space(text[i]) {
        lemma_space_end(text, i + 1);
    }
}

/// A bare value ends inside the text, at or after the place its end was
/// looked for, and holds no character that ends one.
pub proof fn lemma_bare_end(text: Seq<char>, i: int)
    requires
        0 <= i <= text.len(),
    ensures
        i <= bare_end(text, i) <= text.len(),
        forall|k: int| i <= k < bare_end(text, i) ==> !ends_bare(#[trigger] text[k]),
        bare_end(text, i) < text.len() ==> ends_bare(text[bare_end(text, i)]),
    decreases text.len() - i,
{
    if i < text.len() && !ends_bare(text[i]) {
        lemma_bare_end(text, i + 1);
    }
}

/// The quote that closes a string literal lies inside the text, at or after
/// the start of the content.
pub proof fn lemma_string_close(text: Seq<char>, i: int)
    requires
        0 <= i,
    ensures
        string_close(text, i) matches Some(q) ==> i <= q < text.len() && text[q] == '"',
    decreases text.len() - i,
{
    if i < text.len() && text[i] != '"' {
        if text[i] == '\\' {
            if i + 1 < text.len() {
                lemma_string_close(text, i + 2);
            }
        } else {
            lemma_string_close(text, i + 1);
        }
    }
}

/// The bracket that closes a subtree lies inside the text, at or after the
/// place it was looked for, and is of the kind that closes the subtree.
pub proof fn lemma_subtree_close(text: Seq<char>, i: int, open: char, depth: nat, quoted: bool)
    requires
        0 <= i,
    ensures
        subtree_close(text, i, open, depth, quoted) matches Some(q) ==> i <= q < text.len()
            && text[q] == closer_of(open),
    decreases text.len() - i,
{
    if i < text.len() {
        if quoted {
            if text[i] == '\\' {
                if i + 1 < text.len() {
                    lemma_subtree_close(text, i + 2, open, depth, true);
                }
            } else {
                lemma_subtree_close(text, i + 1, open, depth, text[i] != '"');
            }
        } else if text[i] == '"' {
            lemma_subtree_close(text, i + 1, open, depth, true);
        } else if text[i] == open {
            lemma_subtree_close(text, i + 1, open, depth + 1, false);
        } else if text[i] == closer_of(open) {
            if depth > 1 {
                lemma_subtree_close(text, i + 1, open, (depth - 1) as nat, false);
            }
        } else {
            lemma_subtree_close(text, i + 1, open, depth, false);
        }
    }
}

/// Whether `c` is one of the four whitespace characters of JSON.
pub fn space(c: char) -> (b: bool)
    ensures
        b == is_space(c),
{
    c == ' ' || c == '\t' || c == '\n' || c == '\r'
}

/// The end of the whitespace run at `i`.
pub fn skip_space(text: &[char], i: usize) -> (j: usize)
    requires
        i <= text.len(),
    ensures
        j == space_end(text@, i as int),
        i <= j <= text.len(),
{
    let mut j = i;
    while j < text.len() && space(text[j])
        invariant
            i <= j <= text.len(),
            space_end(text@, j as int) == space_end(text@, i as int),
        decreases text.len() - j,
    {
        j += 1;
    }
    j
}

/// The end of the bare value that runs through `i`.
pub fn skip_bare(text: &[char], i: usize) -> (j: usize)
    requires
        i <= text.len(),
    ensures
        j == bare_end(text@, i as int),
        i <= j <= text.len(),
{
    let mut j = i;
    while j < text.len() && !(text[j] == ',' || text[j] == '}' || text[j] == ']' || space(text[j]))
        invariant
            i <= j <= text.len(),
            bare_end(text@, j as int) == bare_end(text@, i as int),
        decreases text.len() - j,
    {
        j += 1;
    }
    j
}

/// The quote that closes the string literal whose content starts at `i`.
pub fn find_string_close(text: &[char], i: usize) -> (close: Option<usize>)
    requires
        i <= text.len(),
    ensures
        close matches Some(q) ==> string_close(text@, i as int) == Some(q as int) && i <= q
            < text.len(),
        close is None ==> string_close(text@, i as int) is None,
{
    let mut j = i;
    while j < text.len()
        invariant
            i <= j <= text.len(),
            string_close(text@, j as int) == string_close(text@, i as int),
        decreases text.len() - j,
    {
        let c = text[j];
        if c == '"' {
            return Some(j);
        } else if c == '\\' {
            if j + 1 < text.len() {
                j += 2;
            } else {
                return None;
            }
        } else {
            j += 1;
        }
    }
    None
}

/// The bracket that closes the subtree that the bracket at `at` opens.
pub fn find_subtree_close(text: &[char], at: usize) -> (close: Option<usize>)
    requires
        at < text.len(),
    ensures
        close matches Some(q) ==> subtree_close(text@, at + 1, text@[at as int], 1, false) == Some(
            q as int,
        ) && at < q < text.len(),
        close is None ==> subtree_close(text@, at + 1, text@[at as int], 1, false) is None,
{
    let open = text[at];
    let closer = if open == '{' {
        '}'
    } else {
        ']'
    };
    let mut j = at + 1;
    let mut depth: usize = 1;
    let mut quoted = false;
    while j < text.len()
        invariant
            at < j <= text.len(),
            1 <= depth <= j - at,
            open == text@[at as int],
            closer == closer_of(open),
            subtree_close(text@, j as int, open, depth as nat, quoted) == subtree_close(
                text@,
                at + 1,
                open,
                1,
                false,
            ),
        decreases text.len() - j,
    {
        let c = text[j];
        if quoted {
            if c == '\\' {
                if j + 1 < text.len() {
                    j += 2;
                } else {
                    return None;
                }
            } else {
                quoted = c != '"';
                j += 1;
            }
        } else if c == '"' {
            quoted = true;
            j += 1;
        } else if c == open {
            depth += 1;
            j += 1;
        } else if c == closer {
            if depth <= 1 {
                return Some(j);
            }
            depth -= 1;
            j += 1;
        } else {
            j += 1;
        }
    }
    None
}

/// Whether the string literal that closes at `close` is a key.
pub fn key_follows(text: &[char], close: usize) -> (b: bool)
    requires
        close < text.len(),
    ensures
        b == is_key_at(text@, close as int),
{
    let k = skip_space(text, close + 1);
    k < text.len() && text[k] == ':'
}

} // verus!
