//! Documents as trees, and what redaction makes of one.
//!
//! The scanner reads text and knows no tree. This module says what the text
//! of a JSON document is, as a tree of values with the whitespace around
//! them, and what redaction is to make of such a tree: the document again,
//! with every value that no target selects replaced by the placeholder. That
//! scanning, merging and redacting the text does write this is proved in
//! `walk`.

use vstd::prelude::*;
use crate::lex::is_space;
use crate::path::selects;

verus! {

/// A key of an object, with the whitespace in front of it and the whitespace
/// between it and its colon.
pub struct Key {
    /// The whitespace in front of the opening quote.
    pub lead: Seq<char>,
    /// The text between the quotes, escapes as written.
    pub name: Seq<char>,
    /// The whitespace between the closing quote and the colon.
    pub gap: Seq<char>,
}

/// A JSON value with the whitespace in front of it (`lead`) and behind it
/// (`trail`).
pub enum Json {
    /// A number, `true`, `false` or `null`: the token as written.
    Bare { lead: Seq<char>, token: Seq<char>, trail: Seq<char> },
    /// A string: the text between the quotes, escapes as written.
    Text { lead: Seq<char>, content: Seq<char>, trail: Seq<char> },
    /// An array; `pad` is the whitespace inside an empty one.
    Array { lead: Seq<char>, items: Seq<Json>, pad: Seq<char>, trail: Seq<char> },
    /// An object, the value of `keys[k]` being `values[k]`; `pad` is the
    /// whitespace inside an empty one.
    Object {
        lead: Seq<char>,
        keys: Seq<Key>,
        values: Seq<Json>,
        pad: Seq<char>,
        trail: Seq<char>,
    },
}

/// `s` holds whitespace only.
pub open spec fn is_blank(s: Seq<char>) -> bool {
    forall|i: int| 0 <= i < s.len() ==> is_space(#[trigger] s[i])
}

/// A character that can stand in a bare value: no whitespace, no quote and
/// no punctuation of JSON.
pub open spec fn is_bare_char(c: char) -> bool {
    !is_space(c) && c != '{' && c != '}' && c != '[' && c != ']' && c != ',' && c != ':' && c
        != '"'
}

/// `s` can stand as a bare value.
pub open spec fn is_bare(s: Seq<char>) -> bool {
    s.len() > 0 && forall|i: int| 0 <= i < s.len() ==> is_bare_char(#[trigger] s[i])
}

/// From position `i` on, `s` can stand between the quotes of a string: there
/// is no quote but behind a backslash, and no backslash at the very end with
/// nothing to escape.
pub open spec fn well_escaped(s: Seq<char>, i: int) -> bool
    decreases s.len() - i,
{
    if i < 0 || i >= s.len() {
        true
    } else if s[i] == '"' {
        false
    } else if s[i] == '\\' {
        i + 1 < s.len() && well_escaped(s, i + 2)
    } else {
        well_escaped(s, i + 1)
    }
}

/// A text without quote and backslash can stand between the quotes of a
/// string.
pub proof fn lemma_plain_is_well_escaped(s: Seq<char>, i: int)
    requires
        forall|k: int| 0 <= k < s.len() ==> (#[trigger] s[k]) != '"' && s[k] != '\\',
    ensures
        well_escaped(s, i),
    decreases s.len() - i,
{
    if 0 <= i < s.len() {
        lemma_plain_is_well_escaped(s, i + 1);
    }
}

impl Key {
    /// The whitespace is whitespace, and the name can stand between quotes.
    pub open spec fn well_formed(self) -> bool {
        is_blank(self.lead) && is_blank(self.gap) && well_escaped(self.name, 0)
    }

    /// The key as written, up to and including its colon.
    pub open spec fn text(self) -> Seq<char> {
        self.lead + seq!['"'] + self.name + seq!['"'] + self.gap + seq![':']
    }
}

impl Json {
    /// The whitespace in front of the value.
    pub open spec fn lead(self) -> Seq<char> {
        match self {
            Json::Bare { lead, .. } => lead,
            Json::Text { lead, .. } => lead,
            Json::Array { lead, .. } => lead,
            Json::Object { lead, .. } => lead,
        }
    }

    /// The whitespace behind the value.
    pub open spec fn trail(self) -> Seq<char> {
        match self {
            Json::Bare { trail, .. } => trail,
            Json::Text { trail, .. } => trail,
            Json::Array { trail, .. } => trail,
            Json::Object { trail, .. } => trail,
        }
    }

    /// Whether the value is an array or an object.
    pub open spec fn is_container(self) -> bool {
        self is Array || self is Object
    }

    /// The whitespace is whitespace, bare values and strings are written as
    /// the scanner reads them, an object has as many keys as values, only an
    /// empty container has whitespace of its own, and all this holds of the
    /// values inside.
    pub open spec fn well_formed(self) -> bool
        decreases self,
    {
        &&& is_blank(self.lead())
        &&& is_blank(self.trail())
        &&& match self {
            Json::Bare { token, .. } => is_bare(token),
            Json::Text { content, .. } => well_escaped(content, 0),
            Json::Array { items, pad, .. } => {
                &&& is_blank(pad)
                &&& items.len() > 0 ==> pad.len() == 0
                &&& forall|k: int| 0 <= k < items.len() ==> (#[trigger] items[k]).well_formed()
            },
            Json::Object { keys, values, pad, .. } => {
                &&& is_blank(pad)
                &&& values.len() > 0 ==> pad.len() == 0
                &&& keys.len() == values.len()
                &&& forall|k: int| 0 <= k < keys.len() ==> (#[trigger] keys[k]).well_formed()
                &&& forall|k: int| 0 <= k < values.len() ==> (#[trigger] values[k]).well_formed()
            },
        }
    }

    /// What stands between the brackets of an array or an object: its
    /// values as written, with commas between them, or the whitespace of an
    /// empty one. Nothing for a string or a bare value.
    pub open spec fn inside(self) -> Seq<char>
        decreases self, 0int,
    {
        match self {
            Json::Array { items, pad, .. } => if items.len() == 0 {
                pad
            } else {
                items_text(items, 0)
            },
            Json::Object { keys, values, pad, .. } => if values.len() == 0 {
                pad
            } else {
                members_text(keys, values, 0)
            },
            _ => Seq::empty(),
        }
    }

    /// The value as written, without the whitespace around it.
    pub open spec fn body(self) -> Seq<char>
        decreases self, 1int,
    {
        match self {
            Json::Bare { token, .. } => token,
            Json::Text { content, .. } => seq!['"'] + content + seq!['"'],
            Json::Array { .. } => seq!['['] + self.inside() + seq![']'],
            Json::Object { .. } => seq!['{'] + self.inside() + seq!['}'],
        }
    }

    /// The value as written, with the whitespace around it.
    pub open spec fn text(self) -> Seq<char>
        decreases self, 2int,
    {
        self.lead() + self.body() + self.trail()
    }

    /// What redaction leaves between the brackets of an array or an object
    /// that no target selects: each value inside it as redaction leaves that
    /// one. The elements of an array have the key path of the array; the key
    /// path of a member's value is that of the object and then the member's
    /// key.
    pub open spec fn inside_redaction(
        self,
        targets: Seq<Seq<Seq<char>>>,
        path: Seq<Seq<char>>,
        mark: Seq<char>,
    ) -> Seq<char>
        decreases self, 0int,
    {
        match self {
            Json::Array { items, pad, .. } => if items.len() == 0 {
                pad
            } else {
                items_redaction(items, 0, targets, path, mark)
            },
            Json::Object { keys, values, pad, .. } => if values.len() == 0 {
                pad
            } else {
                members_redaction(keys, values, 0, targets, path, mark)
            },
            _ => Seq::empty(),
        }
    }

    /// The value as redaction leaves it, without the whitespace around it,
    /// when `path` is the key path of the value: as written where a target
    /// selects it; the placeholder `mark` for a string or a bare value that
    /// none selects; and an array or object that none selects with its
    /// brackets around what redaction leaves inside.
    pub open spec fn body_redaction(
        self,
        targets: Seq<Seq<Seq<char>>>,
        path: Seq<Seq<char>>,
        mark: Seq<char>,
    ) -> Seq<char>
        decreases self, 1int,
    {
        if selects(targets, path) {
            self.body()
        } else {
            match self {
                Json::Bare { .. } => mark,
                Json::Text { .. } => mark,
                Json::Array { .. } => seq!['['] + self.inside_redaction(targets, path, mark)
                    + seq![']'],
                Json::Object { .. } => seq!['{'] + self.inside_redaction(targets, path, mark)
                    + seq!['}'],
            }
        }
    }

    /// The value as redaction leaves it, with the whitespace around it.
    pub open spec fn redaction(
        self,
        targets: Seq<Seq<Seq<char>>>,
        path: Seq<Seq<char>>,
        mark: Seq<char>,
    ) -> Seq<char>
        decreases self, 2int,
    {
        self.lead() + self.body_redaction(targets, path, mark) + self.trail()
    }

    /// The character at position `q` of the text of the value belongs to the
    /// skeleton: it is whitespace, a bracket or brace, a comma, or part of a
    /// key, from the whitespace in front of the key to its colon.
    pub open spec fn skeleton_at(self, q: int) -> bool
        decreases self, 0int,
    {
        let a = self.lead().len() as int;
        let b = a + self.body().len();
        if q < a || q >= b {
            0 <= q < b + self.trail().len()
        } else {
            match self {
                Json::Array { items, .. } => q == a || q == b - 1 || items.len() == 0
                    || items_skeleton_at(items, 0, q - a - 1),
                Json::Object { keys, values, .. } => q == a || q == b - 1 || values.len() == 0
                    || members_skeleton_at(keys, values, 0, q - a - 1),
                _ => false,
            }
        }
    }

    /// The character at position `q` of the text of the value lies in a
    /// value that a target selects: in this value, without the whitespace
    /// around it, where `path`, its key path, is one of the targets; or in a
    /// value inside it of which the same holds.
    pub open spec fn selected_at(
        self,
        targets: Seq<Seq<Seq<char>>>,
        path: Seq<Seq<char>>,
        q: int,
    ) -> bool
        decreases self, 0int,
    {
        let a = self.lead().len() as int;
        let b = a + self.body().len();
        a <= q < b && (selects(targets, path) || match self {
            Json::Array { items, .. } => a < q < b - 1 && items_selected_at(
                items,
                0,
                targets,
                path,
                q - a - 1,
            ),
            Json::Object { keys, values, .. } => a < q < b - 1 && members_selected_at(
                keys,
                values,
                0,
                targets,
                path,
                q - a - 1,
            ),
            _ => false,
        })
    }

    /// The character at position `q` of the text of the value belongs to a
    /// string or a bare value, quotes included.
    pub open spec fn leaf_at(self, q: int) -> bool
        decreases self, 0int,
    {
        let a = self.lead().len() as int;
        let b = a + self.body().len();
        a <= q < b && match self {
            Json::Array { items, .. } => a < q < b - 1 && items_leaf_at(items, 0, q - a - 1),
            Json::Object { keys, values, .. } => a < q < b - 1 && members_leaf_at(
                keys,
                values,
                0,
                q - a - 1,
            ),
            _ => true,
        }
    }

    /// The character at position `q` of the text of the value belongs to a
    /// string that is a value, quotes included.
    pub open spec fn string_at(self, q: int) -> bool
        decreases self, 0int,
    {
        let a = self.lead().len() as int;
        let b = a + self.body().len();
        a <= q < b && match self {
            Json::Bare { .. } => false,
            Json::Text { .. } => true,
            Json::Array { items, .. } => a < q < b - 1 && items_string_at(items, 0, q - a - 1),
            Json::Object { keys, values, .. } => a < q < b - 1 && members_string_at(
                keys,
                values,
                0,
                q - a - 1,
            ),
        }
    }

    /// The key paths of the values around position `q` of the text of the
    /// value, from this value, whose key path is `path`, inwards: those
    /// values of which the character at `q` is a part, the whitespace around
    /// a value not counted to it. The last is the key path of the innermost.
    pub open spec fn paths_at(self, path: Seq<Seq<char>>, q: int) -> Seq<Seq<Seq<char>>>
        decreases self, 0int,
    {
        let a = self.lead().len() as int;
        let b = a + self.body().len();
        if a <= q < b {
            seq![path] + match self {
                Json::Array { items, .. } => if a < q < b - 1 {
                    items_paths_at(items, 0, path, q - a - 1)
                } else {
                    Seq::empty()
                },
                Json::Object { keys, values, .. } => if a < q < b - 1 {
                    members_paths_at(keys, values, 0, path, q - a - 1)
                } else {
                    Seq::empty()
                },
                _ => Seq::empty(),
            }
        } else {
            Seq::empty()
        }
    }

    /// Every string and bare value in the tree is the string with the
    /// content `leaf`.
    pub open spec fn leaves_are(self, leaf: Seq<char>) -> bool
        decreases self,
    {
        match self {
            Json::Bare { .. } => false,
            Json::Text { content, .. } => content == leaf,
            Json::Array { items, .. } => forall|k: int|
                0 <= k < items.len() ==> (#[trigger] items[k]).leaves_are(leaf),
            Json::Object { values, .. } => forall|k: int|
                0 <= k < values.len() ==> (#[trigger] values[k]).leaves_are(leaf),
        }
    }

    /// The same tree with the string of content `leaf` in place of every
    /// string and bare value; keys and whitespace stay.
    pub open spec fn blanked(self, leaf: Seq<char>) -> Json
        decreases self, 0int,
    {
        match self {
            Json::Bare { lead, trail, .. } => Json::Text { lead, content: leaf, trail },
            Json::Text { lead, trail, .. } => Json::Text { lead, content: leaf, trail },
            Json::Array { lead, items, pad, trail } => Json::Array {
                lead,
                items: blanked_items(items, items.len() as int, leaf),
                pad,
                trail,
            },
            Json::Object { lead, keys, values, pad, trail } => Json::Object {
                lead,
                keys,
                values: blanked_items(values, values.len() as int, leaf),
                pad,
                trail,
            },
        }
    }
}

/// The items from index `k` on as written, with commas between them.
pub open spec fn items_text(items: Seq<Json>, k: int) -> Seq<char>
    decreases items, items.len() - k,
{
    if k < 0 || k >= items.len() {
        Seq::empty()
    } else if k == items.len() - 1 {
        items[k].text()
    } else {
        items[k].text() + seq![','] + items_text(items, k + 1)
    }
}

/// The members from index `k` on as written, with commas between them.
pub open spec fn members_text(keys: Seq<Key>, values: Seq<Json>, k: int) -> Seq<char>
    decreases values, values.len() - k,
{
    if k < 0 || k >= values.len() {
        Seq::empty()
    } else if k == values.len() - 1 {
        keys[k].text() + values[k].text()
    } else {
        keys[k].text() + values[k].text() + seq![','] + members_text(keys, values, k + 1)
    }
}

/// The items from index `k` on as redaction leaves them: the elements of an
/// array have the key path of the array.
pub open spec fn items_redaction(
    items: Seq<Json>,
    k: int,
    targets: Seq<Seq<Seq<char>>>,
    path: Seq<Seq<char>>,
    mark: Seq<char>,
) -> Seq<char>
    decreases items, items.len() - k,
{
    if k < 0 || k >= items.len() {
        Seq::empty()
    } else if k == items.len() - 1 {
        items[k].redaction(targets, path, mark)
    } else {
        items[k].redaction(targets, path, mark) + seq![','] + items_redaction(
            items,
            k + 1,
            targets,
            path,
            mark,
        )
    }
}

/// The members from index `k` on as redaction leaves them: the key path of a
/// member's value is that of the object and then the member's key.
pub open spec fn members_redaction(
    keys: Seq<Key>,
    values: Seq<Json>,
    k: int,
    targets: Seq<Seq<Seq<char>>>,
    path: Seq<Seq<char>>,
    mark: Seq<char>,
) -> Seq<char>
    decreases values, values.len() - k,
{
    if k < 0 || k >= values.len() {
        Seq::empty()
    } else if k == values.len() - 1 {
        keys[k].text() + values[k].redaction(targets, path.push(keys[k].name), mark)
    } else {
        keys[k].text() + values[k].redaction(targets, path.push(keys[k].name), mark) + seq![',']
            + members_redaction(keys, values, k + 1, targets, path, mark)
    }
}

/// The character at position `q` of the items from index `k` on, as written
/// with commas between them, belongs to the skeleton.
pub open spec fn items_skeleton_at(items: Seq<Json>, k: int, q: int) -> bool
    decreases items, items.len() - k,
{
    if k < 0 || k >= items.len() {
        false
    } else {
        let n = items[k].text().len() as int;
        if q < n {
            items[k].skeleton_at(q)
        } else if q == n {
            k < items.len() - 1
        } else {
            items_skeleton_at(items, k + 1, q - n - 1)
        }
    }
}

/// The character at position `q` of the members from index `k` on, as
/// written with commas between them, belongs to the skeleton.
pub open spec fn members_skeleton_at(keys: Seq<Key>, values: Seq<Json>, k: int, q: int) -> bool
    decreases values, values.len() - k,
{
    if k < 0 || k >= values.len() {
        false
    } else {
        let m = keys[k].text().len() as int;
        let n = m + values[k].text().len();
        if q < m {
            0 <= q
        } else if q < n {
            values[k].skeleton_at(q - m)
        } else if q == n {
            k < values.len() - 1
        } else {
            members_skeleton_at(keys, values, k + 1, q - n - 1)
        }
    }
}

/// The character at position `q` of the items from index `k` on lies in a
/// value that a target selects; `path` is the key path of the array.
pub open spec fn items_selected_at(
    items: Seq<Json>,
    k: int,
    targets: Seq<Seq<Seq<char>>>,
    path: Seq<Seq<char>>,
    q: int,
) -> bool
    decreases items, items.len() - k,
{
    if k < 0 || k >= items.len() {
        false
    } else {
        let n = items[k].text().len() as int;
        if q < n {
            items[k].selected_at(targets, path, q)
        } else if q == n {
            false
        } else {
            items_selected_at(items, k + 1, targets, path, q - n - 1)
        }
    }
}

/// The character at position `q` of the members from index `k` on lies in a
/// value that a target selects; `path` is the key path of the object.
pub open spec fn members_selected_at(
    keys: Seq<Key>,
    values: Seq<Json>,
    k: int,
    targets: Seq<Seq<Seq<char>>>,
    path: Seq<Seq<char>>,
    q: int,
) -> bool
    decreases values, values.len() - k,
{
    if k < 0 || k >= values.len() {
        false
    } else {
        let m = keys[k].text().len() as int;
        let n = m + values[k].text().len();
        if q < m {
            false
        } else if q < n {
            values[k].selected_at(targets, path.push(keys[k].name), q - m)
        } else if q == n {
            false
        } else {
            members_selected_at(keys, values, k + 1, targets, path, q - n - 1)
        }
    }
}

/// The character at position `q` of the items from index `k` on belongs to
/// a string or a bare value.
pub open spec fn items_leaf_at(items: Seq<Json>, k: int, q: int) -> bool
    decreases items, items.len() - k,
{
    if k < 0 || k >= items.len() {
        false
    } else {
        let n = items[k].text().len() as int;
        if q < n {
            items[k].leaf_at(q)
        } else if q == n {
            false
        } else {
            items_leaf_at(items, k + 1, q - n - 1)
        }
    }
}

/// The character at position `q` of the members from index `k` on belongs
/// to a string or a bare value; a key is neither.
pub open spec fn members_leaf_at(keys: Seq<Key>, values: Seq<Json>, k: int, q: int) -> bool
    decreases values, values.len() - k,
{
    if k < 0 || k >= values.len() {
        false
    } else {
        let m = keys[k].text().len() as int;
        let n = m + values[k].text().len();
        if q < m {
            false
        } else if q < n {
            values[k].leaf_at(q - m)
        } else if q == n {
            false
        } else {
            members_leaf_at(keys, values, k + 1, q - n - 1)
        }
    }
}

/// The character at position `q` of the items from index `k` on belongs to
/// a string that is a value.
pub open spec fn items_string_at(items: Seq<Json>, k: int, q: int) -> bool
    decreases items, items.len() - k,
{
    if k < 0 || k >= items.len() {
        false
    } else {
        let n = items[k].text().len() as int;
        if q < n {
            items[k].string_at(q)
        } else if q == n {
            false
        } else {
            items_string_at(items, k + 1, q - n - 1)
        }
    }
}

/// The character at position `q` of the members from index `k` on belongs
/// to a string that is a value.
pub open spec fn members_string_at(keys: Seq<Key>, values: Seq<Json>, k: int, q: int) -> bool
    decreases values, values.len() - k,
{
    if k < 0 || k >= values.len() {
        false
    } else {
        let m = keys[k].text().len() as int;
        let n = m + values[k].text().len();
        if q < m {
            false
        } else if q < n {
            values[k].string_at(q - m)
        } else if q == n {
            false
        } else {
            members_string_at(keys, values, k + 1, q - n - 1)
        }
    }
}

/// A bracket, a brace, a comma or a colon.
pub open spec fn is_punctuation(c: char) -> bool {
    c == '{' || c == '}' || c == '[' || c == ']' || c == ',' || c == ':'
}

/// The key paths of the values around position `q` of the items from index
/// `k` on; `path` is the key path of the array, and of its items.
pub open spec fn items_paths_at(items: Seq<Json>, k: int, path: Seq<Seq<char>>, q: int) -> Seq<
    Seq<Seq<char>>,
>
    decreases items, items.len() - k,
{
    if k < 0 || k >= items.len() {
        Seq::empty()
    } else {
        let n = items[k].text().len() as int;
        if q < n {
            items[k].paths_at(path, q)
        } else if q == n {
            Seq::empty()
        } else {
            items_paths_at(items, k + 1, path, q - n - 1)
        }
    }
}

/// The key paths of the values around position `q` of the members from
/// index `k` on; `path` is the key path of the object, and that of a
/// member's value is `path` and then the member's key.
pub open spec fn members_paths_at(
    keys: Seq<Key>,
    values: Seq<Json>,
    k: int,
    path: Seq<Seq<char>>,
    q: int,
) -> Seq<Seq<Seq<char>>>
    decreases values, values.len() - k,
{
    if k < 0 || k >= values.len() {
        Seq::empty()
    } else {
        let m = keys[k].text().len() as int;
        let n = m + values[k].text().len();
        if q < m {
            Seq::empty()
        } else if q < n {
            values[k].paths_at(path.push(keys[k].name), q - m)
        } else if q == n {
            Seq::empty()
        } else {
            members_paths_at(keys, values, k + 1, path, q - n - 1)
        }
    }
}

/// The first `n` of `items`, each one blanked.
pub open spec fn blanked_items(items: Seq<Json>, n: int, leaf: Seq<char>) -> Seq<Json>
    decreases items, n,
{
    if n <= 0 || n > items.len() {
        Seq::empty()
    } else {
        blanked_items(items, n - 1, leaf).push(items[n - 1].blanked(leaf))
    }
}

proof fn lemma_blanked_items(items: Seq<Json>, n: int, leaf: Seq<char>)
    requires
        0 <= n <= items.len(),
    ensures
        blanked_items(items, n, leaf).len() == n,
        forall|k: int|
            0 <= k < n ==> (#[trigger] blanked_items(items, n, leaf)[k]) == items[k].blanked(leaf),
    decreases n,
{
    if n > 0 {
        lemma_blanked_items(items, n - 1, leaf);
    }
}

/// A blanked document is well formed, all its leaves are the one string, and
/// its text is what redaction leaves of the document when no target selects
/// anything and the placeholder is that string in quotes.
pub proof fn lemma_blanked(doc: Json, leaf: Seq<char>, path: Seq<Seq<char>>)
    requires
        doc.well_formed(),
        well_escaped(leaf, 0),
    ensures
        doc.blanked(leaf).well_formed(),
        doc.blanked(leaf).leaves_are(leaf),
        doc.blanked(leaf).lead() == doc.lead(),
        doc.blanked(leaf).trail() == doc.trail(),
        doc.blanked(leaf).body() == doc.body_redaction(
            Seq::empty(),
            path,
            seq!['"'] + leaf + seq!['"'],
        ),
        doc.blanked(leaf).text() == doc.redaction(
            Seq::empty(),
            path,
            seq!['"'] + leaf + seq!['"'],
        ),
    decreases doc, 1int,
{
    let none = Seq::<Seq<Seq<char>>>::empty();
    let mark = seq!['"'] + leaf + seq!['"'];
    assert(!selects(none, path));
    match doc {
        Json::Array { items, pad, .. } => {
            let blank = blanked_items(items, items.len() as int, leaf);
            lemma_blanked_items(items, items.len() as int, leaf);
            assert forall|k: int| 0 <= k < blank.len() implies (#[trigger] blank[k]).well_formed()
                && blank[k].leaves_are(leaf) by {
                lemma_blanked(items[k], leaf, path);
            }
            if items.len() > 0 {
                lemma_blanked_list(items, 0, leaf, path);
            }
        },
        Json::Object { keys, values, pad, .. } => {
            let blank = blanked_items(values, values.len() as int, leaf);
            lemma_blanked_items(values, values.len() as int, leaf);
            assert forall|k: int| 0 <= k < blank.len() implies (#[trigger] blank[k]).well_formed()
                && blank[k].leaves_are(leaf) by {
                lemma_blanked(values[k], leaf, path);
            }
            if values.len() > 0 {
                lemma_blanked_members(keys, values, 0, leaf, path);
            }
        },
        _ => {},
    }
}

proof fn lemma_blanked_list(items: Seq<Json>, k: int, leaf: Seq<char>, path: Seq<Seq<char>>)
    requires
        0 <= k < items.len(),
        forall|n: int| 0 <= n < items.len() ==> (#[trigger] items[n]).well_formed(),
        well_escaped(leaf, 0),
    ensures
        items_text(blanked_items(items, items.len() as int, leaf), k) == items_redaction(
            items,
            k,
            Seq::empty(),
            path,
            seq!['"'] + leaf + seq!['"'],
        ),
    decreases items, items.len() - k,
{
    lemma_blanked_items(items, items.len() as int, leaf);
    lemma_blanked(items[k], leaf, path);
    if k < items.len() - 1 {
        lemma_blanked_list(items, k + 1, leaf, path);
    }
}

proof fn lemma_blanked_members(
    keys: Seq<Key>,
    values: Seq<Json>,
    k: int,
    leaf: Seq<char>,
    path: Seq<Seq<char>>,
)
    requires
        0 <= k < values.len(),
        forall|n: int| 0 <= n < values.len() ==> (#[trigger] values[n]).well_formed(),
        well_escaped(leaf, 0),
    ensures
        members_text(keys, blanked_items(values, values.len() as int, leaf), k)
            == members_redaction(
            keys,
            values,
            k,
            Seq::empty(),
            path,
            seq!['"'] + leaf + seq!['"'],
        ),
    decreases values, values.len() - k,
{
    lemma_blanked_items(values, values.len() as int, leaf);
    lemma_blanked(values[k], leaf, path.push(keys[k].name));
    if k < values.len() - 1 {
        lemma_blanked_members(keys, values, k + 1, leaf, path);
    }
}

} // verus!
