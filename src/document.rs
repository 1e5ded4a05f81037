use vstd::prelude::*;
use crate::token::{JsmnType, JsmnTok};
use crate::scanner::{ends_primitive, is_printable, LBRACE, RBRACE, LBRACKET, RBRACKET, QUOTE, BACKSLASH, COMMA, COLON};

verus! {

/// A JSON value as a tree, with its scalars kept as raw bytes.
pub enum JsonValue {
    /// The bytes of a number, `true`, `false` or `null`.
    Primitive(Seq<u8>),
    /// The bytes between the quotes.
    Str(Seq<u8>),
    Array(Seq<JsonValue>),
    /// Keys and values, pairwise.
    Object(Seq<Seq<u8>>, Seq<JsonValue>),
}

/// The compact text of a value: no whitespace, `,` between elements and
/// members, `:` after each key.
pub open spec fn render(v: JsonValue) -> Seq<u8>
    decreases v, 0int,
{
    match v {
        JsonValue::Primitive(b) => b,
        JsonValue::Str(b) => seq![QUOTE] + b + seq![QUOTE],
        JsonValue::Array(items) => seq![LBRACKET] + render_items(items, 0) + seq![RBRACKET],
        JsonValue::Object(keys, vals) => seq![LBRACE] + render_members(keys, vals, 0) + seq![RBRACE],
    }
}

/// The elements from index `i` on, separated by commas.
pub open spec fn render_items(items: Seq<JsonValue>, i: int) -> Seq<u8>
    decreases items, items.len() - i,
{
    if i < 0 || i >= items.len() {
        Seq::empty()
    } else if i == items.len() - 1 {
        render(items[i])
    } else {
        render(items[i]) + seq![COMMA] + render_items(items, i + 1)
    }
}

/// A quoted key, a colon and the value.
pub open spec fn render_member(key: Seq<u8>, val: JsonValue) -> Seq<u8>
    decreases val, 1int,
{
    seq![QUOTE] + key + seq![QUOTE] + seq![COLON] + render(val)
}

/// The members from index `i` on, separated by commas.
pub open spec fn render_members(keys: Seq<Seq<u8>>, vals: Seq<JsonValue>, i: int) -> Seq<u8>
    decreases vals, vals.len() - i,
{
    if i < 0 || i >= vals.len() {
        Seq::empty()
    } else if i == vals.len() - 1 {
        render_member(keys[i], vals[i])
    } else {
        render_member(keys[i], vals[i]) + seq![COMMA] + render_members(keys, vals, i + 1)
    }
}

/// String contents without quotes or backslashes.
pub open spec fn plain_string(b: Seq<u8>) -> bool {
    forall|k: int| 0 <= k < b.len() ==> #[trigger] b[k] != QUOTE && b[k] != BACKSLASH
}

/// A non-empty run of printable bytes that no delimiter ends early and that
/// does not start like a string or a container.
pub open spec fn plain_primitive(b: Seq<u8>) -> bool {
    &&& b.len() > 0
    &&& forall|k: int| 0 <= k < b.len() ==> is_printable(#[trigger] b[k]) && !ends_primitive(b[k])
    &&& b[0] != QUOTE && b[0] != LBRACE && b[0] != LBRACKET
}

/// Scalars are plain and objects have as many keys as values.
pub open spec fn valid(v: JsonValue) -> bool
    decreases v, 0int,
{
    match v {
        JsonValue::Primitive(b) => plain_primitive(b),
        JsonValue::Str(b) => plain_string(b),
        JsonValue::Array(items) => valid_items(items, 0),
        JsonValue::Object(keys, vals) => keys.len() == vals.len() && valid_members(keys, vals, 0),
    }
}

pub open spec fn valid_items(items: Seq<JsonValue>, i: int) -> bool
    decreases items, items.len() - i,
{
    if i < 0 || i >= items.len() {
        true
    } else {
        valid(items[i]) && valid_items(items, i + 1)
    }
}

pub open spec fn valid_members(keys: Seq<Seq<u8>>, vals: Seq<JsonValue>, i: int) -> bool
    decreases vals, vals.len() - i,
{
    if i < 0 || i >= vals.len() {
        true
    } else {
        plain_string(keys[i]) && valid(vals[i]) && valid_members(keys, vals, i + 1)
    }
}

/// The number of values in a document: containers, keys and scalars.
pub open spec fn count(v: JsonValue) -> nat
    decreases v, 0int,
{
    match v {
        JsonValue::Primitive(_) => 1,
        JsonValue::Str(_) => 1,
        JsonValue::Array(items) => 1 + count_items(items, 0),
        JsonValue::Object(_, vals) => 1 + count_members(vals, 0),
    }
}

pub open spec fn count_items(items: Seq<JsonValue>, i: int) -> nat
    decreases items, items.len() - i,
{
    if i < 0 || i >= items.len() {
        0
    } else {
        count(items[i]) + count_items(items, i + 1)
    }
}

/// Each member counts its key and its value.
pub open spec fn count_members(vals: Seq<JsonValue>, i: int) -> nat
    decreases vals, vals.len() - i,
{
    if i < 0 || i >= vals.len() {
        0
    } else {
        1 + count(vals[i]) + count_members(vals, i + 1)
    }
}

/// The token that a value scanned at offset `at` under container `parent`
/// is given: strings span their contents, the rest their whole text.
pub open spec fn value_token(v: JsonValue, at: int, parent: int) -> JsmnTok {
    let end = at + render(v).len();
    match v {
        JsonValue::Primitive(_) => JsmnTok {
            typ: JsmnType::JsmnPrimitive, start: at as i32, end: end as i32, size: 0, parent: parent as i32,
        },
        JsonValue::Str(_) => JsmnTok {
            typ: JsmnType::JsmnString, start: (at + 1) as i32, end: (end - 1) as i32, size: 0, parent: parent as i32,
        },
        JsonValue::Array(items) => JsmnTok {
            typ: JsmnType::JsmnArray, start: at as i32, end: end as i32, size: items.len() as i32, parent: parent as i32,
        },
        JsonValue::Object(_, vals) => JsmnTok {
            typ: JsmnType::JsmnObject, start: at as i32, end: end as i32, size: (2 * vals.len()) as i32, parent: parent as i32,
        },
    }
}

/// `d` arrays, each the only element of the one around it, around the
/// primitive `1`.
pub open spec fn nested_arrays(d: nat) -> JsonValue
    decreases d,
{
    if d == 0 {
        JsonValue::Primitive(seq![49u8])
    } else {
        JsonValue::Array(seq![nested_arrays((d - 1) as nat)])
    }
}

} // verus!
