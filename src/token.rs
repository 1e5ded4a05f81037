use vstd::prelude::*;

verus! {

/// The value of `JsmnParser::toksuper` when no container is open.
pub const JSMN_NO_SUPERIOR: usize = usize::MAX;

/// The kind of a token.
#[derive(Debug, Copy, Clone, PartialEq, Eq, Structural)]
pub enum JsmnType {
    JsmnUndefined,
    JsmnObject,
    JsmnArray,
    JsmnString,
    JsmnPrimitive,
}

/// Why a scan stopped early.
#[derive(Debug, Copy, Clone, PartialEq, Eq, Structural)]
pub enum JsmnErr {
    /// The token slice has no free slot for the next token.
    JsmErrorNoMem,
    /// The input holds an error that no further input can mend.
    JsmErrorInval,
    /// The input ended inside a token or with containers still open.
    JsmErrorPart,
}

impl JsmnType {
    pub open spec fn is_container(self) -> bool {
        self is JsmnObject || self is JsmnArray
    }
}

/// One token: its kind, the byte span `start..end` it covers in the input,
/// the number of its direct children and the index of its enclosing
/// container (`-1` at the top level). A container that is still open has
/// `end == -1`.
#[derive(Debug, Copy, Clone, PartialEq, Eq, Structural)]
pub struct JsmnTok {
    pub typ: JsmnType,
    pub start: i32,
    pub end: i32,
    pub size: i32,
    pub parent: i32,
}

impl JsmnTok {
    /// An undefined token with every offset zero.
    pub fn new() -> (r: Self)
        ensures
            r == (JsmnTok { typ: JsmnType::JsmnUndefined, start: 0, end: 0, size: 0, parent: 0 }),
    {
        JsmnTok { typ: JsmnType::JsmnUndefined, start: 0, end: 0, size: 0, parent: 0 }
    }

    /// A container whose closing delimiter has not been scanned yet.
    pub open spec fn is_open(self) -> bool {
        self.typ.is_container() && self.end == -1
    }
}

impl Default for JsmnTok {
    fn default() -> (r: Self)
        ensures
            r == (JsmnTok { typ: JsmnType::JsmnUndefined, start: 0, end: 0, size: 0, parent: 0 }),
    {
        JsmnTok::new()
    }
}

/// The whole state of a resumable scan: the next byte to read, the next free
/// token slot, and the innermost open container (`JSMN_NO_SUPERIOR` if none).
#[derive(Debug, Copy, Clone, PartialEq, Eq, Structural)]
pub struct JsmnParser {
    pub pos: usize,
    pub toknext: usize,
    pub toksuper: usize,
}

/// `s` is `-1`, or the index of an open container below `next` whose child
/// count is below `next` and whose parent is, in turn, such a chain.
pub open spec fn open_chain(toks: Seq<JsmnTok>, s: int, next: int) -> bool
    decreases s + 1,
{
    if s < 0 {
        s == -1
    } else {
        &&& s < next <= toks.len()
        &&& toks[s].is_open()
        &&& 0 <= toks[s].size < next
        &&& -1 <= toks[s].parent < s
        &&& if -1 <= toks[s].parent < s {
            open_chain(toks, toks[s].parent as int, next)
        } else {
            false
        }
    }
}

impl JsmnParser {
    /// A fresh state: at offset zero, no token allocated, no container open.
    pub fn new() -> (r: Self)
        ensures
            r == (JsmnParser { pos: 0, toknext: 0, toksuper: JSMN_NO_SUPERIOR }),
            r.wf(Seq::<JsmnTok>::empty()),
    {
        JsmnParser { pos: 0, toknext: 0, toksuper: JSMN_NO_SUPERIOR }
    }

    /// The innermost open container as an index, `-1` for none.
    pub open spec fn superior(self) -> int {
        if self.toksuper == JSMN_NO_SUPERIOR {
            -1
        } else {
            self.toksuper as int
        }
    }

    /// The state fits the token slots: the slots allocated so far are within
    /// the slice, and the superior is the head of a chain of open containers.
    pub open spec fn wf(self, toks: Seq<JsmnTok>) -> bool {
        &&& self.toknext <= toks.len() <= i32::MAX
        &&& open_chain(toks, self.superior(), self.toknext as int)
    }
}

impl Default for JsmnParser {
    fn default() -> (r: Self)
        ensures
            r == (JsmnParser { pos: 0, toknext: 0, toksuper: JSMN_NO_SUPERIOR }),
    {
        JsmnParser::new()
    }
}

} // verus!
