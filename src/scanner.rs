use vstd::prelude::*;
use vstd::string::StringSliceAdditionalSpecFns;
use crate::token::{JsmnType, JsmnErr, JsmnTok, JsmnParser, JSMN_NO_SUPERIOR, open_chain};

verus! {

pub const LBRACE: u8 = 123;
pub const RBRACE: u8 = 125;
pub const LBRACKET: u8 = 91;
pub const RBRACKET: u8 = 93;
pub const QUOTE: u8 = 34;
pub const BACKSLASH: u8 = 92;
pub const COMMA: u8 = 44;
pub const COLON: u8 = 58;

/// Whitespace between tokens: tab, line feed, carriage return, space.
pub open spec fn is_space(c: u8) -> bool {
    c == 9u8 || c == 10u8 || c == 13u8 || c == 32u8
}

/// The bytes that end an unquoted primitive.
pub open spec fn ends_primitive(c: u8) -> bool {
    is_space(c) || c == COMMA || c == RBRACKET || c == RBRACE || c == COLON
}

/// The bytes allowed inside an unquoted primitive.
pub open spec fn is_printable(c: u8) -> bool {
    32 <= c < 127
}

pub open spec fn all_printable(js: Seq<u8>, from: int, to: int) -> bool {
    forall|k: int| from <= k < to ==> is_printable(#[trigger] js[k])
}

/// The index of the quote that closes a string whose contents start at `i`,
/// a backslash always taking the byte after it along; `-1` if the input ends
/// first.
pub open spec fn string_close(js: Seq<u8>, i: int) -> int
    decreases js.len() + 1 - i,
{
    if i < 0 || i >= js.len() {
        -1
    } else if js[i] == QUOTE {
        i
    } else if js[i] == BACKSLASH {
        string_close(js, i + 2)
    } else {
        string_close(js, i + 1)
    }
}

/// The index of the first byte at or after `i` that ends a primitive, or the
/// length of the input if there is none.
pub open spec fn primitive_stop(js: Seq<u8>, i: int) -> int
    decreases js.len() - i,
{
    if i >= js.len() {
        js.len() as int
    } else if ends_primitive(js[i]) {
        i
    } else {
        primitive_stop(js, i + 1)
    }
}

/// The innermost open container is an object that expects a key next.
pub open spec fn at_key_slot(p: JsmnParser, toks: Seq<JsmnTok>) -> bool {
    p.superior() >= 0 && toks[p.superior()].typ is JsmnObject && toks[p.superior()].size % 2 == 0
}

/// Writes `tok` into the next free slot and counts it as a child of the
/// innermost open container, if any.
pub open spec fn add_child(toks: Seq<JsmnTok>, p: JsmnParser, tok: JsmnTok) -> Seq<JsmnTok> {
    let t = toks.update(p.toknext as int, tok);
    let s = p.superior();
    if s >= 0 {
        t.update(s, JsmnTok { size: (toks[s].size + 1) as i32, ..toks[s] })
    } else {
        t
    }
}

/// One move of the scanner on the lexeme that starts at `p.pos`: the next
/// state and slots, or an error with state and slots left as they were.
pub open spec fn step(p: JsmnParser, toks: Seq<JsmnTok>, js: Seq<u8>) -> (JsmnParser, Seq<JsmnTok>, Option<JsmnErr>) {
    let pos = p.pos as int;
    let c = js[pos];
    let s = p.superior();
    let next = p.toknext as int;
    if c == LBRACE || c == LBRACKET {
        if at_key_slot(p, toks) {
            (p, toks, Some(JsmnErr::JsmErrorInval))
        } else if next >= toks.len() {
            (p, toks, Some(JsmnErr::JsmErrorNoMem))
        } else {
            let typ = if c == LBRACE { JsmnType::JsmnObject } else { JsmnType::JsmnArray };
            let tok = JsmnTok { typ, start: pos as i32, end: -1i32, size: 0i32, parent: s as i32 };
            (JsmnParser { pos: (pos + 1) as usize, toknext: (next + 1) as usize, toksuper: next as usize },
                add_child(toks, p, tok), None)
        }
    } else if c == RBRACE || c == RBRACKET {
        let typ = if c == RBRACE { JsmnType::JsmnObject } else { JsmnType::JsmnArray };
        if s < 0 || toks[s].typ != typ || (typ is JsmnObject && toks[s].size % 2 == 1) {
            (p, toks, Some(JsmnErr::JsmErrorInval))
        } else {
            let up = toks[s].parent;
            (JsmnParser {
                pos: (pos + 1) as usize,
                toknext: p.toknext,
                toksuper: if up < 0 { JSMN_NO_SUPERIOR } else { up as usize },
            }, toks.update(s, JsmnTok { end: (pos + 1) as i32, ..toks[s] }), None)
        }
    } else if c == QUOTE {
        let close = string_close(js, pos + 1);
        if close < 0 {
            (p, toks, Some(JsmnErr::JsmErrorPart))
        } else if next >= toks.len() {
            (p, toks, Some(JsmnErr::JsmErrorNoMem))
        } else {
            let tok = JsmnTok {
                typ: JsmnType::JsmnString,
                start: (pos + 1) as i32,
                end: close as i32,
                size: 0i32,
                parent: s as i32,
            };
            (JsmnParser { pos: (close + 1) as usize, toknext: (next + 1) as usize, ..p },
                add_child(toks, p, tok), None)
        }
    } else if ends_primitive(c) {
        (JsmnParser { pos: (pos + 1) as usize, ..p }, toks, None)
    } else {
        let stop = primitive_stop(js, pos);
        if !all_printable(js, pos, stop) || at_key_slot(p, toks) {
            (p, toks, Some(JsmnErr::JsmErrorInval))
        } else if stop == js.len() && s >= 0 {
            (p, toks, Some(JsmnErr::JsmErrorPart))
        } else if next >= toks.len() {
            (p, toks, Some(JsmnErr::JsmErrorNoMem))
        } else {
            let tok = JsmnTok {
                typ: JsmnType::JsmnPrimitive,
                start: pos as i32,
                end: stop as i32,
                size: 0i32,
                parent: s as i32,
            };
            (JsmnParser { pos: stop as usize, toknext: (next + 1) as usize, ..p },
                add_child(toks, p, tok), None)
        }
    }
}

/// The scan from state `p` to the end of the input: the final state and
/// slots, and the token count, or the error met on the way.
pub open spec fn run(p: JsmnParser, toks: Seq<JsmnTok>, js: Seq<u8>) -> (JsmnParser, Seq<JsmnTok>, Result<usize, JsmnErr>)
    decreases js.len() - p.pos,
    when js.len() < i32::MAX
    via run_decreases
{
    if p.pos >= js.len() {
        (p, toks, if p.superior() < 0 { Ok(p.toknext) } else { Err(JsmnErr::JsmErrorPart) })
    } else {
        let (p2, t2, e) = step(p, toks, js);
        match e {
            Some(err) => (p, toks, Err(err)),
            None => run(p2, t2, js),
        }
    }
}

#[via_fn]
proof fn run_decreases(p: JsmnParser, toks: Seq<JsmnTok>, js: Seq<u8>) {
    if p.pos < js.len() {
        lemma_step_advances(p, toks, js);
    }
}

pub proof fn lemma_string_close_range(js: Seq<u8>, i: int)
    ensures
        string_close(js, i) == -1 || (i <= string_close(js, i) < js.len() && js[string_close(js, i)] == QUOTE),
    decreases js.len() + 1 - i,
{
    if 0 <= i < js.len() && js[i] != QUOTE {
        if js[i] == BACKSLASH {
            lemma_string_close_range(js, i + 2);
        } else {
            lemma_string_close_range(js, i + 1);
        }
    }
}

pub proof fn lemma_primitive_stop_range(js: Seq<u8>, i: int)
    requires
        0 <= i <= js.len(),
    ensures
        i <= primitive_stop(js, i) <= js.len(),
        forall|k: int| i <= k < primitive_stop(js, i) ==> !ends_primitive(#[trigger] js[k]),
        primitive_stop(js, i) < js.len() ==> ends_primitive(js[primitive_stop(js, i)]),
    decreases js.len() - i,
{
    if i < js.len() && !ends_primitive(js[i]) {
        lemma_primitive_stop_range(js, i + 1);
    }
}

/// Every move that does not fail consumes at least one byte.
pub proof fn lemma_step_advances(p: JsmnParser, toks: Seq<JsmnTok>, js: Seq<u8>)
    requires
        p.pos < js.len() < i32::MAX,
    ensures
        step(p, toks, js).2 is None ==> p.pos < step(p, toks, js).0.pos <= js.len(),
{
    lemma_string_close_range(js, p.pos + 1);
    lemma_primitive_stop_range(js, p.pos as int);
}

/// A chain of open containers survives changes that keep, at every index up
/// to its head, the kind, the end and the parent, and that grow a child
/// count by no more than the slots allocated meanwhile.
pub proof fn lemma_chain_frame(t1: Seq<JsmnTok>, t2: Seq<JsmnTok>, s: int, n1: int, n2: int)
    requires
        open_chain(t1, s, n1),
        n1 <= n2 <= t2.len(),
        forall|i: int| 0 <= i <= s ==> {
            &&& (#[trigger] t2[i]).typ == t1[i].typ
            &&& t2[i].end == t1[i].end
            &&& t2[i].parent == t1[i].parent
            &&& t1[i].size <= t2[i].size <= t1[i].size + (n2 - n1)
        },
    ensures
        open_chain(t2, s, n2),
    decreases s + 1,
{
    if s >= 0 {
        lemma_chain_frame(t1, t2, t1[s].parent as int, n1, n2);
    }
}

/// Each move keeps the state well formed.
pub proof fn lemma_step_wf(p: JsmnParser, toks: Seq<JsmnTok>, js: Seq<u8>)
    requires
        p.wf(toks),
        p.pos < js.len() < i32::MAX,
    ensures
        step(p, toks, js).0.wf(step(p, toks, js).1),
        step(p, toks, js).1.len() == toks.len(),
        step(p, toks, js).0.toknext >= p.toknext,
{
    lemma_string_close_range(js, p.pos + 1);
    lemma_primitive_stop_range(js, p.pos as int);
    let (p2, t2, e) = step(p, toks, js);
    let s = p.superior();
    let next = p.toknext as int;
    if e is None && p2.toknext == p.toknext + 1 {
        lemma_chain_frame(toks, t2, s, next, next + 1);
        if p2.superior() == next {
            assert(open_chain(t2, next, next + 1));
        }
    } else if e is None && p2 != p {
        let c = js[p.pos as int];
        if c == RBRACE || c == RBRACKET {
            let up = toks[s].parent as int;
            lemma_chain_frame(toks, t2, up, next, next);
        }
    }
}

/// Finds the quote that closes a string whose contents start at `start`.
fn find_string_close(js: &[u8], start: usize) -> (r: Option<usize>)
    requires
        start <= js@.len() < i32::MAX,
    ensures
        match r {
            Some(k) => k as int == string_close(js@, start as int),
            None => string_close(js@, start as int) == -1,
        },
{
    let mut i: usize = start;
    while i < js.len()
        invariant
            start <= i <= js@.len() + 1,
            js@.len() < i32::MAX,
            string_close(js@, i as int) == string_close(js@, start as int),
        decreases js@.len() + 1 - i,
    {
        if js[i] == QUOTE {
            return Some(i);
        }
        if js[i] == BACKSLASH {
            i = i + 2;
        } else {
            i = i + 1;
        }
    }
    None
}

/// Finds where the primitive that starts at `start` stops; `None` if a byte
/// before that point is not printable.
fn find_primitive_stop(js: &[u8], start: usize) -> (r: Option<usize>)
    requires
        start <= js@.len() < i32::MAX,
    ensures
        match r {
            Some(k) => k as int == primitive_stop(js@, start as int) && all_printable(js@, start as int, k as int),
            None => !all_printable(js@, start as int, primitive_stop(js@, start as int)),
        },
{
    let mut i: usize = start;
    while i < js.len()
        invariant
            start <= i <= js@.len(),
            primitive_stop(js@, i as int) == primitive_stop(js@, start as int),
            all_printable(js@, start as int, i as int),
        decreases js@.len() - i,
    {
        let c = js[i];
        if c == 9u8 || c == 10u8 || c == 13u8 || c == 32u8 || c == COMMA || c == RBRACKET || c == RBRACE || c == COLON {
            return Some(i);
        }
        if c < 32u8 || c >= 127u8 {
            proof {
                lemma_primitive_stop_range(js@, i + 1);
            }
            return None;
        }
        i = i + 1;
    }
    Some(i)
}

/// Writes `tok` into the next free slot and counts it as a child of the
/// innermost open container.
fn push_child(parser: &mut JsmnParser, tokens: &mut [JsmnTok], tok: JsmnTok)
    requires
        old(parser).wf(old(tokens)@),
        old(parser).toknext < old(tokens)@.len(),
    ensures
        final(tokens)@ == add_child(old(tokens)@, *old(parser), tok),
        *final(parser) == (JsmnParser { toknext: (old(parser).toknext + 1) as usize, ..*old(parser) }),
{
    tokens[parser.toknext] = tok;
    if parser.toksuper != JSMN_NO_SUPERIOR {
        let mut sup = tokens[parser.toksuper];
        sup.size = sup.size + 1;
        tokens[parser.toksuper] = sup;
    }
    parser.toknext = parser.toknext + 1;
    proof {
        let t = add_child(old(tokens)@, *old(parser), tok);
        assert(tokens@ =~= t);
    }
}

/// Scans the lexeme at `parser.pos`.
fn scan_step(parser: &mut JsmnParser, js: &[u8], tokens: &mut [JsmnTok]) -> (e: Option<JsmnErr>)
    requires
        old(parser).wf(old(tokens)@),
        old(parser).pos < js@.len() < i32::MAX,
    ensures
        (*final(parser), final(tokens)@, e) == step(*old(parser), old(tokens)@, js@),
{
    let pos = parser.pos;
    let c = js[pos];
    proof {
        lemma_string_close_range(js@, pos + 1);
        lemma_primitive_stop_range(js@, pos as int);
    }
    let key_slot = parser.toksuper != JSMN_NO_SUPERIOR && match tokens[parser.toksuper].typ {
        JsmnType::JsmnObject => tokens[parser.toksuper].size % 2 == 0,
        _ => false,
    };
    if c == LBRACE || c == LBRACKET {
        if key_slot {
            return Some(JsmnErr::JsmErrorInval);
        }
        if parser.toknext >= tokens.len() {
            return Some(JsmnErr::JsmErrorNoMem);
        }
        let typ = if c == LBRACE { JsmnType::JsmnObject } else { JsmnType::JsmnArray };
        let parent: i32 = if parser.toksuper == JSMN_NO_SUPERIOR { -1 } else { parser.toksuper as i32 };
        let tok = JsmnTok { typ, start: pos as i32, end: -1, size: 0, parent };
        let index = parser.toknext;
        push_child(parser, tokens, tok);
        parser.toksuper = index;
        parser.pos = pos + 1;
        None
    } else if c == RBRACE || c == RBRACKET {
        if parser.toksuper == JSMN_NO_SUPERIOR {
            return Some(JsmnErr::JsmErrorInval);
        }
        let mut sup = tokens[parser.toksuper];
        let matches = match sup.typ {
            JsmnType::JsmnObject => c == RBRACE && sup.size % 2 == 0,
            JsmnType::JsmnArray => c == RBRACKET,
            _ => false,
        };
        if !matches {
            return Some(JsmnErr::JsmErrorInval);
        }
        sup.end = (pos + 1) as i32;
        tokens[parser.toksuper] = sup;
        parser.toksuper = if sup.parent < 0 { JSMN_NO_SUPERIOR } else { sup.parent as usize };
        parser.pos = pos + 1;
        None
    } else if c == QUOTE {
        match find_string_close(js, pos + 1) {
            None => Some(JsmnErr::JsmErrorPart),
            Some(close) => {
                if parser.toknext >= tokens.len() {
                    return Some(JsmnErr::JsmErrorNoMem);
                }
                let parent: i32 = if parser.toksuper == JSMN_NO_SUPERIOR { -1 } else { parser.toksuper as i32 };
                let tok = JsmnTok {
                    typ: JsmnType::JsmnString,
                    start: (pos + 1) as i32,
                    end: close as i32,
                    size: 0,
                    parent,
                };
                push_child(parser, tokens, tok);
                parser.pos = close + 1;
                None
            },
        }
    } else if c == 9u8 || c == 10u8 || c == 13u8 || c == 32u8 || c == COMMA || c == COLON {
        parser.pos = pos + 1;
        None
    } else {
        match find_primitive_stop(js, pos) {
            None => Some(JsmnErr::JsmErrorInval),
            Some(stop) => {
                if key_slot {
                    return Some(JsmnErr::JsmErrorInval);
                }
                if stop == js.len() && parser.toksuper != JSMN_NO_SUPERIOR {
                    return Some(JsmnErr::JsmErrorPart);
                }
                if parser.toknext >= tokens.len() {
                    return Some(JsmnErr::JsmErrorNoMem);
                }
                let parent: i32 = if parser.toksuper == JSMN_NO_SUPERIOR { -1 } else { parser.toksuper as i32 };
                let tok = JsmnTok {
                    typ: JsmnType::JsmnPrimitive,
                    start: pos as i32,
                    end: stop as i32,
                    size: 0,
                    parent,
                };
                push_child(parser, tokens, tok);
                parser.pos = stop;
                None
            },
        }
    }
}

/// Scans `js` from `parser.pos` on, filling `tokens` from `parser.toknext`
/// on. Returns the number of tokens filled since the state was fresh.
///
/// Strings become tokens that span their contents without the quotes;
/// primitives are runs of printable bytes up to whitespace, `,`, `:`, `]`
/// or `}`; objects count keys and values as children, a key must be a
/// string and a closing brace must not follow a key without its value.
///
/// On an error the state and the slots are those from before the failing
/// lexeme: after `JsmErrorNoMem` the scan resumes with more slots, after
/// `JsmErrorPart` with more input that extends `js`.
pub fn jsmn_parse(parser: &mut JsmnParser, js: &str, tokens: &mut [JsmnTok]) -> (r: Result<usize, JsmnErr>)
    requires
        old(parser).wf(old(tokens)@),
        js.spec_bytes().len() < i32::MAX,
    ensures
        (*final(parser), final(tokens)@, r) == run(*old(parser), old(tokens)@, js.spec_bytes()),
        final(parser).wf(final(tokens)@),
{
    let bytes = js.as_bytes();
    while parser.pos < bytes.len()
        invariant
            bytes@ == js.spec_bytes(),
            bytes@.len() < i32::MAX,
            parser.wf(tokens@),
            tokens@.len() == old(tokens)@.len(),
            run(*parser, tokens@, bytes@) == run(*old(parser), old(tokens)@, bytes@),
        decreases bytes@.len() - parser.pos,
    {
        proof {
            lemma_step_wf(*parser, tokens@, bytes@);
            lemma_step_advances(*parser, tokens@, bytes@);
        }
        match scan_step(parser, bytes, tokens) {
            Some(e) => {
                return Err(e);
            },
            None => {},
        }
    }
    if parser.toksuper == JSMN_NO_SUPERIOR {
        Ok(parser.toknext)
    } else {
        Err(JsmnErr::JsmErrorPart)
    }
}

} // verus!
