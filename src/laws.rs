use vstd::prelude::*;
use crate::token::{JsmnType, JsmnErr, JsmnTok, JsmnParser, JSMN_NO_SUPERIOR};
use crate::scanner::{
    step, run, string_close, primitive_stop, ends_primitive, all_printable, at_key_slot,
    lemma_step_wf, lemma_step_advances, lemma_string_close_range, lemma_primitive_stop_range,
    LBRACE, RBRACE, LBRACKET, RBRACKET, QUOTE, COMMA, COLON,
};
use crate::document::{
    JsonValue, render, render_items, render_member, render_members, valid, valid_items, valid_members,
    count, count_items, count_members, value_token, plain_string, plain_primitive, nested_arrays,
};

verus! {

/// A scan that succeeds has read the whole input, has no container left open,
/// and returns the number of slots filled.
pub proof fn lemma_run_ok_at_end(p: JsmnParser, toks: Seq<JsmnTok>, js: Seq<u8>)
    requires
        p.wf(toks),
        js.len() < i32::MAX,
        run(p, toks, js).2 is Ok,
    ensures
        run(p, toks, js).0.pos >= js.len(),
        run(p, toks, js).0.superior() < 0,
        run(p, toks, js).2 == Ok::<usize, JsmnErr>(run(p, toks, js).0.toknext),
    decreases js.len() - p.pos,
{
    if p.pos < js.len() {
        lemma_step_wf(p, toks, js);
        lemma_step_advances(p, toks, js);
        let (p2, t2, e) = step(p, toks, js);
        if e is None {
            lemma_run_ok_at_end(p2, t2, js);
        }
    }
}

/// A scan never alters a slot below the starting `toknext` unless it holds
/// a container that is still open: finished tokens stay as they are.
pub proof fn lemma_finished_tokens_kept(p: JsmnParser, toks: Seq<JsmnTok>, js: Seq<u8>)
    requires
        p.wf(toks),
        js.len() < i32::MAX,
    ensures
        run(p, toks, js).1.len() == toks.len(),
        forall|i: int| 0 <= i < p.toknext && !toks[i].is_open() ==> #[trigger] run(p, toks, js).1[i] == toks[i],
    decreases js.len() - p.pos,
{
    if p.pos < js.len() {
        lemma_step_wf(p, toks, js);
        lemma_step_advances(p, toks, js);
        let (p2, t2, e) = step(p, toks, js);
        if e is None {
            assert forall|i: int| 0 <= i < p.toknext && !toks[i].is_open() implies t2[i] == toks[i] by {
                if p.superior() >= 0 {
                    assert(toks[p.superior()].is_open());
                }
            }
            lemma_finished_tokens_kept(p2, t2, js);
        }
    }
}

/// Scanning again with the state and slots that a scan left, whatever it
/// returned, changes neither and returns the same: the same count after a
/// success, the same error after a failure.
pub proof fn lemma_rescan_is_stable(p: JsmnParser, toks: Seq<JsmnTok>, js: Seq<u8>)
    requires
        p.wf(toks),
        js.len() < i32::MAX,
    ensures
        run(run(p, toks, js).0, run(p, toks, js).1, js) == run(p, toks, js),
    decreases js.len() - p.pos,
{
    if p.pos < js.len() {
        lemma_step_wf(p, toks, js);
        lemma_step_advances(p, toks, js);
        let (p2, t2, e) = step(p, toks, js);
        if e is None {
            lemma_rescan_is_stable(p2, t2, js);
        }
    }
}

proof fn lemma_string_close_prefix(pre: Seq<u8>, js: Seq<u8>, i: int)
    requires
        pre.len() <= js.len(),
        forall|k: int| 0 <= k < pre.len() ==> pre[k] == js[k],
        string_close(pre, i) != -1,
    ensures
        string_close(js, i) == string_close(pre, i),
    decreases pre.len() + 1 - i,
{
    if 0 <= i < pre.len() && pre[i] != 34u8 {
        if pre[i] == 92u8 {
            lemma_string_close_prefix(pre, js, i + 2);
        } else {
            lemma_string_close_prefix(pre, js, i + 1);
        }
    }
}

proof fn lemma_primitive_stop_prefix(pre: Seq<u8>, js: Seq<u8>, i: int)
    requires
        0 <= i,
        pre.len() <= js.len(),
        forall|k: int| 0 <= k < pre.len() ==> pre[k] == js[k],
        primitive_stop(pre, i) < pre.len(),
    ensures
        primitive_stop(js, i) == primitive_stop(pre, i),
    decreases pre.len() - i,
{
    if i < pre.len() {
        assert(pre[i] == js[i]);
        assert(i < js.len());
        if ends_primitive(pre[i]) {
            assert(primitive_stop(pre, i) == i);
            assert(primitive_stop(js, i) == i);
        } else {
            lemma_primitive_stop_prefix(pre, js, i + 1);
            assert(primitive_stop(js, i) == primitive_stop(js, i + 1));
        }
    }
}

/// A move on a prefix of the input that completes a lexeme before the
/// prefix ends is the same move on the whole input.
proof fn lemma_step_prefix(p: JsmnParser, toks: Seq<JsmnTok>, pre: Seq<u8>, js: Seq<u8>)
    requires
        p.pos < pre.len() <= js.len() < i32::MAX,
        forall|k: int| 0 <= k < pre.len() ==> pre[k] == js[k],
        step(p, toks, pre).2 is None,
        step(p, toks, pre).0.pos < pre.len() || step(p, toks, pre).0.superior() >= 0,
    ensures
        step(p, toks, js) == step(p, toks, pre),
{
    let pos = p.pos as int;
    let c = pre[pos];
    assert(js[pos] == c);
    lemma_string_close_range(pre, pos + 1);
    lemma_primitive_stop_range(pre, pos);
    if c == 123u8 || c == 91u8 || c == 125u8 || c == 93u8 || ends_primitive(c) {
    } else if c == 34u8 {
        lemma_string_close_prefix(pre, js, pos + 1);
    } else {
        let stop = primitive_stop(pre, pos);
        assert(stop < pre.len());
        lemma_primitive_stop_prefix(pre, js, pos);
        assert(all_printable(js, pos, stop) == all_printable(pre, pos, stop));
    }
}

/// Resuming: when a scan of a prefix of `js` stops for want of input, a scan
/// of `js` from the state and slots it left ends exactly as a scan of `js`
/// from the start would.
pub proof fn lemma_resume_after_partial(p: JsmnParser, toks: Seq<JsmnTok>, pre: Seq<u8>, js: Seq<u8>)
    requires
        p.wf(toks),
        js.len() < i32::MAX,
        pre.len() <= js.len(),
        pre == js.take(pre.len() as int),
        run(p, toks, pre).2 == Err::<usize, JsmnErr>(JsmnErr::JsmErrorPart),
    ensures
        run(run(p, toks, pre).0, run(p, toks, pre).1, js) == run(p, toks, js),
    decreases pre.len() - p.pos,
{
    if p.pos < pre.len() {
        lemma_step_wf(p, toks, pre);
        lemma_step_advances(p, toks, pre);
        let (p2, t2, e) = step(p, toks, pre);
        if e is None {
            assert forall|k: int| 0 <= k < pre.len() implies pre[k] == js[k] by {}
            if p2.pos >= pre.len() && p2.superior() < 0 {
                assert(run(p2, t2, pre).2 is Ok);
            } else {
                lemma_step_prefix(p, toks, pre, js);
                lemma_step_advances(p, toks, js);
                lemma_resume_after_partial(p2, t2, pre, js);
            }
        }
    }
}

/// One move that does not fail leaves the rest of the scan to the state it
/// reaches.
pub proof fn lemma_run_step(p: JsmnParser, toks: Seq<JsmnTok>, js: Seq<u8>)
    requires
        p.pos < js.len() < i32::MAX,
        step(p, toks, js).2 is None,
    ensures
        run(p, toks, js) == run(step(p, toks, js).0, step(p, toks, js).1, js),
{
}

proof fn lemma_split(js: Seq<u8>, a: int, x: Seq<u8>, y: Seq<u8>)
    requires
        0 <= a,
        a + x.len() + y.len() <= js.len(),
        js.subrange(a, a + x.len() + y.len()) == x + y,
    ensures
        js.subrange(a, a + x.len()) == x,
        js.subrange(a + x.len(), a + x.len() + y.len()) == y,
{
    let w = js.subrange(a, a + x.len() + y.len());
    assert forall|k: int| 0 <= k < x.len() implies js[a + k] == x[k] by {
        assert(w[k] == js[a + k]);
        assert((x + y)[k] == x[k]);
    }
    assert forall|k: int| 0 <= k < y.len() implies js[a + x.len() + k] == y[k] by {
        assert(w[x.len() + k] == js[a + x.len() + k]);
        assert((x + y)[x.len() + k] == y[k]);
    }
    assert(js.subrange(a, a + x.len()) =~= x);
    assert(js.subrange(a + x.len(), a + x.len() + y.len()) =~= y);
}

proof fn lemma_string_close_at(js: Seq<u8>, i: int, k: int)
    requires
        0 <= i <= k < js.len(),
        forall|j: int| i <= j < k ==> #[trigger] js[j] != QUOTE && js[j] != 92u8,
        js[k] == QUOTE,
    ensures
        string_close(js, i) == k,
    decreases k - i,
{
    if i < k {
        lemma_string_close_at(js, i + 1, k);
    }
}

proof fn lemma_primitive_stop_at(js: Seq<u8>, i: int, k: int)
    requires
        0 <= i <= k <= js.len(),
        forall|j: int| i <= j < k ==> !ends_primitive(#[trigger] js[j]),
        k == js.len() || ends_primitive(js[k]),
    ensures
        primitive_stop(js, i) == k,
    decreases k - i,
{
    if i < k {
        lemma_primitive_stop_at(js, i + 1, k);
    }
}

/// The state after `by_pos` more bytes and `by_toks` more tokens, with the
/// same open container.
pub open spec fn advanced(p: JsmnParser, by_pos: int, by_toks: int) -> JsmnParser {
    JsmnParser { pos: (p.pos + by_pos) as usize, toknext: (p.toknext + by_toks) as usize, toksuper: p.toksuper }
}

/// Below `next`, only the container `s` changed, by `grown` more children.
pub open spec fn kept(toks: Seq<JsmnTok>, t2: Seq<JsmnTok>, next: int, s: int, grown: int) -> bool {
    &&& t2.len() == toks.len()
    &&& forall|i: int| 0 <= i < next && i != s ==> #[trigger] t2[i] == toks[i]
    &&& s >= 0 ==> t2[s] == JsmnTok { size: (toks[s].size + grown) as i32, ..toks[s] }
}

/// A primitive may end at `k`: a delimiter follows, or the input ends at
/// the top level.
pub open spec fn ends_value(js: Seq<u8>, k: int, s: int) -> bool {
    (k == js.len() && s < 0) || (k < js.len() && ends_primitive(js[k]))
}

proof fn lemma_count_positive(v: JsonValue)
    ensures
        count(v) >= 1,
{
    match v {
        JsonValue::Primitive(_) => {},
        JsonValue::Str(_) => {},
        JsonValue::Array(items) => {},
        JsonValue::Object(_, vals) => {},
    }
}

proof fn lemma_count_items_bound(items: Seq<JsonValue>, i: int)
    requires
        0 <= i <= items.len(),
    ensures
        count_items(items, i) >= items.len() - i,
    decreases items.len() - i,
{
    if i < items.len() {
        lemma_count_items_bound(items, i + 1);
        lemma_count_positive(items[i]);
    }
}

proof fn lemma_count_members_bound(vals: Seq<JsonValue>, i: int)
    requires
        0 <= i <= vals.len(),
    ensures
        count_members(vals, i) >= 2 * (vals.len() - i),
    decreases vals.len() - i,
{
    if i < vals.len() {
        lemma_count_members_bound(vals, i + 1);
        lemma_count_positive(vals[i]);
    }
}

proof fn lemma_scan_value(v: JsonValue, p: JsmnParser, toks: Seq<JsmnTok>, js: Seq<u8>) -> (t2: Seq<JsmnTok>)
    requires
        valid(v),
        p.wf(toks),
        js.len() < i32::MAX,
        p.pos + render(v).len() <= js.len(),
        js.subrange(p.pos as int, p.pos + render(v).len()) == render(v),
        v is Primitive ==> ends_value(js, p.pos + render(v).len(), p.superior()),
        p.toknext + count(v) <= toks.len(),
        !at_key_slot(p, toks),
    ensures
        run(p, toks, js) == run(advanced(p, render(v).len() as int, count(v) as int), t2, js),
        advanced(p, render(v).len() as int, count(v) as int).wf(t2),
        kept(toks, t2, p.toknext as int, p.superior(), 1),
        t2[p.toknext as int] == value_token(v, p.pos as int, p.superior()),
    decreases v, 0int,
{
    let at = p.pos as int;
    let r = render(v);
    let next = p.toknext as int;
    let s = p.superior();
    assert(js[at] == r[0]) by {
        assert(js.subrange(at, at + r.len())[0] == js[at]);
    }
    lemma_step_wf(p, toks, js);
    lemma_step_advances(p, toks, js);
    match v {
        JsonValue::Primitive(b) => {
            assert forall|j: int| at <= j < at + b.len() implies #[trigger] js[j] == b[j - at] by {
                assert(js.subrange(at, at + r.len())[j - at] == js[j]);
            }
            assert forall|j: int| at <= j < at + b.len() implies !ends_primitive(#[trigger] js[j]) by {
                assert(js[j] == b[j - at]);
            }
            assert(r == b);
            assert(!ends_primitive(js[at]));
            assert(js[at] != LBRACE && js[at] != LBRACKET && js[at] != QUOTE);
            lemma_primitive_stop_at(js, at, at + b.len());
            assert(all_printable(js, at, at + b.len())) by {
                assert forall|j: int| at <= j < at + b.len() implies crate::scanner::is_printable(#[trigger] js[j]) by {
                    assert(js[j] == b[j - at]);
                }
            }
            lemma_run_step(p, toks, js);
            step(p, toks, js).1
        },
        JsonValue::Str(b) => {
            assert(r == seq![QUOTE] + b + seq![QUOTE]);
            assert forall|j: int| at + 1 <= j < at + 1 + b.len() implies #[trigger] js[j] == b[j - at - 1] by {
                assert(js.subrange(at, at + r.len())[j - at] == js[j]);
            }
            assert(js[at + 1 + b.len()] == QUOTE) by {
                assert(js.subrange(at, at + r.len())[1 + b.len() as int] == js[at + 1 + b.len()]);
            }
            assert forall|j: int| at + 1 <= j < at + 1 + b.len() implies #[trigger] js[j] != QUOTE && js[j] != 92u8 by {
                assert(js[j] == b[j - at - 1]);
            }
            lemma_string_close_at(js, at + 1, at + 1 + b.len());
            lemma_run_step(p, toks, js);
            step(p, toks, js).1
        },
        JsonValue::Array(items) => {
            let body = render_items(items, 0);
            assert(r == seq![LBRACKET] + body + seq![RBRACKET]);
            lemma_split(js, at, seq![LBRACKET] + body, seq![RBRACKET]);
            lemma_split(js, at, seq![LBRACKET], body);
            assert(js[at + 1 + body.len()] == RBRACKET) by {
                assert(js.subrange(at + 1 + body.len(), at + 2 + body.len())[0] == js[at + 1 + body.len()]);
            }
            lemma_run_step(p, toks, js);
            let (p1, t1, _e) = step(p, toks, js);
            lemma_count_items_bound(items, 0);
            assert(t1[next] == JsmnTok { typ: JsmnType::JsmnArray, start: at as i32, end: -1i32, size: 0i32, parent: s as i32 });
            assert(p1.superior() == next);
            let t3 = lemma_scan_items(items, 0, p1, t1, js);
            let p3 = advanced(p1, body.len() as int, count_items(items, 0) as int);
            assert(p3.pos == at + 1 + body.len());
            assert(js[p3.pos as int] == RBRACKET);
            assert(p3.superior() == next);
            assert(t3[next].typ is JsmnArray);
            lemma_step_wf(p3, t3, js);
            lemma_step_advances(p3, t3, js);
            lemma_run_step(p3, t3, js);
            step(p3, t3, js).1
        },
        JsonValue::Object(keys, vals) => {
            let body = render_members(keys, vals, 0);
            assert(r == seq![LBRACE] + body + seq![RBRACE]);
            lemma_split(js, at, seq![LBRACE] + body, seq![RBRACE]);
            lemma_split(js, at, seq![LBRACE], body);
            assert(js[at + 1 + body.len()] == RBRACE) by {
                assert(js.subrange(at + 1 + body.len(), at + 2 + body.len())[0] == js[at + 1 + body.len()]);
            }
            lemma_run_step(p, toks, js);
            let (p1, t1, _e) = step(p, toks, js);
            lemma_count_members_bound(vals, 0);
            assert(t1[next] == JsmnTok { typ: JsmnType::JsmnObject, start: at as i32, end: -1i32, size: 0i32, parent: s as i32 });
            assert(p1.superior() == next);
            let t3 = lemma_scan_members(keys, vals, 0, p1, t1, js);
            let p3 = advanced(p1, body.len() as int, count_members(vals, 0) as int);
            assert(p3.pos == at + 1 + body.len());
            assert(js[p3.pos as int] == RBRACE);
            assert(p3.superior() == next);
            assert(t3[next].typ is JsmnObject);
            assert(t3[next].size == 2 * vals.len());
            lemma_step_wf(p3, t3, js);
            lemma_step_advances(p3, t3, js);
            lemma_run_step(p3, t3, js);
            step(p3, t3, js).1
        },
    }
}

proof fn lemma_scan_items(items: Seq<JsonValue>, i: int, p: JsmnParser, toks: Seq<JsmnTok>, js: Seq<u8>) -> (t2: Seq<JsmnTok>)
    requires
        0 <= i <= items.len(),
        valid_items(items, i),
        p.wf(toks),
        js.len() < i32::MAX,
        p.superior() >= 0,
        toks[p.superior()].typ is JsmnArray,
        p.pos + render_items(items, i).len() < js.len(),
        js.subrange(p.pos as int, p.pos + render_items(items, i).len()) == render_items(items, i),
        js[p.pos + render_items(items, i).len()] == RBRACKET,
        p.toknext + count_items(items, i) <= toks.len(),
    ensures
        run(p, toks, js) == run(advanced(p, render_items(items, i).len() as int, count_items(items, i) as int), t2, js),
        advanced(p, render_items(items, i).len() as int, count_items(items, i) as int).wf(t2),
        kept(toks, t2, p.toknext as int, p.superior(), items.len() - i),
    decreases items, items.len() - i,
{
    let s = p.superior();
    if i >= items.len() {
        assert(advanced(p, 0, 0) == p);
        assert(toks[s] == JsmnTok { size: (toks[s].size + 0) as i32, ..toks[s] });
        toks
    } else {
        let w = render(items[i]);
        if i == items.len() - 1 {
            assert(render_items(items, i) == w);
            assert(count_items(items, i + 1) == 0);
            let t1 = lemma_scan_value(items[i], p, toks, js);
            t1
        } else {
            let rest = render_items(items, i + 1);
            lemma_split(js, p.pos as int, w + seq![COMMA], rest);
            lemma_split(js, p.pos as int, w, seq![COMMA]);
            assert(js[p.pos + w.len()] == COMMA) by {
                assert(js.subrange(p.pos + w.len(), p.pos + w.len() + 1)[0] == js[p.pos + w.len()]);
            }
            let t1 = lemma_scan_value(items[i], p, toks, js);
            let p1 = advanced(p, w.len() as int, count(items[i]) as int);
            lemma_run_step(p1, t1, js);
            let p2 = advanced(p1, 1, 0);
            assert(step(p1, t1, js).0 == p2);
            let t2 = lemma_scan_items(items, i + 1, p2, t1, js);
            assert(advanced(p2, rest.len() as int, count_items(items, i + 1) as int)
                == advanced(p, render_items(items, i).len() as int, count_items(items, i) as int));
            t2
        }
    }
}

proof fn lemma_scan_key(key: Seq<u8>, p: JsmnParser, toks: Seq<JsmnTok>, js: Seq<u8>) -> (t1: Seq<JsmnTok>)
    requires
        plain_string(key),
        p.wf(toks),
        js.len() < i32::MAX,
        p.pos + key.len() + 3 <= js.len(),
        js.subrange(p.pos as int, p.pos + key.len() + 3) == seq![QUOTE] + key + seq![QUOTE] + seq![COLON],
        p.toknext + 1 <= toks.len(),
    ensures
        run(p, toks, js) == run(advanced(p, key.len() + 3int, 1), t1, js),
        advanced(p, key.len() + 3int, 1).wf(t1),
        kept(toks, t1, p.toknext as int, p.superior(), 1),
{
    let at = p.pos as int;
    let lead = seq![QUOTE] + key + seq![QUOTE] + seq![COLON];
    assert forall|j: int| at + 1 <= j < at + 1 + key.len() implies #[trigger] js[j] == key[j - at - 1] by {
        assert(js.subrange(at, at + lead.len())[j - at] == js[j]);
        assert(lead[j - at] == key[j - at - 1]);
    }
    assert(js[at] == QUOTE) by {
        assert(js.subrange(at, at + lead.len())[0] == js[at]);
    }
    assert(js[at + 1 + key.len()] == QUOTE) by {
        assert(js.subrange(at, at + lead.len())[1 + key.len() as int] == js[at + 1 + key.len()]);
    }
    assert(js[at + 2 + key.len()] == COLON) by {
        assert(js.subrange(at, at + lead.len())[2 + key.len() as int] == js[at + 2 + key.len()]);
    }
    assert forall|j: int| at + 1 <= j < at + 1 + key.len() implies #[trigger] js[j] != QUOTE && js[j] != 92u8 by {
        assert(js[j] == key[j - at - 1]);
    }
    lemma_string_close_at(js, at + 1, at + 1 + key.len());
    lemma_step_wf(p, toks, js);
    lemma_step_advances(p, toks, js);
    lemma_run_step(p, toks, js);
    let (p1, t1, _e) = step(p, toks, js);
    assert(p1 == advanced(p, key.len() + 2int, 1));
    lemma_step_wf(p1, t1, js);
    lemma_step_advances(p1, t1, js);
    lemma_run_step(p1, t1, js);
    assert(step(p1, t1, js).0 == advanced(p, key.len() + 3int, 1));
    t1
}

proof fn lemma_scan_members(
    keys: Seq<Seq<u8>>,
    vals: Seq<JsonValue>,
    i: int,
    p: JsmnParser,
    toks: Seq<JsmnTok>,
    js: Seq<u8>,
) -> (t2: Seq<JsmnTok>)
    requires
        0 <= i <= vals.len(),
        keys.len() == vals.len(),
        valid_members(keys, vals, i),
        p.wf(toks),
        js.len() < i32::MAX,
        p.superior() >= 0,
        toks[p.superior()].typ is JsmnObject,
        toks[p.superior()].size % 2 == 0,
        p.pos + render_members(keys, vals, i).len() < js.len(),
        js.subrange(p.pos as int, p.pos + render_members(keys, vals, i).len()) == render_members(keys, vals, i),
        js[p.pos + render_members(keys, vals, i).len()] == RBRACE,
        p.toknext + count_members(vals, i) <= toks.len(),
    ensures
        run(p, toks, js) == run(advanced(p, render_members(keys, vals, i).len() as int, count_members(vals, i) as int), t2, js),
        advanced(p, render_members(keys, vals, i).len() as int, count_members(vals, i) as int).wf(t2),
        kept(toks, t2, p.toknext as int, p.superior(), 2 * (vals.len() - i)),
    decreases vals, vals.len() - i,
{
    let s = p.superior();
    if i >= vals.len() {
        assert(advanced(p, 0, 0) == p);
        assert(toks[s] == JsmnTok { size: (toks[s].size + 0) as i32, ..toks[s] });
        toks
    } else {
        let key = keys[i];
        let w = render(vals[i]);
        let m = render_member(key, vals[i]);
        let at = p.pos as int;
        let (head, tail) = if i == vals.len() - 1 { (m, Seq::<u8>::empty()) } else { (m + seq![COMMA], render_members(keys, vals, i + 1)) };
        assert(render_members(keys, vals, i) == head + tail) by {
            if i == vals.len() - 1 {
                assert(m + Seq::<u8>::empty() =~= m);
            }
        }
        lemma_split(js, at, head, tail);
        if i < vals.len() - 1 {
            lemma_split(js, at, m, seq![COMMA]);
        }
        let lead = seq![QUOTE] + key + seq![QUOTE] + seq![COLON];
        assert(m == lead + w);
        lemma_split(js, at, lead, w);
        let t1 = lemma_scan_key(key, p, toks, js);
        let p2 = advanced(p, key.len() + 3int, 1);
        let after = at + m.len();
        assert(ends_value(js, after, s)) by {
            assert(js.subrange(at + head.len(), at + head.len() + tail.len()) == tail);
            if i == vals.len() - 1 {
                assert(after == p.pos + render_members(keys, vals, i).len());
            } else {
                assert(js.subrange(at + m.len(), at + m.len() + 1)[0] == js[after]);
            }
        }
        let t3 = lemma_scan_value(vals[i], p2, t1, js);
        assert(kept(toks, t3, p.toknext as int, s, 2));
        let p3 = advanced(p2, w.len() as int, count(vals[i]) as int);
        if i == vals.len() - 1 {
            assert(count_members(vals, i + 1) == 0);
            assert(render_members(keys, vals, i) == m);
            assert(p3 == advanced(p, render_members(keys, vals, i).len() as int, count_members(vals, i) as int));
            t3
        } else {
            assert(js[after] == COMMA) by {
                assert(js.subrange(at + m.len(), at + m.len() + 1)[0] == js[after]);
            }
            lemma_run_step(p3, t3, js);
            let p4 = advanced(p3, 1, 0);
            assert(step(p3, t3, js).0 == p4);
            let t4 = lemma_scan_members(keys, vals, i + 1, p4, t3, js);
            assert(advanced(p4, tail.len() as int, count_members(vals, i + 1) as int)
                == advanced(p, render_members(keys, vals, i).len() as int, count_members(vals, i) as int));
            t4
        }
    }
}

/// Every document in compact form, with plain strings, scanned from a fresh
/// state into enough slots, gives one token per value (a member counting
/// its key and its value), and the first token spans the whole document.
pub proof fn lemma_document_scans(v: JsonValue, toks: Seq<JsmnTok>)
    requires
        valid(v),
        count(v) <= toks.len() <= i32::MAX,
        render(v).len() < i32::MAX,
    ensures
        run(JsmnParser { pos: 0, toknext: 0, toksuper: JSMN_NO_SUPERIOR }, toks, render(v)).2
            == Ok::<usize, JsmnErr>(count(v) as usize),
        run(JsmnParser { pos: 0, toknext: 0, toksuper: JSMN_NO_SUPERIOR }, toks, render(v)).1[0]
            == value_token(v, 0, -1),
{
    let js = render(v);
    let p = JsmnParser { pos: 0, toknext: 0, toksuper: JSMN_NO_SUPERIOR };
    assert(js.subrange(0, js.len() as int) =~= js);
    let t2 = lemma_scan_value(v, p, toks, js);
}

proof fn lemma_nested_shape(d: nat)
    ensures
        valid(nested_arrays(d)),
        count(nested_arrays(d)) == d + 1,
        render(nested_arrays(d)).len() == 2 * d + 1,
        d > 0 ==> render(nested_arrays(d)) == seq![LBRACKET] + render(nested_arrays((d - 1) as nat)) + seq![RBRACKET],
    decreases d,
{
    if d == 0 {
        assert(plain_primitive(seq![49u8]));
    } else {
        let inner = nested_arrays((d - 1) as nat);
        lemma_nested_shape((d - 1) as nat);
        let items = seq![inner];
        assert(items[0] == inner);
        assert(render_items(items, 0) == render(inner));
        assert(count_items(items, 1) == 0);
        assert(count_items(items, 0) == count(inner));
        assert(valid_items(items, 1));
    }
}

/// The opening brackets of `nested_arrays(d)` lead to the state inside the
/// `k`-th array with the `k` open arrays in the first `k` slots.
proof fn lemma_nested_opening(d: nat, k: nat, toks: Seq<JsmnTok>) -> (tk: Seq<JsmnTok>)
    requires
        k <= d,
        d + 1 <= toks.len() <= i32::MAX,
        2 * d + 1 < i32::MAX,
    ensures
        ({
            let js = render(nested_arrays(d));
            let pk = JsmnParser {
                pos: k as usize,
                toknext: k as usize,
                toksuper: if k == 0 { JSMN_NO_SUPERIOR } else { (k - 1) as usize },
            };
            &&& run(JsmnParser { pos: 0, toknext: 0, toksuper: JSMN_NO_SUPERIOR }, toks, js) == run(pk, tk, js)
            &&& pk.wf(tk)
            &&& tk.len() == toks.len()
            &&& k > 0 ==> tk[k - 1].typ is JsmnArray && tk[k - 1].size == 0
            &&& js.subrange(k as int, 2 * d + 1 - k) == render(nested_arrays((d - k) as nat))
        }),
    decreases k,
{
    let js = render(nested_arrays(d));
    lemma_nested_shape(d);
    if k == 0 {
        assert(js.subrange(0, js.len() as int) =~= js);
        toks
    } else {
        let t = lemma_nested_opening(d, (k - 1) as nat, toks);
        let p = JsmnParser {
            pos: (k - 1) as usize,
            toknext: (k - 1) as usize,
            toksuper: if k - 1 == 0 { JSMN_NO_SUPERIOR } else { (k - 2) as usize },
        };
        let outer = nested_arrays((d - (k - 1)) as nat);
        let inner = nested_arrays((d - k) as nat);
        lemma_nested_shape((d - (k - 1)) as nat);
        lemma_nested_shape((d - k) as nat);
        assert(outer == JsonValue::Array(seq![inner]));
        lemma_split(js, k - 1, seq![LBRACKET] + render(inner), seq![RBRACKET]);
        lemma_split(js, k - 1, seq![LBRACKET], render(inner));
        assert(js[k - 1] == LBRACKET) by {
            assert(js.subrange(k - 1, k as int)[0] == js[k - 1]);
        }
        lemma_step_wf(p, t, js);
        lemma_step_advances(p, t, js);
        lemma_run_step(p, t, js);
        step(p, t, js).1
    }
}

/// Nested arrays: `d` opening brackets, a primitive and `d` closing
/// brackets, scanned from a fresh state into `d + 1` or more slots, give
/// `d + 1` tokens; token `i < d` is an array spanning `i..2d+1-i` with one
/// child and parent `i - 1`, token `d` the primitive with parent `d - 1`.
pub proof fn lemma_nested_arrays_scan(d: nat, toks: Seq<JsmnTok>)
    requires
        d + 1 <= toks.len() <= i32::MAX,
        2 * d + 1 < i32::MAX,
    ensures
        ({
            let r = run(JsmnParser { pos: 0, toknext: 0, toksuper: JSMN_NO_SUPERIOR }, toks, render(nested_arrays(d)));
            &&& r.2 == Ok::<usize, JsmnErr>((d + 1) as usize)
            &&& forall|i: int| 0 <= i < d ==> #[trigger] r.1[i] == JsmnTok {
                typ: JsmnType::JsmnArray, start: i as i32, end: (2 * d + 1 - i) as i32, size: 1, parent: (i - 1) as i32,
            }
            &&& r.1[d as int] == JsmnTok {
                typ: JsmnType::JsmnPrimitive, start: d as i32, end: (d + 1) as i32, size: 0, parent: (d - 1) as i32,
            }
        }),
{
    let js = render(nested_arrays(d));
    let fresh = JsmnParser { pos: 0, toknext: 0, toksuper: JSMN_NO_SUPERIOR };
    lemma_nested_shape(d);
    lemma_document_scans(nested_arrays(d), toks);
    let r = run(fresh, toks, js);
    assert forall|k: int| 0 <= k <= d implies #[trigger] r.1[k] == value_token(nested_arrays((d - k) as nat), k, k - 1) by {
        let tk = lemma_nested_opening(d, k as nat, toks);
        let pk = JsmnParser {
            pos: k as usize,
            toknext: k as usize,
            toksuper: if k == 0 { JSMN_NO_SUPERIOR } else { (k - 1) as usize },
        };
        let v = nested_arrays((d - k) as nat);
        lemma_nested_shape((d - k) as nat);
        if k == d {
            assert(js.len() == 2 * d + 1);
            if d > 0 {
                let _t = lemma_nested_opening(d, (d - 1) as nat, toks);
                lemma_nested_shape(1);
                let one = render(nested_arrays(1));
                assert(one[2] == RBRACKET);
                assert(js.subrange(d - 1, d + 2int)[2] == js[d + 1int]);
            }
        }
        let t2 = lemma_scan_value(v, pk, tk, js);
        let p2 = advanced(pk, render(v).len() as int, count(v) as int);
        lemma_finished_tokens_kept(p2, t2, js);
    }
    assert forall|i: int| 0 <= i < d implies #[trigger] r.1[i] == JsmnTok {
        typ: JsmnType::JsmnArray, start: i as i32, end: (2 * d + 1 - i) as i32, size: 1, parent: (i - 1) as i32,
    } by {
        assert(r.1[i] == value_token(nested_arrays((d - i) as nat), i, i - 1));
        lemma_nested_shape((d - i) as nat);
    }
    assert(r.1[d as int] == value_token(nested_arrays(0), d as int, d - 1));
}

} // verus!
