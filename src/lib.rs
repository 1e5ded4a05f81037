//! A minimal, allocation-free JSON tokenizer.
//!
//! The scanner fills a caller-owned slice of token slots with a flat sequence
//! of tokens (objects, arrays, strings and primitives) that describe the
//! lexical structure of a JSON document. Open containers are tracked through
//! indices into that slice, so no auxiliary stack is needed, and a parse that
//! runs out of token slots or input can be resumed with the same parser state.
//!
//! `token` holds the data model, `scanner` the scanning engine with its
//! specification as a state machine (`step`, `run`), `document` a model of
//! JSON values and their compact text, and `laws` what is proved of the
//! scanner over both.

mod token;
mod scanner;
mod document;
mod laws;

pub use token::{JsmnType, JsmnErr, JsmnTok, JsmnParser, JSMN_NO_SUPERIOR, open_chain};
pub use scanner::{
    jsmn_parse, step, run, string_close, primitive_stop, is_space, ends_primitive, is_printable,
    all_printable, at_key_slot, add_child, lemma_step_wf, lemma_step_advances,
};
pub use document::{
    JsonValue, render, render_items, render_member, render_members, valid, valid_items, valid_members,
    count, count_items, count_members, value_token, plain_string, plain_primitive, nested_arrays,
};
pub use laws::{
    lemma_run_ok_at_end, lemma_finished_tokens_kept, lemma_rescan_is_stable,
    lemma_resume_after_partial, lemma_run_step, lemma_document_scans, lemma_nested_arrays_scan,
    advanced, kept, ends_value,
};
