//! The evaluation of one captured expression.

use crate::error::{Error, Failure};
use crate::model::{
    after, as_text, directive_parts, each, eval_spec, render_spec, Document, NEWLINE,
};
use crate::path::{
    lemma_rewrite_in_table_succeeds, lemma_rewrite_in_table_twice, lookup_in_map,
    resolve_in_table, rewrite_in_table, store_in_map,
};
use crate::pattern::EscapePattern;
use crate::reader::{render_bounded, rules_of, DEFAULT_MAX_DEPTH};
use crate::text::{
    append_bytes, bytes_of, find_byte, lemma_trim_valid, starts_with, trim_bounds, utf8_text,
};
use crate::value::{lemma_sequence_model, models, val_is_truthy, val_to_string, Mapping, Value};
use vstd::pervasive::unreached;
use vstd::prelude::*;
use vstd::slice::*;
use vstd::string::*;
use vstd::utf8::*;

verus! {

/// The argument and the body of a directive, as places in `after`.
struct Parts {
    arg_from: usize,
    arg_to: usize,
    body_from: usize,
}

/// Splits what follows a directive's keyword into argument and body.
fn split_directive(after: &[u8]) -> (r: Option<Parts>)
    ensures
        match r {
            Some(p) => p.arg_from <= p.arg_to < p.body_from <= after@.len() && directive_parts(
                after@,
            ) == Some(
                (
                    after@.subrange(p.arg_from as int, p.arg_to as int),
                    after@.subrange(p.body_from as int, after@.len() as int),
                ),
            ),
            None => directive_parts(after@) is None,
        },
{
    let n = find_byte(after, NEWLINE);
    if n >= after.len() {
        return None;
    }
    let line = slice_subrange(after, 0, n);
    let (s, e) = trim_bounds(line);
    if s == e {
        return None;
    }
    Some(Parts { arg_from: s, arg_to: e, body_from: n + 1 })
}

/// Renders a directive's body, which has to come out as UTF-8.
fn render_body(
    mapping: &Mapping,
    escape: &EscapePattern,
    unescape: u8,
    max_depth: usize,
    body: &[u8],
) -> (r: Result<Vec<u8>, Error>)
    ensures
        match as_text(
            render_spec(mapping.model(), rules_of(escape, unescape, max_depth), body@),
        ) {
            Ok(out) => r matches Ok(bytes) && bytes@ == out && valid_utf8(out),
            Err(f) => r matches Err(e) && e.model() == f,
        },
    decreases body@.len(), 3nat, 0nat,
{
    match render_bounded(mapping, escape, unescape, max_depth, body) {
        Ok(out) => match utf8_text(out.as_slice()) {
            Some(_) => Ok(out),
            None => Err(Error::UTF8),
        },
        Err(e) => Err(e),
    }
}

/// Renders the body of an iteration once for each item. One copy of the
/// document serves all turns: each turn writes its item over that of the
/// turn before.
fn render_each(
    mapping: &Mapping,
    escape: &EscapePattern,
    unescape: u8,
    max_depth: usize,
    path: &[u8],
    items: &Vec<Value>,
    body: &[u8],
) -> (r: Result<Vec<u8>, Error>)
    requires
        resolve_is_list(mapping.model(), path@),
    ensures
        match each(
            mapping.model(),
            rules_of(escape, unescape, max_depth),
            path@,
            models(items@),
            body@,
        ) {
            Ok(out) => r matches Ok(bytes) && bytes@ == out && valid_utf8(out),
            Err(f) => r matches Err(e) && e.model() == f,
        },
    decreases body@.len(), 4nat, 0nat,
{
    let ghost doc = mapping.model();
    let ghost rules = rules_of(escape, unescape, max_depth);
    let ghost all = models(items@);
    let ghost goal = each(doc, rules, path@, all, body@);
    let mut out: Vec<u8> = Vec::new();
    let mut copy = mapping.clone();
    let mut i: usize = 0;
    assert(all.skip(0) == all);
    while i < items.len()
        invariant
            i <= items.len(),
            doc == mapping.model(),
            rules == rules_of(escape, unescape, max_depth),
            all == models(items@),
            resolve_is_list(doc, path@),
            valid_utf8(out@),
            goal == each(doc, rules, path@, all, body@),
            goal == after(out@, each(doc, rules, path@, all.skip(i as int), body@)),
            i == 0 ==> copy.model() == doc,
            i > 0 ==> rewrite_in_table(doc, path@, all[i - 1]) == Some(copy.model()),
        decreases items.len() - i,
    {
        let ghost item = all.skip(i as int)[0];
        proof {
            assert(all.skip(i as int).skip(1) == all.skip(i + 1));
            lemma_rewrite_in_table_succeeds(doc, path@, item);
            if i > 0 {
                lemma_rewrite_in_table_succeeds(doc, path@, all[i - 1]);
                lemma_rewrite_in_table_twice(doc, path@, all[i - 1], item);
            }
        }
        match store_in_map(&mut copy, path, items[i].clone()) {
            Some(()) => {},
            None => {
                unreached()
            },
        }
        let piece = match render_body(&copy, escape, unescape, max_depth, body) {
            Ok(p) => p,
            Err(e) => {
                assert(each(doc, rules, path@, all.skip(i as int), body@) == Err::<
                    Seq<u8>,
                    Failure,
                >(e.model()));
                return Err(e);
            },
        };
        proof {
            valid_utf8_concat(out@, piece@);
            let more = each(doc, rules, path@, all.skip(i + 1), body@);
            match more {
                Ok(m) => {
                    assert(out@ + (piece@ + m) == (out@ + piece@) + m);
                },
                Err(_) => {},
            }
        }
        append_bytes(&mut out, piece.as_slice());
        i += 1;
    }
    Ok(out)
}

/// Whether `path` leads to a sequence in `doc`.
spec fn resolve_is_list(doc: Document, path: Seq<u8>) -> bool {
    resolve_in_table(doc, path) matches Some(n) && n is List
}

/// Evaluates the text of an expression, given as UTF-8 bytes.
fn eval_bytes(
    mapping: &Mapping,
    expr: &[u8],
    escape: &EscapePattern,
    unescape: u8,
    max_depth: usize,
) -> (r: Result<Vec<u8>, Error>)
    requires
        valid_utf8(expr@),
    ensures
        match eval_spec(mapping.model(), rules_of(escape, unescape, max_depth), expr@) {
            Ok(out) => r matches Ok(bytes) && bytes@ == out && valid_utf8(out),
            Err(f) => r matches Err(e) && e.model() == f,
        },
    decreases expr@.len(), 5nat, 0nat,
{
    let (from, to) = trim_bounds(expr);
    let t = slice_subrange(expr, from, to);
    let key_if = "#IF ".as_bytes();
    let key_ifnot = "#IFNOT ".as_bytes();
    let key_foreach = "#FOREACH ".as_bytes();
    if starts_with(t, key_if) {
        let rest = slice_subrange(t, key_if.len(), t.len());
        match split_directive(rest) {
            Some(p) => {
                let arg = slice_subrange(rest, p.arg_from, p.arg_to);
                let body = slice_subrange(rest, p.body_from, rest.len());
                let truthy = match lookup_in_map(mapping, arg) {
                    Some(v) => val_is_truthy(v),
                    None => false,
                };
                if truthy {
                    render_body(mapping, escape, unescape, max_depth, body)
                } else {
                    Ok(Vec::new())
                }
            },
            None => Err(Error::ParseError),
        }
    } else if starts_with(t, key_ifnot) {
        let rest = slice_subrange(t, key_ifnot.len(), t.len());
        match split_directive(rest) {
            Some(p) => {
                let arg = slice_subrange(rest, p.arg_from, p.arg_to);
                let body = slice_subrange(rest, p.body_from, rest.len());
                let truthy = match lookup_in_map(mapping, arg) {
                    Some(v) => val_is_truthy(v),
                    None => false,
                };
                if !truthy {
                    render_body(mapping, escape, unescape, max_depth, body)
                } else {
                    Ok(Vec::new())
                }
            },
            None => Err(Error::ParseError),
        }
    } else if starts_with(t, key_foreach) {
        let rest = slice_subrange(t, key_foreach.len(), t.len());
        match split_directive(rest) {
            Some(p) => {
                let arg = slice_subrange(rest, p.arg_from, p.arg_to);
                let body = slice_subrange(rest, p.body_from, rest.len());
                match lookup_in_map(mapping, arg) {
                    Some(Value::Sequence(items)) => {
                        proof {
                            lemma_sequence_model(*items);
                        }
                        render_each(mapping, escape, unescape, max_depth, arg, items, body)
                    },
                    Some(v) => if val_is_truthy(v) {
                        render_body(mapping, escape, unescape, max_depth, body)
                    } else {
                        Ok(Vec::new())
                    },
                    None => Ok(Vec::new()),
                }
            },
            None => Err(Error::ParseError),
        }
    } else {
        match lookup_in_map(mapping, t) {
            Some(v) => {
                let s = val_to_string(v.clone());
                proof {
                    encode_utf8_valid_utf8(s@);
                }
                Ok(slice_to_vec(s.as_str().as_bytes()))
            },
            None => {
                proof {
                    lemma_trim_valid(expr@);
                }
                match utf8_text(t) {
                    Some(name) => Err(Error::MissingConfigValue(name.to_owned())),
                    None => unreached(),
                }
            },
        }
    }
}

/// Evaluates an expression against a document, with the nesting of
/// expressions in a directive's body limited to `max_depth`.
pub fn eval_bounded(
    mapping: &Mapping,
    expr: &str,
    escape: &EscapePattern,
    unescape: u8,
    max_depth: usize,
) -> (r: Result<String, Error>)
    ensures
        match eval_spec(mapping.model(), rules_of(escape, unescape, max_depth), bytes_of(expr@)) {
            Ok(out) => r matches Ok(s) && bytes_of(s@) == out,
            Err(f) => r matches Err(e) && e.model() == f,
        },
    decreases bytes_of(expr@).len(), 6nat, 0nat,
{
    proof {
        encode_utf8_valid_utf8(expr@);
    }
    match eval_bytes(mapping, expr.as_bytes(), escape, unescape, max_depth) {
        Ok(out) => match utf8_text(out.as_slice()) {
            Some(s) => Ok(s.to_owned()),
            None => unreached(),
        },
        Err(e) => Err(e),
    }
}

/// Evaluates an expression against a document.
pub fn eval(mapping: &Mapping, expr: &str, escape: &EscapePattern, unescape: u8) -> (r: Result<
    String,
    Error,
>)
    ensures
        match eval_spec(
            mapping.model(),
            rules_of(escape, unescape, DEFAULT_MAX_DEPTH),
            bytes_of(expr@),
        ) {
            Ok(out) => r matches Ok(s) && bytes_of(s@) == out,
            Err(f) => r matches Err(e) && e.model() == f,
        },
{
    eval_bounded(mapping, expr, escape, unescape, DEFAULT_MAX_DEPTH)
}

} // verus!
