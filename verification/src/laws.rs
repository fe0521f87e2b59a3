//! What holds of every render.

use crate::error::Failure;
use crate::model::{
    after, as_text, directive_parts, each, eval_spec, feed, finish, keyword_foreach, keyword_if,
    keyword_ifnot, lemma_feed_wf, lemma_run_first, joined, reads, render_spec, run, session,
    step, truthy_at, Call, Document, Rules, Scan, Step, NEWLINE,
};
use crate::path::{
    lemma_resolve_after_rewrite_in_table, lemma_rewrite_in_table_succeeds, resolve_in_table,
    rewrite_in_table,
};
use crate::text::{lemma_find_is, occurs_at, occurs_in, space_back, trim};
use crate::value::Node;
use vstd::prelude::*;
use vstd::utf8::*;

verus! {

/// A scan that ends well ends in a well-formed state.
pub proof fn lemma_run_wf(doc: Document, rules: Rules, s: Scan, bytes: Seq<u8>)
    requires
        rules.wf(),
        s.wf(rules),
    ensures
        run(doc, rules, s, bytes) matches Ok(t) ==> t.wf(rules),
    decreases bytes.len(),
{
    if bytes.len() > 0 {
        lemma_run_first(doc, rules, s, bytes);
        lemma_feed_wf(doc, rules, s, bytes[0]);
        match feed(doc, rules, s, bytes[0]) {
            Ok(t) => lemma_run_wf(doc, rules, t, bytes.skip(1)),
            Err(_) => {},
        }
    }
}

/// Where a template is cut into chunks makes no difference: the scan of one
/// chunk after the other ends as the scan of both at once does, and fails as
/// it does. A delimiter that is cut in two is found all the same.
pub proof fn lemma_chunks(doc: Document, rules: Rules, s: Scan, first: Seq<u8>, second: Seq<u8>)
    requires
        rules.wf(),
        s.wf(rules),
    ensures
        run(doc, rules, s, first + second) == match run(doc, rules, s, first) {
            Ok(t) => run(doc, rules, t, second),
            Err(e) => Err(e),
        },
    decreases first.len(),
{
    if first.len() > 0 {
        let all = first + second;
        assert(all.skip(1) == first.skip(1) + second);
        lemma_run_first(doc, rules, s, all);
        lemma_run_first(doc, rules, s, first);
        lemma_feed_wf(doc, rules, s, first[0]);
        match feed(doc, rules, s, first[0]) {
            Ok(t) => lemma_chunks(doc, rules, t, first.skip(1), second),
            Err(_) => {},
        }
    }
}

/// Outside an expression, bytes that never complete the opening delimiter
/// are all rendered as they stand, once those held back are counted in.
pub proof fn lemma_literal(doc: Document, rules: Rules, s: Scan, bytes: Seq<u8>)
    requires
        rules.wf(),
        s.wf(rules),
        s.depth == 0,
        !occurs_in(rules.open.take(s.count_start as int) + bytes, rules.open),
    ensures
        run(doc, rules, s, bytes) matches Ok(t) && t.depth == 0 && finish(rules, t) == finish(
            rules,
            s,
        ) + bytes,
    decreases bytes.len(),
{
    let held = rules.open.take(s.count_start as int);
    if bytes.len() > 0 {
        let b = bytes[0];
        let more = bytes.skip(1);
        lemma_run_first(doc, rules, s, bytes);
        lemma_feed_wf(doc, rules, s, b);
        if b != rules.open[s.count_start as int] {
            let t = feed(doc, rules, s, b)->Ok_0;
            if occurs_in(more, rules.open) {
                let j = choose|j: int| occurs_at(more, rules.open, j);
                let at = s.count_start + 1 + j;
                assert((held + bytes).subrange(at, at + rules.open.len()) == more.subrange(
                    j,
                    j + rules.open.len(),
                ));
                assert(occurs_at(held + bytes, rules.open, at));
            }
            lemma_literal(doc, rules, t, more);
        } else if s.count_start + 1 < rules.open.len() {
            let t = feed(doc, rules, s, b)->Ok_0;
            assert(rules.open.take(s.count_start as int + 1) + more == held + bytes);
            lemma_literal(doc, rules, t, more);
        } else {
            assert((held + bytes).subrange(0, rules.open.len() as int) == rules.open);
            assert(occurs_at(held + bytes, rules.open, 0));
        }
    }
}

/// A template in which the opening delimiter stands nowhere renders as
/// itself, whatever the document holds.
pub proof fn lemma_identity(doc: Document, rules: Rules, input: Seq<u8>)
    requires
        rules.wf(),
        !occurs_in(input, rules.open),
    ensures
        render_spec(doc, rules, input) == Ok::<Seq<u8>, Failure>(input),
{
    lemma_literal(doc, rules, Scan::start(), input);
}

/// What a render has produced, if the opening delimiter stands nowhere in
/// it, renders as itself: a second pass changes nothing.
pub proof fn lemma_second_pass(
    doc: Document,
    again: Document,
    rules: Rules,
    input: Seq<u8>,
    out: Seq<u8>,
)
    requires
        rules.wf(),
        render_spec(doc, rules, input) == Ok::<Seq<u8>, Failure>(out),
        !occurs_in(out, rules.open),
    ensures
        render_spec(again, rules, out) == Ok::<Seq<u8>, Failure>(out),
{
    lemma_identity(again, rules, out);
}

/// What was rendered before has no part in a scan: with `before` in front
/// of what a state has rendered, the scan goes the same way, fails the same
/// way, and ends with `before` in front of what it has rendered.
pub proof fn lemma_rendered_before(
    doc: Document,
    rules: Rules,
    s: Scan,
    before: Seq<u8>,
    bytes: Seq<u8>,
)
    requires
        rules.wf(),
        s.wf(rules),
    ensures
        run(doc, rules, Scan { out: before + s.out, ..s }, bytes) == match run(
            doc,
            rules,
            s,
            bytes,
        ) {
            Ok(t) => Ok(Scan { out: before + t.out, ..t }),
            Err(e) => Err(e),
        },
    decreases bytes.len(),
{
    let with = Scan { out: before + s.out, ..s };
    if bytes.len() > 0 {
        let b = bytes[0];
        lemma_run_first(doc, rules, s, bytes);
        lemma_run_first(doc, rules, with, bytes);
        lemma_feed_wf(doc, rules, s, b);
        match feed(doc, rules, s, b) {
            Ok(t) => {
                assert(feed(doc, rules, with, b)->Ok_0.out =~= before + t.out);
                lemma_rendered_before(doc, rules, t, before, bytes.skip(1));
            },
            Err(_) => {},
        }
    }
}

/// However a template is cut into chunks, and however much room each call
/// has: the calls fail as one scan of the whole template fails, or they end
/// in the state in which that scan ends, with what they have handed out
/// taken from the front of what it has rendered.
pub proof fn lemma_reads(doc: Document, rules: Rules, s: Scan, calls: Seq<Call>)
    requires
        rules.wf(),
        s.wf(rules),
    ensures
        match run(doc, rules, s, joined(calls)) {
            Ok(t) => reads(doc, rules, s, calls) matches Ok((last, out)) && out + last.out == t.out
                && last == (Scan { out: last.out, ..t }) && last.wf(rules),
            Err(e) => reads(doc, rules, s, calls) == Err::<(Scan, Seq<u8>), Failure>(e),
        },
    decreases calls.len(),
{
    if calls.len() > 0 {
        let chunk = calls[0].chunk;
        let room = calls[0].room;
        let rest = calls.skip(1);
        lemma_chunks(doc, rules, s, chunk, joined(rest));
        lemma_run_wf(doc, rules, s, chunk);
        if let Ok(t) = run(doc, rules, s, chunk) {
            let kept = t.kept(room);
            let handed = t.handed(room);
            assert(t == (Scan { out: handed + kept.out, ..kept })) by {
                assert(handed + kept.out =~= t.out);
            }
            lemma_rendered_before(doc, rules, kept, handed, joined(rest));
            lemma_reads(doc, rules, kept, rest);
        }
    }
}

/// All that a reader hands out from the start of a template to its end is
/// what the template renders to, however the template is cut into chunks
/// and however much room each call has; and the reader fails where the
/// render fails.
pub proof fn lemma_session(doc: Document, rules: Rules, calls: Seq<Call>)
    requires
        rules.wf(),
    ensures
        session(doc, rules, calls) == render_spec(doc, rules, joined(calls)),
{
    lemma_reads(doc, rules, Scan::start(), calls);
    if let Ok(t) = run(doc, rules, Scan::start(), joined(calls)) {
        let (last, out) = reads(doc, rules, Scan::start(), calls)->Ok_0;
        assert(out + finish(rules, last) == finish(rules, t));
    }
}

/// Two ways of cutting one template into chunks, with whatever room for
/// each call, make a reader hand out the same in all, or fail the same way.
pub proof fn lemma_cuts(doc: Document, rules: Rules, one: Seq<Call>, other: Seq<Call>)
    requires
        rules.wf(),
        joined(one) == joined(other),
    ensures
        session(doc, rules, one) == session(doc, rules, other),
{
    lemma_session(doc, rules, one);
    lemma_session(doc, rules, other);
}

/// A reader over a template in which the opening delimiter stands nowhere
/// hands out the template as it is, whatever the document holds, however
/// the template is cut into chunks and however much room each call has.
pub proof fn lemma_reader_identity(doc: Document, rules: Rules, calls: Seq<Call>)
    requires
        rules.wf(),
        !occurs_in(joined(calls), rules.open),
    ensures
        session(doc, rules, calls) == Ok::<Seq<u8>, Failure>(joined(calls)),
{
    lemma_session(doc, rules, calls);
    lemma_identity(doc, rules, joined(calls));
}

/// What a reader has handed out in all, if the opening delimiter stands
/// nowhere in it, is handed out as it is by a second reader that is given
/// it as its template, in whatever chunks: a second pass changes nothing.
pub proof fn lemma_reader_second_pass(
    doc: Document,
    again: Document,
    rules: Rules,
    calls: Seq<Call>,
    second: Seq<Call>,
)
    requires
        rules.wf(),
        session(doc, rules, calls) is Ok,
        joined(second) == session(doc, rules, calls)->Ok_0,
        !occurs_in(joined(second), rules.open),
    ensures
        session(again, rules, second) == session(doc, rules, calls),
{
    lemma_reader_identity(again, rules, second);
}

/// Calls that bring no more of the template scan nothing: they hand out
/// what was rendered before, oldest first, and leave the rest of the state
/// as it was. Once nothing is left, they have handed out all of it.
pub proof fn lemma_drains(doc: Document, rules: Rules, s: Scan, calls: Seq<Call>)
    requires
        rules.wf(),
        s.wf(rules),
        forall|i: int| 0 <= i < calls.len() ==> calls[i].chunk.len() == 0,
    ensures
        reads(doc, rules, s, calls) matches Ok((last, out)) && out + last.out == s.out && last == (
        Scan { out: last.out, ..s }),
{
    lemma_nothing_joined(calls);
    lemma_reads(doc, rules, s, calls);
}

/// Calls without a chunk bring nothing of a template.
proof fn lemma_nothing_joined(calls: Seq<Call>)
    requires
        forall|i: int| 0 <= i < calls.len() ==> calls[i].chunk.len() == 0,
    ensures
        joined(calls) == Seq::<u8>::empty(),
    decreases calls.len(),
{
    if calls.len() > 0 {
        lemma_nothing_joined(calls.skip(1));
    }
}

/// The state right after an opening delimiter at the outermost level.
pub open spec fn opened(s: Scan) -> Scan {
    Scan {
        count_start: 0,
        count_end: 0,
        depth: 1,
        unescapable: true,
        var: Seq::empty(),
        out: s.out,
    }
}

/// Outside an expression, what is left of a partly matched opening
/// delimiter completes it and opens an expression.
pub proof fn lemma_opens(doc: Document, rules: Rules, s: Scan)
    requires
        rules.wf(),
        rules.max_depth >= 1,
        s.wf(rules),
        s.depth == 0,
    ensures
        run(doc, rules, s, rules.open.skip(s.count_start as int)) == Ok::<Scan, Failure>(
            opened(s),
        ),
    decreases rules.open.len() - s.count_start,
{
    let bytes = rules.open.skip(s.count_start as int);
    lemma_run_first(doc, rules, s, bytes);
    lemma_feed_wf(doc, rules, s, bytes[0]);
    if s.count_start + 1 < rules.open.len() {
        let t = feed(doc, rules, s, bytes[0])->Ok_0;
        assert(bytes.skip(1) == rules.open.skip(t.count_start as int));
        lemma_opens(doc, rules, t);
    }
}

/// The opening delimiter with the unescape byte after it renders as the
/// delimiter, and no expression is opened.
pub proof fn lemma_unescape(doc: Document, rules: Rules, s: Scan)
    requires
        rules.wf(),
        rules.max_depth >= 1,
        s.wf(rules),
        s.depth == 0,
        s.count_start == 0,
    ensures
        run(doc, rules, s, rules.open + seq![rules.unescape]) == Ok::<Scan, Failure>(
            s.emit(rules.open),
        ),
{
    let last = seq![rules.unescape];
    assert(rules.open.skip(0) == rules.open);
    lemma_opens(doc, rules, s);
    lemma_chunks(doc, rules, s, rules.open, last);
    lemma_run_first(doc, rules, opened(s), last);
}

/// Text that holds neither the first byte of the opening delimiter nor the
/// first byte of the closing one.
pub open spec fn plain(rules: Rules, text: Seq<u8>) -> bool {
    forall|i: int|
        0 <= i < text.len() ==> #[trigger] text[i] != rules.open[0] && text[i] != rules.close[0]
}

/// Inside an expression at the outermost level, plain text is captured as
/// it stands.
pub proof fn lemma_captures(doc: Document, rules: Rules, s: Scan, text: Seq<u8>)
    requires
        rules.wf(),
        s.wf(rules),
        s.depth == 1,
        s.count_start == 0,
        s.count_end == 0,
        plain(rules, text),
        s.unescapable && text.len() > 0 ==> text[0] != rules.unescape,
    ensures
        run(doc, rules, s, text) == Ok::<Scan, Failure>(
            Scan {
                var: s.var + text,
                unescapable: s.unescapable && text.len() == 0,
                ..s
            },
        ),
    decreases text.len(),
{
    if text.len() > 0 {
        lemma_run_first(doc, rules, s, text);
        lemma_feed_wf(doc, rules, s, text[0]);
        let t = feed(doc, rules, s, text[0])->Ok_0;
        lemma_captures(doc, rules, t, text.skip(1));
        assert(s.var + seq![text[0]] + text.skip(1) == s.var + text);
    }
}

/// What a closed expression leaves behind: its rendered text after what was
/// rendered before, or the failure of its evaluation.
pub open spec fn closed(doc: Document, rules: Rules, s: Scan) -> Result<Scan, Failure> {
    if valid_utf8(s.var) {
        match eval_spec(doc, rules, s.var) {
            Ok(text) => Ok(
                Scan {
                    count_start: 0,
                    count_end: 0,
                    depth: 0,
                    unescapable: false,
                    var: Seq::empty(),
                    out: s.out + text,
                },
            ),
            Err(e) => Err(e),
        }
    } else {
        Err(Failure::Decoding)
    }
}

/// Inside an expression at the outermost level, what is left of a partly
/// matched closing delimiter completes it and ends the expression, where
/// the opening delimiter does not stand in the closing one.
pub proof fn lemma_closes(doc: Document, rules: Rules, s: Scan)
    requires
        rules.wf(),
        s.wf(rules),
        s.depth == 1,
        !occurs_in(rules.close, rules.open),
        s.count_start <= s.count_end,
        rules.open.take(s.count_start as int) == rules.close.subrange(
            s.count_end - s.count_start,
            s.count_end as int,
        ),
        s.unescapable ==> rules.close[s.count_end as int] != rules.unescape,
    ensures
        run(doc, rules, s, rules.close.skip(s.count_end as int)) == closed(doc, rules, s),
    decreases rules.close.len() - s.count_end,
{
    let j = s.count_end as int;
    let c = s.count_start as int;
    let bytes = rules.close.skip(j);
    let b = bytes[0];
    lemma_run_first(doc, rules, s, bytes);
    lemma_feed_wf(doc, rules, s, b);
    if b == rules.open[c] {
        assert(rules.open.take(c + 1) == rules.close.subrange(j - c, j + 1));
        if c + 1 >= rules.open.len() {
            assert(rules.open.take(c + 1) == rules.open);
            assert(occurs_at(rules.close, rules.open, j - c));
        }
    } else {
        assert(rules.open.take(0) == rules.close.subrange(j + 1, j + 1));
    }
    if j + 1 < rules.close.len() {
        let t = feed(doc, rules, s, b)->Ok_0;
        assert(bytes.skip(1) == rules.close.skip(t.count_end as int));
        lemma_closes(doc, rules, t);
    }
}

/// An expression of plain text between the two delimiters renders as what
/// its evaluation gives, and fails as its evaluation does. This holds where
/// the opening delimiter does not stand in the closing one, and what follows
/// the opening delimiter does not start with the unescape byte.
pub proof fn lemma_expression(doc: Document, rules: Rules, s: Scan, expr: Seq<u8>)
    requires
        rules.wf(),
        rules.max_depth >= 1,
        s.wf(rules),
        s.depth == 0,
        s.count_start == 0,
        plain(rules, expr),
        !occurs_in(rules.close, rules.open),
        (expr + rules.close)[0] != rules.unescape,
    ensures
        run(doc, rules, s, rules.open + expr + rules.close) == (if valid_utf8(expr) {
            match eval_spec(doc, rules, expr) {
                Ok(text) => Ok(s.emit(text)),
                Err(e) => Err(e),
            }
        } else {
            Err(Failure::Decoding)
        }),
{
    let o = opened(s);
    let captured = Scan { var: expr, unescapable: expr.len() == 0, ..o };
    assert(rules.open.skip(0) == rules.open);
    lemma_opens(doc, rules, s);
    lemma_chunks(doc, rules, s, rules.open, expr + rules.close);
    assert(rules.open + (expr + rules.close) == rules.open + expr + rules.close);
    lemma_chunks(doc, rules, o, expr, rules.close);
    lemma_captures(doc, rules, o, expr);
    assert(rules.close.skip(0) == rules.close);
    lemma_closes(doc, rules, captured);
}

/// Whether a scan that is inside an expression is still inside it after
/// `bytes`: no byte on the way ends the outermost expression or calls it
/// off, and none goes too deep.
pub open spec fn stays_inside(rules: Rules, s: Scan, bytes: Seq<u8>) -> bool
    decreases bytes.len(),
{
    s.depth > 0 && (bytes.len() == 0 || match step(rules, s, bytes[0]) {
        Step::Next(t) => stays_inside(rules, t, bytes.skip(1)),
        _ => false,
    })
}

/// Inside an expression every byte is captured as it came, nested
/// delimiters and unescape bytes included: the captured text and the bytes
/// held back grow by exactly the bytes scanned, and nothing is rendered.
pub proof fn lemma_verbatim(doc: Document, rules: Rules, s: Scan, bytes: Seq<u8>)
    requires
        rules.wf(),
        s.wf(rules),
        stays_inside(rules, s, bytes),
    ensures
        run(doc, rules, s, bytes) matches Ok(t) && t.depth > 0 && t.wf(rules) && t.out == s.out
            && t.var + rules.close.take(t.count_end as int) == s.var + rules.close.take(
            s.count_end as int,
        ) + bytes,
    decreases bytes.len(),
{
    if bytes.len() > 0 {
        let b = bytes[0];
        lemma_run_first(doc, rules, s, bytes);
        lemma_feed_wf(doc, rules, s, b);
        let t = step(rules, s, b)->Next_0;
        assert(t.depth > 0) by {
            reveal_with_fuel(stays_inside, 2);
        }
        lemma_verbatim(doc, rules, t, bytes.skip(1));
    }
}

/// An expression is captured as one piece of the template: where a scan
/// stays inside an expression over `bytes` and the byte `last` then ends the
/// expression, `bytes` and `last` are the text of the expression followed by
/// the closing delimiter.
pub proof fn lemma_capture(doc: Document, rules: Rules, s: Scan, bytes: Seq<u8>, last: u8)
    requires
        rules.wf(),
        s.wf(rules),
        s.var.len() == 0,
        s.count_end == 0,
        stays_inside(rules, s, bytes),
        run(doc, rules, s, bytes) matches Ok(t) && step(rules, t, last) is Fire,
    ensures
        run(doc, rules, s, bytes) matches Ok(t) && bytes + seq![last] == step(
            rules,
            t,
            last,
        )->Fire_1 + rules.close,
{
    lemma_verbatim(doc, rules, s, bytes);
}

/// Outside an expression, with no part of the opening delimiter held back,
/// text that holds no first byte of that delimiter is copied as it stands and
/// holds nothing back.
pub proof fn lemma_copies(doc: Document, rules: Rules, s: Scan, text: Seq<u8>)
    requires
        rules.wf(),
        s.wf(rules),
        s.depth == 0,
        s.count_start == 0,
        forall|i: int| 0 <= i < text.len() ==> text[i] != rules.open[0],
    ensures
        run(doc, rules, s, text) == Ok::<Scan, Failure>(s.emit(text)),
    decreases text.len(),
{
    if text.len() > 0 {
        lemma_run_first(doc, rules, s, text);
        lemma_feed_wf(doc, rules, s, text[0]);
        let t = feed(doc, rules, s, text[0])->Ok_0;
        lemma_copies(doc, rules, t, text.skip(1));
        assert(s.out + seq![text[0]] + text.skip(1) == s.out + text);
    }
}

/// A path as an expression holds it: nothing to trim, and none of the three
/// keywords in front.
pub open spec fn bare_path(path: Seq<u8>) -> bool {
    &&& trim(path) == path
    &&& !keyword_if().is_prefix_of(path)
    &&& !keyword_ifnot().is_prefix_of(path)
    &&& !keyword_foreach().is_prefix_of(path)
}

/// A reference that the scan takes for one expression: a bare path of
/// plain, well-formed text, which does not start with the unescape byte.
pub open spec fn reference(rules: Rules, path: Seq<u8>) -> bool {
    &&& bare_path(path)
    &&& plain(rules, path)
    &&& valid_utf8(path)
    &&& (path + rules.close)[0] != rules.unescape
}

/// A reference to a value between two stretches of literal text renders as
/// the first stretch, the text of the value and the second stretch.
pub proof fn lemma_variable(
    doc: Document,
    rules: Rules,
    before: Seq<u8>,
    path: Seq<u8>,
    behind: Seq<u8>,
    value: Node,
)
    requires
        rules.wf(),
        rules.max_depth >= 1,
        !occurs_in(rules.close, rules.open),
        forall|i: int| 0 <= i < before.len() ==> before[i] != rules.open[0],
        reference(rules, path),
        resolve_in_table(doc, path) == Some(value),
        !occurs_in(behind, rules.open),
    ensures
        render_spec(doc, rules, before + rules.open + path + rules.close + behind) == Ok::<
            Seq<u8>,
            Failure,
        >(before + value.text() + behind),
{
    let s0 = Scan::start();
    let s1 = s0.emit(before);
    let s2 = s1.emit(value.text());
    let expression = rules.open + path + rules.close;
    lemma_copies(doc, rules, s0, before);
    lemma_expression(doc, rules, s1, path);
    lemma_literal(doc, rules, s2, behind);
    lemma_chunks(doc, rules, s0, before, expression + behind);
    lemma_chunks(doc, rules, s1, expression, behind);
    assert(before + (expression + behind) == before + rules.open + path + rules.close + behind);
    assert(Seq::<u8>::empty() + before + value.text() + rules.open.take(0) + behind == before
        + value.text() + behind);
}

/// The texts of some nodes, one after another.
pub open spec fn texts(items: Seq<Node>) -> Seq<u8>
    decreases items.len(),
{
    if items.len() == 0 {
        Seq::empty()
    } else {
        items[0].text() + texts(items.skip(1))
    }
}

/// In an iteration, a body that refers to the path of the iteration renders
/// as the item of each turn, not as the sequence that the path leads to in
/// the document itself: the result is the texts of the items, one after
/// another.
pub proof fn lemma_iteration(doc: Document, rules: Rules, path: Seq<u8>, items: Seq<Node>)
    requires
        rules.wf(),
        rules.max_depth >= 1,
        !occurs_in(rules.close, rules.open),
        reference(rules, path),
        resolve_in_table(doc, path) is Some,
        forall|i: int| 0 <= i < items.len() ==> !(items[i] is Null) && valid_utf8(items[i].text()),
    ensures
        each(doc, rules, path, items, rules.open + path + rules.close) == Ok::<Seq<u8>, Failure>(
            texts(items),
        ),
    decreases items.len(),
{
    if items.len() > 0 {
        let item = items[0];
        lemma_rewrite_in_table_succeeds(doc, path, item);
        let copy = rewrite_in_table(doc, path, item)->0;
        lemma_resolve_after_rewrite_in_table(doc, path, item);
        let none = Seq::<u8>::empty();
        lemma_variable(copy, rules, none, path, none, item);
        lemma_iteration(doc, rules, path, items.skip(1));
    }
}

/// The three keywords, byte by byte: `#IF `, `#IFNOT ` and `#FOREACH `.
pub proof fn lemma_keywords()
    ensures
        keyword_if() == seq![0x23u8, 0x49u8, 0x46u8, 0x20u8],
        keyword_ifnot() == seq![0x23u8, 0x49u8, 0x46u8, 0x4Eu8, 0x4Fu8, 0x54u8, 0x20u8],
        keyword_foreach() == seq![
            0x23u8,
            0x46u8,
            0x4Fu8,
            0x52u8,
            0x45u8,
            0x41u8,
            0x43u8,
            0x48u8,
            0x20u8,
        ],
{
    reveal_strlit("#IF ");
    reveal_strlit("#IFNOT ");
    reveal_strlit("#FOREACH ");
    is_ascii_chars_encode_utf8("#IF "@);
    is_ascii_chars_encode_utf8("#IFNOT "@);
    is_ascii_chars_encode_utf8("#FOREACH "@);
    assert(keyword_foreach() =~= seq![
        0x23u8,
        0x46u8,
        0x4Fu8,
        0x52u8,
        0x45u8,
        0x41u8,
        0x43u8,
        0x48u8,
        0x20u8,
    ]);
}

/// An argument as a directive holds it: not empty, nothing to trim, and
/// all on one line.
pub open spec fn argument(arg: Seq<u8>) -> bool {
    &&& arg.len() > 0
    &&& trim(arg) == arg
    &&& forall|i: int| 0 <= i < arg.len() ==> arg[i] != NEWLINE
}

/// A body as a directive holds it after trimming: not empty, and with no
/// white space at its end.
pub open spec fn body_text(body: Seq<u8>) -> bool {
    body.len() > 0 && space_back(body) == 0
}

/// An argument, a line break and a body split into the argument and the
/// body.
pub proof fn lemma_directive_parts(arg: Seq<u8>, body: Seq<u8>)
    requires
        argument(arg),
    ensures
        directive_parts(arg + seq![NEWLINE] + body) == Some((arg, body)),
{
    let text = arg + seq![NEWLINE] + body;
    lemma_find_is(text, NEWLINE, arg.len() as int);
    assert(text.take(arg.len() as int) == arg);
}

/// A keyword with an argument, a line break and a body after it needs no
/// trimming.
proof fn lemma_directive_is_trimmed(keyword: Seq<u8>, arg: Seq<u8>, body: Seq<u8>)
    requires
        keyword.len() > 0,
        keyword[0] == 0x23,
        argument(arg),
        body_text(body),
    ensures
        trim(keyword + arg + seq![NEWLINE] + body) == keyword + arg + seq![NEWLINE] + body,
{
}

/// `#IF`, an argument, a line break and a body render the body where the
/// argument leads to a truthy value, and nothing otherwise.
pub proof fn lemma_if(doc: Document, rules: Rules, arg: Seq<u8>, body: Seq<u8>)
    requires
        argument(arg),
        body_text(body),
    ensures
        eval_spec(doc, rules, keyword_if() + arg + seq![NEWLINE] + body) == (if truthy_at(
            doc,
            arg,
        ) {
            as_text(render_spec(doc, rules, body))
        } else {
            Ok(Seq::empty())
        }),
{
    let k = keyword_if();
    let text = k + arg + seq![NEWLINE] + body;
    lemma_keywords();
    lemma_directive_is_trimmed(k, arg, body);
    lemma_directive_parts(arg, body);
    assert(text.skip(k.len() as int) == arg + seq![NEWLINE] + body);
}

/// `#IFNOT`, an argument, a line break and a body render the body where
/// the argument leads to no truthy value, and nothing otherwise.
pub proof fn lemma_ifnot(doc: Document, rules: Rules, arg: Seq<u8>, body: Seq<u8>)
    requires
        argument(arg),
        body_text(body),
    ensures
        eval_spec(doc, rules, keyword_ifnot() + arg + seq![NEWLINE] + body) == (if !truthy_at(
            doc,
            arg,
        ) {
            as_text(render_spec(doc, rules, body))
        } else {
            Ok(Seq::empty())
        }),
{
    let k = keyword_ifnot();
    let text = k + arg + seq![NEWLINE] + body;
    lemma_keywords();
    lemma_directive_is_trimmed(k, arg, body);
    lemma_directive_parts(arg, body);
    assert(text.skip(k.len() as int) == arg + seq![NEWLINE] + body);
}

/// `#FOREACH`, an argument, a line break and a body render the body once
/// for each item where the argument leads to a sequence, once where it leads
/// to any other truthy value, and not at all otherwise.
pub proof fn lemma_foreach(doc: Document, rules: Rules, arg: Seq<u8>, body: Seq<u8>)
    requires
        argument(arg),
        body_text(body),
    ensures
        eval_spec(doc, rules, keyword_foreach() + arg + seq![NEWLINE] + body) == (
        match resolve_in_table(doc, arg) {
            Some(Node::List(items)) => each(doc, rules, arg, items, body),
            Some(n) => if n.truthy() {
                as_text(render_spec(doc, rules, body))
            } else {
                Ok(Seq::empty())
            },
            None => Ok(Seq::empty()),
        }),
{
    let k = keyword_foreach();
    let text = k + arg + seq![NEWLINE] + body;
    lemma_keywords();
    lemma_directive_is_trimmed(k, arg, body);
    lemma_directive_parts(arg, body);
    assert(text.skip(k.len() as int) == arg + seq![NEWLINE] + body);
}

} // verus!
