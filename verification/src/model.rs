//! What rendering means: the scan of a template byte by byte, and the
//! evaluation of the expressions that the scan captures.
//!
//! The scan is an automaton. Outside an expression it copies bytes and
//! watches for the opening delimiter. Inside one it keeps every byte as it
//! came, nested delimiters included, and counts openings against closings,
//! so that an expression ends at its own closing delimiter and not at the
//! first one. The captured text is then evaluated, and a directive's body is
//! rendered by a scan of its own.

use crate::error::Failure;
use crate::path::{resolve_in_table, rewrite_in_table};
use crate::text::{bytes_of, find, lemma_trim, trim};
use crate::value::Node;
use vstd::prelude::*;
use vstd::utf8::*;

verus! {

/// A document at its root: a mapping from keys to nodes.
pub type Document = Map<Seq<u8>, Node>;

/// What a scan is run with.
pub struct Rules {
    /// The opening delimiter.
    pub open: Seq<u8>,
    /// The closing delimiter.
    pub close: Seq<u8>,
    /// The byte that, right after an opening delimiter, makes the delimiter
    /// stand for itself.
    pub unescape: u8,
    /// The deepest nesting of expressions that is accepted.
    pub max_depth: nat,
}

impl Rules {
    /// Both delimiters hold at least one byte, and they differ.
    pub open spec fn wf(self) -> bool {
        self.open.len() > 0 && self.close.len() > 0 && self.open != self.close
    }
}

/// The state of a scan between two bytes.
pub struct Scan {
    /// How many bytes of the opening delimiter the last bytes have matched.
    pub count_start: nat,
    /// How many bytes of the closing delimiter the last bytes have matched.
    /// They are held back from `var` until the match fails or completes.
    pub count_end: nat,
    /// How many expressions are open.
    pub depth: nat,
    /// Whether the byte before completed an opening delimiter.
    pub unescapable: bool,
    /// The text of the outermost open expression so far.
    pub var: Seq<u8>,
    /// What has been rendered so far. Outside an expression the bytes of a
    /// partial opening delimiter are held back from it.
    pub out: Seq<u8>,
}

impl Scan {
    /// The state before the first byte.
    pub open spec fn start() -> Scan {
        Scan {
            count_start: 0,
            count_end: 0,
            depth: 0,
            unescapable: false,
            var: Seq::empty(),
            out: Seq::empty(),
        }
    }

    /// Neither delimiter is matched in full, the depth is within the
    /// limit, the byte before can have opened an expression only if one is
    /// open, and outside an expression nothing is captured or held back
    /// from the captured text.
    pub open spec fn wf(self, rules: Rules) -> bool {
        &&& self.count_start < rules.open.len()
        &&& self.count_end < rules.close.len()
        &&& self.depth <= rules.max_depth
        &&& (self.unescapable ==> self.depth > 0)
        &&& (self.depth == 0 ==> self.count_end == 0 && self.var.len() == 0)
    }

    /// The same state with `text` rendered after what was rendered before.
    pub open spec fn emit(self, text: Seq<u8>) -> Scan {
        Scan { out: self.out + text, ..self }
    }

    /// How many bytes of what has been rendered a caller gets who has room
    /// for `room` bytes: as many as there is room for, or all there are.
    pub open spec fn share(self, room: nat) -> nat {
        if room <= self.out.len() {
            room
        } else {
            self.out.len()
        }
    }

    /// The bytes that a caller with room for `room` bytes is handed: the
    /// oldest of what has been rendered.
    pub open spec fn handed(self, room: nat) -> Seq<u8> {
        self.out.take(self.share(room) as int)
    }

    /// The state once a caller with room for `room` bytes has been handed
    /// its share: the rest of what has been rendered is kept.
    pub open spec fn kept(self, room: nat) -> Scan {
        Scan { out: self.out.skip(self.share(room) as int), ..self }
    }
}

/// What one byte does to a scan.
pub enum Step {
    /// The scan goes on in this state.
    Next(Scan),
    /// The outermost expression has closed. It holds this text, and the scan
    /// goes on in this state once the text has been evaluated and rendered.
    Fire(Scan, Seq<u8>),
    /// The byte opens an expression beyond the accepted depth.
    TooDeep,
}

/// The step outside any expression. A byte that continues the opening
/// delimiter is held back; one that does not is copied, after the bytes that
/// were held back. The last byte of the delimiter opens an expression.
pub open spec fn step_outside(rules: Rules, s: Scan, b: u8) -> Step {
    if b != rules.open[s.count_start as int] {
        Step::Next(
            Scan {
                count_start: 0,
                unescapable: false,
                out: s.out + rules.open.take(s.count_start as int) + seq![b],
                ..s
            },
        )
    } else if s.count_start + 1 < rules.open.len() {
        Step::Next(Scan { count_start: s.count_start + 1, unescapable: false, ..s })
    } else if rules.max_depth == 0 {
        Step::TooDeep
    } else {
        Step::Next(
            Scan {
                count_start: 0,
                count_end: 0,
                depth: 1,
                unescapable: true,
                var: Seq::empty(),
                out: s.out,
            },
        )
    }
}

/// The step right after an opening delimiter, on the unescape byte: the
/// expression that the delimiter opened is called off. At the outermost
/// level the delimiter is rendered as it stands, in place of the byte.
/// Further in, the byte joins the captured text, so that the scan of that
/// text finds the delimiter with the byte after it.
pub open spec fn step_unescape(rules: Rules, s: Scan, b: u8) -> Step {
    if s.depth <= 1 {
        Step::Next(
            Scan {
                count_start: 0,
                count_end: 0,
                depth: 0,
                unescapable: false,
                var: Seq::empty(),
                out: s.out + rules.open,
            },
        )
    } else {
        Step::Next(
            Scan {
                count_start: 0,
                count_end: 0,
                depth: (s.depth - 1) as nat,
                unescapable: false,
                var: s.var + rules.close.take(s.count_end as int) + seq![b],
                out: s.out,
            },
        )
    }
}

/// The step inside an expression. Both delimiters are watched for. A byte
/// that continues the closing delimiter is held back; any other joins the
/// captured text, after the bytes that were held back. A completed opening
/// delimiter goes one level deeper; a completed closing delimiter comes one
/// level back, and at the outermost level ends the expression.
pub open spec fn step_inside(rules: Rules, s: Scan, b: u8) -> Step {
    let opens = b == rules.open[s.count_start as int] && s.count_start + 1 >= rules.open.len();
    let count_start = if b == rules.open[s.count_start as int] && !opens {
        s.count_start + 1
    } else {
        0
    };
    let depth = if opens {
        s.depth + 1
    } else {
        s.depth
    };
    if opens && s.depth >= rules.max_depth {
        Step::TooDeep
    } else if b != rules.close[s.count_end as int] {
        Step::Next(
            Scan {
                count_start,
                count_end: 0,
                depth,
                unescapable: opens,
                var: s.var + rules.close.take(s.count_end as int) + seq![b],
                out: s.out,
            },
        )
    } else if s.count_end + 1 < rules.close.len() {
        Step::Next(
            Scan {
                count_start,
                count_end: s.count_end + 1,
                depth,
                unescapable: opens,
                var: s.var,
                out: s.out,
            },
        )
    } else if depth <= 1 {
        Step::Fire(
            Scan {
                count_start: 0,
                count_end: 0,
                depth: 0,
                unescapable: false,
                var: Seq::empty(),
                out: s.out,
            },
            s.var,
        )
    } else {
        Step::Next(
            Scan {
                count_start,
                count_end: 0,
                depth: (depth - 1) as nat,
                unescapable: opens,
                var: s.var + rules.close,
                out: s.out,
            },
        )
    }
}

/// What the byte `b` does to a scan in state `s`.
pub open spec fn step(rules: Rules, s: Scan, b: u8) -> Step {
    if s.unescapable && b == rules.unescape {
        step_unescape(rules, s, b)
    } else if s.depth == 0 {
        step_outside(rules, s, b)
    } else {
        step_inside(rules, s, b)
    }
}

/// What a scan has rendered once its input has ended: outside an expression
/// the bytes of a partial opening delimiter are let go; an expression that
/// never closed renders as nothing.
pub open spec fn finish(rules: Rules, s: Scan) -> Seq<u8> {
    if s.depth == 0 {
        s.out + rules.open.take(s.count_start as int)
    } else {
        s.out
    }
}

/// The line break that ends a directive's argument.
pub const NEWLINE: u8 = 0x0A;

/// The keyword of the conditional directive, with the space after it.
pub open spec fn keyword_if() -> Seq<u8> {
    bytes_of("#IF "@)
}

/// The keyword of the negated conditional directive.
pub open spec fn keyword_ifnot() -> Seq<u8> {
    bytes_of("#IFNOT "@)
}

/// The keyword of the iteration directive.
pub open spec fn keyword_foreach() -> Seq<u8> {
    bytes_of("#FOREACH "@)
}

/// The argument and the body of a directive, given what follows its
/// keyword: the argument is the first line, trimmed, and the body is all
/// that follows the line break. `None` where there is no line break, and
/// where the argument is empty.
pub open spec fn directive_parts(after: Seq<u8>) -> Option<(Seq<u8>, Seq<u8>)> {
    let n = find(after, NEWLINE);
    if n < after.len() && trim(after.take(n as int)).len() > 0 {
        Some((trim(after.take(n as int)), after.skip(n as int + 1)))
    } else {
        None
    }
}

/// Whether `path` leads to a truthy value.
pub open spec fn truthy_at(doc: Document, path: Seq<u8>) -> bool {
    match resolve_in_table(doc, path) {
        Some(n) => n.truthy(),
        None => false,
    }
}

/// The result of rendering a body, which has to be UTF-8.
pub open spec fn as_text(r: Result<Seq<u8>, Failure>) -> Result<Seq<u8>, Failure> {
    match r {
        Ok(out) => if valid_utf8(out) {
            Ok(out)
        } else {
            Err(Failure::Decoding)
        },
        Err(e) => Err(e),
    }
}

/// `first`, then what `r` holds.
pub open spec fn after(first: Seq<u8>, r: Result<Seq<u8>, Failure>) -> Result<Seq<u8>, Failure> {
    match r {
        Ok(more) => Ok(first + more),
        Err(e) => Err(e),
    }
}

/// The state that a scan reaches from `s` over `bytes`, or the failure that
/// stops it.
pub open spec fn run(doc: Document, rules: Rules, s: Scan, bytes: Seq<u8>) -> Result<Scan, Failure>
    decreases s.var.len() + s.count_end + bytes.len(), 1nat, bytes.len(),
    when rules.wf() && s.wf(rules)
{
    if bytes.len() == 0 {
        Ok(s)
    } else {
        match step(rules, s, bytes[0]) {
            Step::Next(t) => run(doc, rules, t, bytes.skip(1)),
            Step::Fire(t, expr) => if valid_utf8(expr) {
                match eval_spec(doc, rules, expr) {
                    Ok(text) => run(doc, rules, t.emit(text), bytes.skip(1)),
                    Err(e) => Err(e),
                }
            } else {
                Err(Failure::Decoding)
            },
            Step::TooDeep => Err(Failure::TooDeep),
        }
    }
}

/// What one byte does to a scan when a closed expression is evaluated at
/// once: the next state, or the failure of the evaluation.
pub open spec fn feed(doc: Document, rules: Rules, s: Scan, b: u8) -> Result<Scan, Failure> {
    match step(rules, s, b) {
        Step::Next(t) => Ok(t),
        Step::Fire(t, expr) => if valid_utf8(expr) {
            match eval_spec(doc, rules, expr) {
                Ok(text) => Ok(t.emit(text)),
                Err(e) => Err(e),
            }
        } else {
            Err(Failure::Decoding)
        },
        Step::TooDeep => Err(Failure::TooDeep),
    }
}

/// A scan over some bytes is the step on the first byte, then the scan over
/// the rest.
pub proof fn lemma_run_first(doc: Document, rules: Rules, s: Scan, bytes: Seq<u8>)
    requires
        rules.wf(),
        s.wf(rules),
        bytes.len() > 0,
    ensures
        run(doc, rules, s, bytes) == match feed(doc, rules, s, bytes[0]) {
            Ok(t) => run(doc, rules, t, bytes.skip(1)),
            Err(e) => Err(e),
        },
{
}

/// A step keeps a state well formed, and lets the captured text grow by one
/// byte at most, the bytes held back counted in.
pub proof fn lemma_feed_wf(doc: Document, rules: Rules, s: Scan, b: u8)
    requires
        rules.wf(),
        s.wf(rules),
    ensures
        feed(doc, rules, s, b) matches Ok(t) ==> t.wf(rules) && t.var.len() + t.count_end
            <= s.var.len() + s.count_end + 1,
{
}

/// What a template renders to.
pub open spec fn render_spec(doc: Document, rules: Rules, input: Seq<u8>) -> Result<
    Seq<u8>,
    Failure,
>
    decreases input.len(), 2nat, 0nat,
{
    if rules.wf() {
        match run(doc, rules, Scan::start(), input) {
            Ok(s) => Ok(finish(rules, s)),
            Err(e) => Err(e),
        }
    } else {
        Err(Failure::InvalidEscape)
    }
}

/// What the body of an iteration renders to over `items`: for each item in
/// turn the body is rendered against a copy of the document in which the
/// path leads to that item, and the results follow one another.
pub open spec fn each(
    doc: Document,
    rules: Rules,
    path: Seq<u8>,
    items: Seq<Node>,
    body: Seq<u8>,
) -> Result<Seq<u8>, Failure>
    decreases body.len(), 3nat, items.len(),
{
    if items.len() == 0 {
        Ok(Seq::empty())
    } else {
        match rewrite_in_table(doc, path, items[0]) {
            Some(copy) => match as_text(render_spec(copy, rules, body)) {
                Ok(first) => after(first, each(doc, rules, path, items.skip(1), body)),
                Err(e) => Err(e),
            },
            None => Err(Failure::Missing(path)),
        }
    }
}

/// What an expression renders to.
///
/// The text is trimmed. `#IF path`, a line break and a body render the body
/// where the path leads to a truthy value, and nothing otherwise. `#IFNOT`
/// does the opposite. `#FOREACH` renders the body once for each item where
/// the path leads to a sequence, once where it leads to any other truthy
/// value, and not at all otherwise. Any other text is a path, and renders as
/// the value it leads to.
pub open spec fn eval_spec(doc: Document, rules: Rules, expr: Seq<u8>) -> Result<Seq<u8>, Failure>
    decreases expr.len(), 4nat, 0nat,
{
    let t = trim(expr);
    if keyword_if().is_prefix_of(t) {
        match directive_parts(t.skip(keyword_if().len() as int)) {
            Some((arg, body)) => {
                proof {
                    lemma_trim(expr);
                }
                if truthy_at(doc, arg) {
                    as_text(render_spec(doc, rules, body))
                } else {
                    Ok(Seq::empty())
                }
            },
            None => Err(Failure::Parse),
        }
    } else if keyword_ifnot().is_prefix_of(t) {
        match directive_parts(t.skip(keyword_ifnot().len() as int)) {
            Some((arg, body)) => {
                proof {
                    lemma_trim(expr);
                }
                if !truthy_at(doc, arg) {
                    as_text(render_spec(doc, rules, body))
                } else {
                    Ok(Seq::empty())
                }
            },
            None => Err(Failure::Parse),
        }
    } else if keyword_foreach().is_prefix_of(t) {
        match directive_parts(t.skip(keyword_foreach().len() as int)) {
            Some((arg, body)) => {
                proof {
                    lemma_trim(expr);
                }
                match resolve_in_table(doc, arg) {
                    Some(Node::List(items)) => each(doc, rules, arg, items, body),
                    Some(n) => if n.truthy() {
                        as_text(render_spec(doc, rules, body))
                    } else {
                        Ok(Seq::empty())
                    },
                    None => Ok(Seq::empty()),
                }
            },
            None => Err(Failure::Parse),
        }
    } else {
        match resolve_in_table(doc, t) {
            Some(n) => Ok(n.text()),
            None => Err(Failure::Missing(t)),
        }
    }
}

/// One call of a reader: the chunk of the template that the call brings,
/// and the room that its caller has for what is rendered.
pub struct Call {
    pub chunk: Seq<u8>,
    pub room: nat,
}

/// The chunks of some calls, one after another: the template as a whole.
pub open spec fn joined(calls: Seq<Call>) -> Seq<u8>
    decreases calls.len(),
{
    if calls.len() == 0 {
        Seq::empty()
    } else {
        calls[0].chunk + joined(calls.skip(1))
    }
}

/// What a run of calls makes of a reader in state `s`: the state that the
/// last call leaves and all that the calls have handed out, or the failure
/// of the first call that fails. Each call scans its chunk and is then
/// handed its share of what has been rendered.
pub open spec fn reads(doc: Document, rules: Rules, s: Scan, calls: Seq<Call>) -> Result<
    (Scan, Seq<u8>),
    Failure,
>
    decreases calls.len(),
{
    if calls.len() == 0 {
        Ok((s, Seq::empty()))
    } else {
        match run(doc, rules, s, calls[0].chunk) {
            Ok(t) => match reads(doc, rules, t.kept(calls[0].room), calls.skip(1)) {
                Ok((last, more)) => Ok((last, t.handed(calls[0].room) + more)),
                Err(e) => Err(e),
            },
            Err(e) => Err(e),
        }
    }
}

/// All that a reader hands out from the start of a template to its end:
/// what the calls hand out, and what is still held when the scan is
/// finished after the last of them.
pub open spec fn session(doc: Document, rules: Rules, calls: Seq<Call>) -> Result<
    Seq<u8>,
    Failure,
> {
    match reads(doc, rules, Scan::start(), calls) {
        Ok((last, out)) => Ok(out + finish(rules, last)),
        Err(e) => Err(e),
    }
}

} // verus!
