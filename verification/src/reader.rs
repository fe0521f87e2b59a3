//! The streaming reader: a scan that is fed its template chunk by chunk and
//! hands out what it has rendered on demand.

use crate::error::Error;
use crate::eval::eval_bounded;
use crate::model::{
    feed, finish, lemma_feed_wf, lemma_run_first, render_spec, run, Document, Rules, Scan,
};
use crate::pattern::EscapePattern;
use crate::text::{append_bytes, utf8_text};
use crate::value::Mapping;
use std::collections::VecDeque;
use vstd::prelude::*;
use vstd::slice::*;
use vstd::string::*;

verus! {

/// The nesting of expressions that a reader accepts unless told otherwise.
pub const DEFAULT_MAX_DEPTH: usize = 128;

/// The rules that a pattern, an unescape byte and a depth stand for.
pub open spec fn rules_of(escape: &EscapePattern, unescape: u8, max_depth: usize) -> Rules {
    Rules { open: escape.0@, close: escape.1@, unescape, max_depth: max_depth as nat }
}

/// A scan in progress over a document.
pub struct TemplatingReader<'a, 'b> {
    mapping: &'a Mapping,
    escape: &'b EscapePattern,
    unescape: u8,
    max_depth: usize,
    unescapable: bool,
    count_start: usize,
    count_end: usize,
    depth: usize,
    var: Vec<u8>,
    buf: VecDeque<u8>,
}

impl<'a, 'b> View for TemplatingReader<'a, 'b> {
    type V = Scan;

    /// The state of the scan. What has been rendered and not yet handed out
    /// is its `out`.
    closed spec fn view(&self) -> Scan {
        Scan {
            count_start: self.count_start as nat,
            count_end: self.count_end as nat,
            depth: self.depth as nat,
            unescapable: self.unescapable,
            var: self.var@,
            out: self.buf@,
        }
    }
}

/// Appends the bytes of `s` to `q`.
fn push_all(q: &mut VecDeque<u8>, s: &[u8])
    ensures
        final(q)@ == old(q)@ + s@,
{
    let mut i: usize = 0;
    while i < s.len()
        invariant
            i <= s.len(),
            q@ == old(q)@ + s@.take(i as int),
        decreases s.len() - i,
    {
        q.push_back(s[i]);
        i += 1;
    }
}

impl<'a, 'b> TemplatingReader<'a, 'b> {
    /// The rules that the reader scans by.
    pub closed spec fn rules(&self) -> Rules {
        rules_of(self.escape, self.unescape, self.max_depth)
    }

    /// The document that the reader renders against.
    pub closed spec fn document(&self) -> Document {
        self.mapping.model()
    }

    /// The reader's rules and state are well formed.
    pub open spec fn wf(&self) -> bool {
        self.rules().wf() && self@.wf(self.rules())
    }

    /// A reader at the start of a template, which accepts expressions
    /// nested up to `DEFAULT_MAX_DEPTH` deep.
    pub fn new(mapping: &'a Mapping, escape: &'b EscapePattern, unescape: u8) -> (r: Self)
        requires
            escape.wf(),
        ensures
            r.wf(),
            r@ == Scan::start(),
            r.document() == mapping.model(),
            r.rules() == rules_of(escape, unescape, DEFAULT_MAX_DEPTH),
    {
        TemplatingReader::bounded(mapping, escape, unescape, DEFAULT_MAX_DEPTH)
    }

    /// A reader at the start of a template, which accepts expressions
    /// nested up to `max_depth` deep.
    pub fn bounded(
        mapping: &'a Mapping,
        escape: &'b EscapePattern,
        unescape: u8,
        max_depth: usize,
    ) -> (r: Self)
        requires
            escape.wf(),
        ensures
            r.wf(),
            r@ == Scan::start(),
            r.document() == mapping.model(),
            r.rules() == rules_of(escape, unescape, max_depth),
    {
        TemplatingReader {
            mapping,
            escape,
            unescape,
            max_depth,
            unescapable: false,
            count_start: 0,
            count_end: 0,
            depth: 0,
            var: Vec::new(),
            buf: VecDeque::new(),
        }
    }

    /// Takes one byte of the template.
    fn advance(&mut self, b: u8) -> (r: Result<(), Error>)
        requires
            old(self).wf(),
        ensures
            final(self).wf(),
            final(self).rules() == old(self).rules(),
            final(self).document() == old(self).document(),
            match feed(old(self).document(), old(self).rules(), old(self)@, b) {
                Ok(t) => r is Ok && final(self)@ == t,
                Err(f) => r matches Err(e) && e.model() == f && final(self)@ == old(self)@,
            },
        decreases old(self)@.var.len() + old(self)@.count_end + 1, 0nat, 0nat,
    {
        proof {
            lemma_feed_wf(self.document(), self.rules(), self@, b);
        }
        let ghost rules = self.rules();
        let ghost s = self@;
        let open = self.escape.0.as_slice();
        let close = self.escape.1.as_slice();
        if self.unescapable && b == self.unescape {
            self.unescapable = false;
            self.count_start = 0;
            if self.depth <= 1 {
                self.depth = 0;
                self.count_end = 0;
                self.var.clear();
                push_all(&mut self.buf, open);
            } else {
                self.depth -= 1;
                append_bytes(&mut self.var, slice_subrange(close, 0, self.count_end));
                self.var.push(b);
                self.count_end = 0;
                assert(self.var@ =~= s.var + rules.close.take(s.count_end as int) + seq![b]);
            }
            Ok(())
        } else if self.depth == 0 {
            if b != open[self.count_start] {
                push_all(&mut self.buf, slice_subrange(open, 0, self.count_start));
                self.buf.push_back(b);
                self.count_start = 0;
                self.unescapable = false;
                assert(self.buf@ =~= s.out + rules.open.take(s.count_start as int) + seq![b]);
                Ok(())
            } else if self.count_start + 1 < open.len() {
                self.count_start += 1;
                self.unescapable = false;
                Ok(())
            } else if self.max_depth == 0 {
                Err(Error::NestingTooDeep)
            } else {
                self.count_start = 0;
                self.depth = 1;
                self.unescapable = true;
                Ok(())
            }
        } else {
            let opens = b == open[self.count_start] && self.count_start + 1 >= open.len();
            if opens && self.depth >= self.max_depth {
                return Err(Error::NestingTooDeep);
            }
            let count_start: usize = if b == open[self.count_start] && !opens {
                self.count_start + 1
            } else {
                0
            };
            let depth: usize = if opens {
                self.depth + 1
            } else {
                self.depth
            };
            if b != close[self.count_end] {
                append_bytes(&mut self.var, slice_subrange(close, 0, self.count_end));
                self.var.push(b);
                self.count_end = 0;
                self.count_start = count_start;
                self.depth = depth;
                self.unescapable = opens;
                assert(self.var@ =~= s.var + rules.close.take(s.count_end as int) + seq![b]);
                Ok(())
            } else if self.count_end + 1 < close.len() {
                self.count_end += 1;
                self.count_start = count_start;
                self.depth = depth;
                self.unescapable = opens;
                Ok(())
            } else if depth <= 1 {
                let text = match utf8_text(self.var.as_slice()) {
                    Some(t) => t,
                    None => {
                        return Err(Error::UTF8);
                    },
                };
                let rendered = match eval_bounded(
                    self.mapping,
                    text,
                    self.escape,
                    self.unescape,
                    self.max_depth,
                ) {
                    Ok(s) => s,
                    Err(e) => {
                        return Err(e);
                    },
                };
                push_all(&mut self.buf, rendered.as_str().as_bytes());
                self.var.clear();
                self.count_start = 0;
                self.count_end = 0;
                self.depth = 0;
                self.unescapable = false;
                Ok(())
            } else {
                append_bytes(&mut self.var, close);
                self.count_end = 0;
                self.count_start = count_start;
                self.depth = depth - 1;
                self.unescapable = opens;
                Ok(())
            }
        }
    }

    /// Scans a chunk of the template. What it renders is kept until it is
    /// drained.
    pub fn process(&mut self, chunk: &[u8]) -> (r: Result<(), Error>)
        requires
            old(self).wf(),
        ensures
            final(self).wf(),
            final(self).rules() == old(self).rules(),
            final(self).document() == old(self).document(),
            match run(old(self).document(), old(self).rules(), old(self)@, chunk@) {
                Ok(s) => r is Ok && final(self)@ == s,
                Err(f) => r matches Err(e) && e.model() == f,
            },
        decreases old(self)@.var.len() + old(self)@.count_end + chunk@.len(), 1nat, chunk@.len(),
    {
        let ghost doc = self.document();
        let ghost rules = self.rules();
        let ghost goal = run(doc, rules, self@, chunk@);
        let mut i: usize = 0;
        assert(chunk@.skip(0) == chunk@);
        while i < chunk.len()
            invariant
                i <= chunk.len(),
                self.wf(),
                self.rules() == rules,
                self.document() == doc,
                rules == old(self).rules(),
                doc == old(self).document(),
                goal == run(doc, rules, old(self)@, chunk@),
                goal == run(doc, rules, self@, chunk@.skip(i as int)),
                self.var@.len() + self.count_end + (chunk@.len() - i) <= old(self).var@.len() + old(
                    self,
                ).count_end + chunk@.len(),
            decreases chunk.len() - i,
        {
            proof {
                lemma_run_first(doc, rules, self@, chunk@.skip(i as int));
                lemma_feed_wf(doc, rules, self@, chunk@[i as int]);
                assert(chunk@.skip(i as int).skip(1) == chunk@.skip(i + 1));
            }
            match self.advance(chunk[i]) {
                Ok(()) => {},
                Err(e) => {
                    return Err(e);
                },
            }
            i += 1;
        }
        Ok(())
    }

    /// Ends the scan: outside an expression, the bytes of a partial opening
    /// delimiter that were held back are rendered as they stand.
    pub fn finish(&mut self)
        requires
            old(self).wf(),
        ensures
            final(self).wf(),
            final(self).rules() == old(self).rules(),
            final(self).document() == old(self).document(),
            final(self)@.out == finish(old(self).rules(), old(self)@),
            final(self)@ == (Scan {
                out: final(self)@.out,
                count_start: if old(self)@.depth == 0 {
                    0
                } else {
                    old(self)@.count_start
                },
                ..old(self)@
            }),
    {
        if self.depth == 0 {
            let open = self.escape.0.as_slice();
            push_all(&mut self.buf, slice_subrange(open, 0, self.count_start));
            self.count_start = 0;
        }
    }

    /// How many bytes have been rendered and wait to be handed out.
    pub fn pending(&self) -> (n: usize)
        ensures
            n == self@.out.len(),
    {
        self.buf.len()
    }

    /// Hands out up to `max` bytes of what has been rendered, oldest first.
    /// The rest stays for the next call.
    pub fn drain(&mut self, max: usize) -> (r: Vec<u8>)
        requires
            old(self).wf(),
        ensures
            final(self).wf(),
            final(self).rules() == old(self).rules(),
            final(self).document() == old(self).document(),
            r@ == old(self)@.handed(max as nat),
            final(self)@ == old(self)@.kept(max as nat),
    {
        let mut out: Vec<u8> = Vec::new();
        assert(self.buf@.skip(0) == self.buf@);
        while out.len() < max && self.buf.len() > 0
            invariant
                self.wf(),
                self.rules() == old(self).rules(),
                self.document() == old(self).document(),
                out@.len() <= max,
                out@.len() <= old(self)@.out.len(),
                out@ == old(self)@.out.take(out@.len() as int),
                self@ == (Scan { out: old(self)@.out.skip(out@.len() as int), ..old(self)@ }),
            decreases self.buf@.len(),
        {
            if let Some(x) = self.buf.pop_front() {
                out.push(x);
                assert(self.buf@ =~= old(self)@.out.skip(out@.len() as int));
            }
        }
        out
    }

    /// Scans the first `in_bytes` bytes of `buf`, then fills `buf` from its
    /// start with what has been rendered, oldest first, as far as `buf` has
    /// room, and returns how many bytes it wrote. The rest of `buf` is left
    /// as it was, and the rest of what has been rendered stays for the next
    /// call. May well write nothing while more is to come.
    pub fn read(&mut self, buf: &mut [u8], in_bytes: usize) -> (r: Result<usize, Error>)
        requires
            old(self).wf(),
            in_bytes <= old(buf)@.len(),
        ensures
            final(self).wf(),
            final(self).rules() == old(self).rules(),
            final(self).document() == old(self).document(),
            final(buf)@.len() == old(buf)@.len(),
            match run(
                old(self).document(),
                old(self).rules(),
                old(self)@,
                old(buf)@.take(in_bytes as int),
            ) {
                Ok(s) => {
                    &&& r matches Ok(n)
                    &&& n == s.share(old(buf)@.len())
                    &&& final(buf)@ == s.handed(old(buf)@.len()) + old(buf)@.skip(n as int)
                    &&& final(self)@ == s.kept(old(buf)@.len())
                },
                Err(f) => r matches Err(e) && e.model() == f && final(buf)@ == old(buf)@,
            },
    {
        let chunk = slice_subrange(buf, 0, in_bytes);
        match self.process(chunk) {
            Ok(()) => {},
            Err(e) => {
                return Err(e);
            },
        }
        let out = self.drain(buf.len());
        let mut i: usize = 0;
        while i < out.len()
            invariant
                i <= out.len(),
                out@.len() <= buf@.len(),
                buf@.len() == old(buf)@.len(),
                buf@ == out@.take(i as int) + old(buf)@.skip(i as int),
            decreases out.len() - i,
        {
            buf[i] = out[i];
            i += 1;
        }
        Ok(i)
    }
}

/// Renders a whole template against a document, with the nesting of
/// expressions limited to `max_depth`.
pub fn render_bounded(
    mapping: &Mapping,
    escape: &EscapePattern,
    unescape: u8,
    max_depth: usize,
    input: &[u8],
) -> (r: Result<Vec<u8>, Error>)
    ensures
        match render_spec(mapping.model(), rules_of(escape, unescape, max_depth), input@) {
            Ok(out) => r matches Ok(bytes) && bytes@ == out,
            Err(f) => r matches Err(e) && e.model() == f,
        },
    decreases input@.len(), 2nat, 0nat,
{
    if !escape.is_well_formed() {
        return Err(Error::InvalidEscapeSequence);
    }
    let mut reader = TemplatingReader::bounded(mapping, escape, unescape, max_depth);
    match reader.process(input) {
        Ok(()) => {},
        Err(e) => {
            return Err(e);
        },
    }
    reader.finish();
    let n = reader.pending();
    let out = reader.drain(n);
    Ok(out)
}

/// Renders a whole template against a document.
pub fn render(mapping: &Mapping, escape: &EscapePattern, unescape: u8, input: &[u8]) -> (r: Result<
    Vec<u8>,
    Error,
>)
    ensures
        match render_spec(mapping.model(), rules_of(escape, unescape, DEFAULT_MAX_DEPTH), input@) {
            Ok(out) => r matches Ok(bytes) && bytes@ == out,
            Err(f) => r matches Err(e) && e.model() == f,
        },
{
    render_bounded(mapping, escape, unescape, DEFAULT_MAX_DEPTH, input)
}

} // verus!
