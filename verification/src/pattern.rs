//! The pair of delimiters that marks an expression in a template.

use crate::error::Error;
use crate::text::{
    append_bytes, bytes_eq, bytes_of, find_bytes, find_seq, lemma_find_seq_is, occurs_at,
    occurs_in, utf8_text,
};
use vstd::pervasive::unreached;
use vstd::prelude::*;
use vstd::slice::*;
use vstd::string::*;
use vstd::utf8::*;

verus! {

/// An opening and a closing delimiter. As text a pattern is written with
/// the marker `var` between the two, as in `{{var}}`.
#[derive(Debug, PartialEq, Eq)]
pub struct EscapePattern(pub Vec<u8>, pub Vec<u8>);

/// The marker that stands between the two delimiters of a written pattern:
/// the text `var`.
pub open spec fn marker() -> Seq<u8> {
    seq![0x76u8, 0x61u8, 0x72u8]
}

/// The two delimiters of a written pattern: what stands before the first
/// marker, and what stands between it and the next marker or the end.
/// `None` where there is no marker.
pub open spec fn written_delimiters(s: Seq<u8>) -> Option<(Seq<u8>, Seq<u8>)> {
    let i = find_seq(s, marker());
    if i < s.len() {
        let after = s.skip(i as int + 3);
        Some((s.take(i as int), after.take(find_seq(after, marker()) as int)))
    } else {
        None
    }
}

impl EscapePattern {
    /// Both delimiters hold at least one byte, and they differ.
    pub open spec fn wf(&self) -> bool {
        self.0@.len() > 0 && self.1@.len() > 0 && self.0@ != self.1@
    }

    /// Tells whether the pattern can drive a reader.
    pub fn is_well_formed(&self) -> (r: bool)
        ensures
            r == self.wf(),
    {
        self.0.len() > 0 && self.1.len() > 0 && !bytes_eq(self.0.as_slice(), self.1.as_slice())
    }

    /// Reads a written pattern such as `{{var}}` or `<%var%>`.
    ///
    /// Fails where the text holds no marker, where nothing stands before
    /// the marker or nothing after it, and where the two delimiters come out
    /// equal. A pattern that is returned is well formed.
    pub fn parse(s: &str) -> (r: Result<EscapePattern, Error>)
        ensures
            match r {
                Ok(p) => written_delimiters(bytes_of(s@)) == Some((p.0@, p.1@)) && p.wf(),
                Err(e) => e == Error::InvalidEscapeSequence && (written_delimiters(bytes_of(s@))
                    matches Some(d) ==> d.0.len() == 0 || d.1.len() == 0 || d.0 == d.1),
            },
    {
        let b = s.as_bytes();
        let mark: [u8; 3] = [0x76, 0x61, 0x72];
        let i = find_bytes(b, mark.as_slice());
        if i >= b.len() {
            return Err(Error::InvalidEscapeSequence);
        }
        let after = slice_subrange(b, i + 3, b.len());
        let j = find_bytes(after, mark.as_slice());
        let prefix = slice_to_vec(slice_subrange(b, 0, i));
        let suffix = slice_to_vec(slice_subrange(after, 0, j));
        let pattern = EscapePattern(prefix, suffix);
        if pattern.is_well_formed() {
            Ok(pattern)
        } else {
            Err(Error::InvalidEscapeSequence)
        }
    }

    /// Writes the pattern as text: the opening delimiter, the marker, the
    /// closing delimiter. Both delimiters have to be UTF-8.
    pub fn to_string(&self) -> (r: String)
        requires
            valid_utf8(self.0@),
            valid_utf8(self.1@),
        ensures
            bytes_of(r@) == self.0@ + marker() + self.1@,
    {
        let mut out: Vec<u8> = Vec::new();
        let mark: [u8; 3] = [0x76, 0x61, 0x72];
        append_bytes(&mut out, self.0.as_slice());
        append_bytes(&mut out, mark.as_slice());
        append_bytes(&mut out, self.1.as_slice());
        proof {
            lemma_marker_is_text();
            valid_utf8_concat(self.0@, marker());
            valid_utf8_concat(self.0@ + marker(), self.1@);
        }
        match utf8_text(out.as_slice()) {
            Some(t) => t.to_owned(),
            None => unreached(),
        }
    }
}

/// The marker is well-formed UTF-8: three ASCII letters.
pub proof fn lemma_marker_is_text()
    ensures
        valid_utf8(marker()),
{
    let m = marker();
    partial_valid_utf8_extend_ascii_block(m, 0, 3);
    assert(m.subrange(0, 3) =~= m);
}

/// Two delimiters written as a pattern are read back as they were, where
/// the marker between them is the first in the text and the closing
/// delimiter holds none.
pub proof fn lemma_written_delimiters(open: Seq<u8>, close: Seq<u8>)
    requires
        forall|j: int| 0 <= j < open.len() ==> !occurs_at(open + marker() + close, marker(), j),
        !occurs_in(close, marker()),
    ensures
        written_delimiters(open + marker() + close) == Some((open, close)),
{
    let text = open + marker() + close;
    let at = open.len() as int;
    assert(text.subrange(at, at + 3) == marker());
    lemma_find_seq_is(text, marker(), at);
    assert(text.skip(at + 3) == close);
    assert forall|j: int| 0 <= j < close.len() implies !occurs_at(close, marker(), j) by {}
    lemma_find_seq_is(close, marker(), close.len() as int);
}

impl Clone for EscapePattern {
    fn clone(&self) -> (r: Self)
        ensures
            r.0@ == self.0@,
            r.1@ == self.1@,
    {
        EscapePattern(slice_to_vec(self.0.as_slice()), slice_to_vec(self.1.as_slice()))
    }
}

impl Default for EscapePattern {
    /// The pattern `{{` and `}}`.
    fn default() -> (r: Self)
        ensures
            r.0@ == seq![0x7Bu8, 0x7Bu8],
            r.1@ == seq![0x7Du8, 0x7Du8],
            r.wf(),
    {
        let mut open: Vec<u8> = Vec::new();
        open.push(0x7B);
        open.push(0x7B);
        let mut close: Vec<u8> = Vec::new();
        close.push(0x7D);
        close.push(0x7D);
        let r = EscapePattern(open, close);
        r
    }
}

impl std::str::FromStr for EscapePattern {
    type Err = Error;

    /// The same as [`EscapePattern::parse`].
    fn from_str(s: &str) -> (r: Result<Self, Error>)
        ensures
            match r {
                Ok(p) => written_delimiters(bytes_of(s@)) == Some((p.0@, p.1@)) && p.wf(),
                Err(e) => e == Error::InvalidEscapeSequence && (written_delimiters(bytes_of(s@))
                    matches Some(d) ==> d.0.len() == 0 || d.1.len() == 0 || d.0 == d.1),
            },
    {
        EscapePattern::parse(s)
    }
}

} // verus!
