//! The cursor: a source text together with a read position.

use crate::span::Span;
use crate::utf8::{
    chars_between, chars_from, is_boundary, lemma_boundary_splits, lemma_len_at_least_chars,
    lemma_prefix_step, lemma_suffix, utf8_len, width_of,
};
use text_size::{TextRange, TextSize};
use vstd::prelude::*;
use vstd::std_specs::convert::FromSpecImpl;
use vstd::string::StringSliceAdditionalSpecFns;
use vstd::utf8::{encode_utf8, is_char_boundary};

verus! {

/// A source text and the byte offset up to which it has been consumed.
#[derive(Debug)]
pub struct Input {
    pub(crate) str: String,
    pub(crate) cursor: u32,
}

impl Input {
    /// The whole source text.
    pub closed spec fn source(&self) -> Seq<char> {
        self.str@
    }

    /// The read position, as a byte offset into the encoded source text.
    pub closed spec fn offset(&self) -> nat {
        self.cursor as nat
    }

    /// The byte offset of the end of the source text.
    pub open spec fn end(&self) -> nat {
        utf8_len(self.source())
    }

    /// The text is short enough for 32-bit offsets and the read position
    /// lies inside it, between two characters.
    pub open spec fn wf(&self) -> bool {
        &&& self.offset() <= self.end() <= u32::MAX
        &&& is_boundary(self.source(), self.offset() as int)
    }

    /// The characters that have not been consumed yet: the source text
    /// without the characters before the read position.
    pub open spec fn remaining(&self) -> Seq<char> {
        chars_from(self.source(), self.offset() as int)
    }

    /// The span that consuming `len` characters yields: the bytes of the next
    /// `len` characters, or the empty span at the end of the text when fewer
    /// than `len` characters remain.
    pub open spec fn chomped(&self, len: nat) -> Span {
        if len <= self.remaining().len() {
            Span {
                start: self.offset() as u32,
                end: (self.offset() + utf8_len(self.remaining().take(len as int))) as u32,
            }
        } else {
            Span { start: self.end() as u32, end: self.end() as u32 }
        }
    }

    /// Consumes the next `len` characters and returns the bytes they occupy.
    /// When fewer than `len` characters remain, everything is consumed and
    /// the empty span at the end of the text is returned.
    pub fn chomp(&mut self, len: usize) -> (range: Span)
        requires
            old(self).wf(),
        ensures
            range == old(self).chomped(len as nat),
            range.is_valid(),
            range.end <= old(self).end(),
            len <= old(self).remaining().len() ==> range.end - range.start >= len,
            final(self).wf(),
            final(self).source() == old(self).source(),
            final(self).offset() == range.end,
            old(self).offset() <= final(self).offset(),
            final(self).remaining() == if len <= old(self).remaining().len() {
                old(self).remaining().skip(len as int)
            } else {
                Seq::<char>::empty()
            },
    {
        let end = self.limit();
        let bytes = self.str.as_str().as_bytes();
        let ghost text = self.source();
        let ghost rest = self.remaining();
        let mut at: u32 = self.cursor;
        let mut taken: usize = 0;
        proof {
            lemma_suffix(text, at as int);
            assert(rest.take(0) == Seq::<char>::empty());
            assert(rest.skip(0) == rest);
        }
        while taken < len && at < end
            invariant
                text == self.source(),
                bytes@ == encode_utf8(text),
                end == utf8_len(text),
                rest == chars_from(text, self.cursor as int),
                self.cursor <= at <= end,
                is_boundary(text, at as int),
                taken <= len,
                taken <= rest.len(),
                at == self.cursor + utf8_len(rest.take(taken as int)),
                chars_from(text, at as int) == rest.skip(taken as int),
            decreases end - at,
        {
            proof {
                lemma_suffix(text, at as int);
                let next = rest.skip(taken as int);
                assert(next[0] == rest[taken as int]);
                lemma_prefix_step(rest, taken as int);
                assert(next.drop_first() == rest.skip(taken + 1));
            }
            let width = char_width(bytes[at as usize]);
            at = at + width;
            taken = taken + 1;
        }
        proof {
            vstd::utf8::encode_utf8_valid_utf8(text);
            vstd::utf8::is_char_boundary_start_end_of_seq(encode_utf8(text));
            lemma_suffix(text, at as int);
            lemma_suffix(text, end as int);
            lemma_len_at_least_chars(rest.take(taken as int));
        }
        let range = if taken == len {
            Span::new(self.cursor, at)
        } else {
            Span::new(end, end)
        };
        self.cursor = range.end;
        range
    }

    /// Whether the cursor is well-formed, for callers that have to find out
    /// at run time.
    pub fn is_well_formed(&self) -> (ok: bool)
        ensures
            ok == self.wf(),
    {
        let text = self.str.as_str();
        let len = text.as_bytes().len();
        let at = self.cursor as usize;
        len <= u32::MAX as usize && at <= len && text.is_char_boundary(at)
    }

    /// The read position.
    pub(crate) fn position(&self) -> (offset: u32)
        ensures
            offset == self.offset(),
    {
        self.cursor
    }

    /// The byte offset of the end of the text.
    pub(crate) fn limit(&self) -> (end: u32)
        requires
            self.wf(),
        ensures
            end == self.end(),
    {
        text_len(self.str.as_str())
    }

    /// Moves the read position to `offset`.
    pub(crate) fn seek(&mut self, offset: u32)
        requires
            old(self).end() <= u32::MAX,
            is_boundary(old(self).source(), offset as int),
        ensures
            final(self).wf(),
            final(self).source() == old(self).source(),
            final(self).offset() == offset,
    {
        proof {
            lemma_suffix(self.source(), offset as int);
        }
        self.cursor = offset;
    }

    /// The text that has not been consumed yet.
    pub fn as_ref(&self) -> (rest: &str)
        requires
            self.wf(),
        ensures
            rest@ == self.remaining(),
            chars_between(self.source(), 0, self.offset() as int) + rest@ == self.source(),
    {
        let end = self.limit();
        proof {
            lemma_boundary_splits(self.source(), self.cursor as int);
            lemma_suffix(self.source(), self.cursor as int);
            vstd::utf8::encode_utf8_valid_utf8(self.source());
            vstd::utf8::is_char_boundary_start_end_of_seq(encode_utf8(self.source()));
        }
        let rest = slice(self.str.as_str(), Span::new(self.cursor, end));
        proof {
            vstd::utf8::encode_utf8_decode_utf8(rest@);
        }
        rest
    }
}

impl Clone for Input {
    fn clone(&self) -> (copy: Self)
        ensures
            copy == *self,
    {
        Input { str: self.str.clone(), cursor: self.cursor }
    }
}

impl From<&str> for Input {
    /// A cursor at the start of a copy of `input`.
    fn from(input: &str) -> (cursor: Self)
        ensures
            cursor.source() == input@,
            cursor.offset() == 0,
    {
        Input { str: input.to_owned(), cursor: 0 }
    }
}

/// The conversion is described by the postcondition of `from`, not by a spec
/// function: there is no way to write down the string that a cursor owns.
impl FromSpecImpl<&str> for Input {
    open spec fn obeys_from_spec() -> bool {
        false
    }

    open spec fn from_spec(input: &str) -> Self {
        arbitrary()
    }
}

/// The number of bytes of the character whose encoding starts with `lead`.
fn char_width(lead: u8) -> (width: u32)
    ensures
        width == width_of(lead),
{
    if lead <= 0x7f {
        1
    } else if 0xc0 <= lead && lead <= 0xdf {
        2
    } else if 0xe0 <= lead && lead <= 0xef {
        3
    } else {
        4
    }
}

/// `text_size::TextSize::of` on a string slice: the length of the text in
/// bytes, as a 32-bit offset. It panics on a text of more than `u32::MAX`
/// bytes, which the precondition rules out.
#[verifier::external_body]
fn text_len(text: &str) -> (len: u32)
    requires
        text.spec_bytes().len() <= u32::MAX,
    ensures
        len == text.spec_bytes().len(),
{
    u32::from(TextSize::of(text))
}

/// Indexing a string slice by a `text_size::TextRange`: the part of `text`
/// between the byte offsets `span.start` and `span.end`. It panics unless
/// both offsets are character boundaries of `text` with the start not behind
/// the end, which the precondition demands.
#[verifier::external_body]
pub(crate) fn slice<'a>(text: &'a str, span: Span) -> (part: &'a str)
    requires
        span.start <= span.end,
        is_char_boundary(text.spec_bytes(), span.start as int),
        is_char_boundary(text.spec_bytes(), span.end as int),
    ensures
        part.spec_bytes() == text.spec_bytes().subrange(span.start as int, span.end as int),
{
    &text[TextRange::new(TextSize::from(span.start), TextSize::from(span.end))]
}

} // verus!
