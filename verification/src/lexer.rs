//! The lexing driver: it turns a classification function into a sequence of
//! tokens with one token of lookahead, and merges every run of error tokens
//! into a single one.

use crate::input::Input;
use crate::peekable::PeekableIterator;
use crate::span::Span;
use crate::stream::token_stream;
use crate::token::{decisive, erroneous, flags, lemma_verdict, Token, TokenKind};
use crate::utf8::{is_boundary, utf8_len};
use vstd::prelude::*;

verus! {

/// A token sequence with lookahead whose cursor can be read and replaced.
pub trait Lexer<K> where Self: PeekableIterator<Item = Token<K>>, K: TokenKind {
    /// A copy of the cursor.
    fn input(&self) -> Input;

    /// Replaces the cursor.
    fn set_input(&mut self, input: Input);
}

/// The classifier, started on `text` at the byte offset `offset`, may return
/// `answer`.
pub open spec fn classifies<F, K>(
    f: F,
    text: Seq<char>,
    offset: nat,
    answer: Option<(K, Span)>,
) -> bool where K: TokenKind, F: Fn(&mut Input) -> Option<(K, Span)> {
    exists|i: &mut Input|
        i.wf() && i.source() == text && i.offset() == offset && #[trigger] call_ensures(
            f,
            (i,),
            answer,
        )
}

/// The classifier may be started on every well-formed cursor.
pub open spec fn callable<F, K>(f: F) -> bool where
    K: TokenKind,
    F: Fn(&mut Input) -> Option<(K, Span)>,
 {
    forall|i: &mut Input| i.wf() ==> call_requires(f, (i,))
}

/// The classifier's answer depends on the text and the read position alone.
pub open spec fn functional<F, K>(f: F) -> bool where
    K: TokenKind,
    F: Fn(&mut Input) -> Option<(K, Span)>,
 {
    forall|text: Seq<char>, offset: nat, a: Option<(K, Span)>, b: Option<(K, Span)>|
        #[trigger] classifies(f, text, offset, a) && #[trigger] classifies(f, text, offset, b)
            ==> a == b
}

/// Whether `span` is the empty span at the end of a text that is `end` bytes
/// long: the span that stands for "nothing more could be matched".
pub open spec fn at_end(span: Span, end: nat) -> bool {
    span.start == end && span.end == end
}

/// Every span that the classifier reports is either the empty span at the
/// end of the text, or it starts at the read position, holds at least one
/// byte and ends between two characters.
pub open spec fn faithful<F, K>(f: F) -> bool where
    K: TokenKind,
    F: Fn(&mut Input) -> Option<(K, Span)>,
 {
    forall|text: Seq<char>, offset: nat, kind: K, span: Span|
        #[trigger] classifies(f, text, offset, Some((kind, span))) ==> at_end(span, utf8_len(text))
            || (span.start == offset && span.start < span.end && is_boundary(
            text,
            span.end as int,
        ))
}

/// What the driver asks of a classifier, as far as its answers go.
pub open spec fn well_behaved<F, K>(f: F) -> bool where
    K: TokenKind,
    F: Fn(&mut Input) -> Option<(K, Span)>,
 {
    callable(f) && functional(f) && faithful(f)
}

/// The token that an answer of the classifier stands for: none for a
/// refusal, and none for the empty span at the end of the text.
pub open spec fn admitted<K: TokenKind>(answer: Option<(K, Span)>, end: nat) -> Option<Token<K>> {
    match answer {
        Some((kind, span)) => if at_end(span, end) {
            None
        } else {
            Some(Token { kind, span })
        },
        None => None,
    }
}

/// How a call of the classifier has to leave the cursor: the text untouched,
/// the cursor well-formed, the read position not moved back, and at the end
/// of the token that the answer stands for where it stands for one.
pub open spec fn tracks<K: TokenKind>(
    before: Input,
    after: Input,
    answer: Option<(K, Span)>,
) -> bool {
    &&& after.wf()
    &&& after.source() == before.source()
    &&& before.offset() <= after.offset()
    &&& admitted(answer, before.end()) matches Some(token) ==> after.offset() == token.span.end
}

/// What the classifier returns on `text` at `offset`; a refusal where it
/// returns nothing at all.
pub open spec fn answer<F, K>(f: F, text: Seq<char>, offset: nat) -> Option<(K, Span)> where
    K: TokenKind,
    F: Fn(&mut Input) -> Option<(K, Span)>,
 {
    if exists|a: Option<(K, Span)>| classifies(f, text, offset, a) {
        choose|a: Option<(K, Span)>| classifies(f, text, offset, a)
    } else {
        None
    }
}

/// The token that the classifier finds on `text` at `offset`, before any
/// merging.
pub open spec fn raw_token<F, K>(f: F, text: Seq<char>, offset: nat) -> Option<Token<K>> where
    K: TokenKind,
    F: Fn(&mut Input) -> Option<(K, Span)>,
 {
    admitted(answer(f, text, offset), utf8_len(text))
}

/// Where the run of error tokens that starts at `offset` ends: the first
/// offset, reached from `offset` by stepping over error tokens, at which the
/// classifier finds no error token. It is `offset` itself when there is no
/// error token at `offset`.
pub open spec fn run_end<F, K>(f: F, text: Seq<char>, offset: nat) -> nat where
    K: TokenKind,
    F: Fn(&mut Input) -> Option<(K, Span)>,

    decreases utf8_len(text) - offset,
{
    match raw_token(f, text, offset) {
        Some(token) => if erroneous(token.kind) && offset < token.span.end <= utf8_len(text) {
            run_end(f, text, token.span.end as nat)
        } else {
            offset
        },
        None => offset,
    }
}

/// The token that the driver yields on `text` at `offset`: the token that
/// the classifier finds there, stretched to the end of the run of error
/// tokens if it is one.
pub open spec fn next_token<F, K>(f: F, text: Seq<char>, offset: nat) -> Option<Token<K>> where
    K: TokenKind,
    F: Fn(&mut Input) -> Option<(K, Span)>,
 {
    match raw_token(f, text, offset) {
        Some(token) => if erroneous(token.kind) {
            Some(
                Token {
                    kind: token.kind,
                    span: Span {
                        start: token.span.start,
                        end: run_end(f, text, token.span.end as nat) as u32,
                    },
                },
            )
        } else {
            Some(token)
        },
        None => None,
    }
}

/// The classifier and `is_error` have each given an answer wherever
/// `next_token(f, text, offset)` depends on one: the classifier at `offset`
/// and, when it found an error token there, at every offset up to the end of
/// the run, and `is_error` about every token found on the way.
pub open spec fn answered<F, K>(f: F, text: Seq<char>, offset: nat) -> bool where
    K: TokenKind,
    F: Fn(&mut Input) -> Option<(K, Span)>,

    decreases utf8_len(text) - offset,
{
    &&& exists|a: Option<(K, Span)>| classifies(f, text, offset, a)
    &&& raw_token(f, text, offset) matches Some(token) ==> {
        &&& exists|verdict: bool| flags(token.kind, verdict)
        &&& erroneous(token.kind) && offset < token.span.end <= utf8_len(text) ==> answered(
            f,
            text,
            token.span.end as nat,
        )
    }
}

/// Where the answers have been given, `answer` and `erroneous` are among
/// them: what `next_token` is built from is what the classifier and
/// `is_error` did return.
pub proof fn lemma_answered<F, K>(f: F, text: Seq<char>, offset: nat) where
    K: TokenKind,
    F: Fn(&mut Input) -> Option<(K, Span)>,

    requires
        answered(f, text, offset),
    ensures
        classifies(f, text, offset, answer(f, text, offset)),
        raw_token(f, text, offset) matches Some(token) ==> {
            &&& flags(token.kind, erroneous(token.kind))
            &&& erroneous(token.kind) && offset < token.span.end <= utf8_len(text) ==> answered(
                f,
                text,
                token.span.end as nat,
            )
        },
{
}

/// A token found by a faithful classifier starts at the read position, is
/// not empty, and ends between two characters of the text.
pub proof fn lemma_raw_token<F, K>(f: F, text: Seq<char>, offset: nat) where
    K: TokenKind,
    F: Fn(&mut Input) -> Option<(K, Span)>,

    requires
        faithful(f),
    ensures
        raw_token(f, text, offset) matches Some(token) ==> {
            &&& token.span.start == offset
            &&& offset < token.span.end <= utf8_len(text)
            &&& is_boundary(text, token.span.end as int)
        },
{
    if let Some(token) = raw_token(f, text, offset) {
        let a = answer(f, text, offset);
        assert(classifies(f, text, offset, a));
        assert(a == Some((token.kind, token.span)));
        vstd::utf8::encode_utf8_valid_utf8(text);
    }
}

/// The end of a run of error tokens lies at or behind its start, between two
/// characters, and no error token starts there.
pub proof fn lemma_run_end<F, K>(f: F, text: Seq<char>, offset: nat) where
    K: TokenKind,
    F: Fn(&mut Input) -> Option<(K, Span)>,

    requires
        faithful(f),
        is_boundary(text, offset as int),
    ensures
        offset <= run_end(f, text, offset) <= utf8_len(text),
        is_boundary(text, run_end(f, text, offset) as int),
        raw_token(f, text, run_end(f, text, offset)) matches Some(token) ==> !erroneous(
            token.kind,
        ),
        run_end(f, text, run_end(f, text, offset)) == run_end(f, text, offset),
    decreases utf8_len(text) - offset,
{
    vstd::utf8::encode_utf8_valid_utf8(text);
    lemma_raw_token(f, text, offset);
    if let Some(token) = raw_token(f, text, offset) {
        if erroneous(token.kind) {
            lemma_run_end(f, text, token.span.end as nat);
        }
    }
}

/// The lexing driver: a cursor, a classifier, and at most one token of
/// lookahead.
///
/// The driver hands the classifier its cursor and takes back a kind and the
/// span that the classifier consumed, or a refusal, which ends the sequence.
/// `next` and `peek` rely on the classifier in three ways, all stated in
/// their preconditions: it is [`well_behaved`], it leaves the cursor as
/// [`tracks`] describes, and the kinds' `is_error` is [`decisive`].
pub struct Lex<F, K> where K: TokenKind {
    input: Input,
    f: F,
    peeked: Option<Option<Token<K>>>,
}

impl<F, K> Lex<F, K> where K: TokenKind, F: Fn(&mut Input) -> Option<(K, Span)> {
    /// The classification function.
    pub closed spec fn classifier(&self) -> F {
        self.f
    }

    /// The whole source text.
    pub closed spec fn source(&self) -> Seq<char> {
        self.input.source()
    }

    /// The byte offset behind the last token that was yielded.
    pub closed spec fn offset(&self) -> nat {
        self.input.offset()
    }

    /// The cursor is well-formed, and the lookahead, where there is one,
    /// holds the token that comes next.
    pub closed spec fn wf(&self) -> bool {
        &&& self.input.wf()
        &&& self.peeked matches Some(token) ==> {
            &&& token == next_token(self.f, self.input.source(), self.input.offset())
            &&& answered(self.f, self.input.source(), self.input.offset())
        }
    }

    /// The token that comes next.
    pub open spec fn upcoming(&self) -> Option<Token<K>> {
        next_token(self.classifier(), self.source(), self.offset())
    }

    /// The number of bytes behind the read position.
    pub open spec fn unread(&self) -> int {
        utf8_len(self.source()) - self.offset()
    }

    /// A driver at the start of a copy of `input`.
    pub fn new(input: &str, f: F) -> (lex: Self)
        requires
            utf8_len(input@) <= u32::MAX,
        ensures
            lex.wf(),
            lex.classifier() == f,
            lex.source() == input@,
            lex.offset() == 0,
    {
        proof {
            vstd::utf8::encode_utf8_valid_utf8(input@);
            vstd::utf8::is_char_boundary_start_end_of_seq(vstd::utf8::encode_utf8(input@));
        }
        Self { input: Input::from(input), f, peeked: None }
    }

    /// Takes the token out of the lookahead, or asks the classifier for one.
    fn lex(&mut self) -> (token: Option<Token<K>>)
        requires
            old(self).wf(),
            well_behaved(old(self).classifier()),
            forall|i: &mut Input, a: Option<(K, Span)>|
                i.wf() && #[trigger] call_ensures(old(self).classifier(), (i,), a) ==> tracks(
                    *i,
                    *final(i),
                    a,
                ),
        ensures
            final(self).f == old(self).f,
            final(self).input.wf(),
            final(self).input.source() == old(self).input.source(),
            final(self).peeked is None,
            token == match old(self).peeked {
                Some(waiting) => waiting,
                None => raw_token(old(self).f, old(self).source(), old(self).offset()),
            },
            token matches Some(t) ==> final(self).input.offset() == t.span.end,
            old(self).input.offset() <= final(self).input.offset(),
            old(self).peeked is None ==> exists|a: Option<(K, Span)>|
                classifies(old(self).f, old(self).source(), old(self).offset(), a),
    {
        proof {
            assert(old(self).classifier() == self.f);
            lemma_raw_token(self.f, self.input.source(), self.input.offset());
            lemma_next_token(self.f, self.input.source(), self.input.offset());
        }
        let waiting = self.peeked.take();
        if let Some(waiting) = waiting {
            if let Some(t) = waiting.as_ref() {
                self.input.seek(t.span.end);
            }
            return waiting;
        }
        let end = self.input.limit();
        let ghost text = self.input.source();
        let ghost offset = self.input.offset();
        let found = (self.f)(&mut self.input);
        assert(classifies(self.f, text, offset, found));
        match found {
            Some((kind, span)) => {
                if span.start == end && span.end == end {
                    None
                } else {
                    Some(Token::new(span, kind))
                }
            },
            None => None,
        }
    }

    /// Yields the next token, or nothing once the classifier finds no more.
    /// An error token is stretched over every error token that follows it
    /// directly, so that a run of them comes out as one.
    ///
    /// The token is [`Lex::upcoming`], it starts where the token before it
    /// ended, and the read position moves behind it.
    pub fn next(&mut self) -> (token: Option<Token<K>>)
        requires
            old(self).wf(),
            well_behaved(old(self).classifier()),
            decisive::<K>(),
            forall|i: &mut Input, a: Option<(K, Span)>|
                i.wf() && #[trigger] call_ensures(old(self).classifier(), (i,), a) ==> tracks(
                    *i,
                    *final(i),
                    a,
                ),
        ensures
            token == old(self).upcoming(),
            answered(old(self).classifier(), old(self).source(), old(self).offset()),
            final(self).wf(),
            final(self).classifier() == old(self).classifier(),
            final(self).source() == old(self).source(),
            old(self).offset() <= final(self).offset() <= utf8_len(final(self).source()),
            token matches Some(t) ==> {
                &&& t.span.start == old(self).offset()
                &&& t.span.end == final(self).offset()
                &&& old(self).offset() < final(self).offset()
            },
    {
        let ghost f = self.f;
        let ghost text = self.input.source();
        let ghost start = self.input.offset();
        proof {
            assert(old(self).classifier() == f);
            lemma_raw_token(f, text, start);
            lemma_next_token(f, text, start);
        }
        // A token that waits in the lookahead has been merged already.
        let merged = self.peeked.is_some();
        let mut first = match self.lex() {
            Some(token) => token,
            None => {
                return None;
            },
        };
        if merged {
            return Some(first);
        }
        let bad = first.kind.is_error();
        proof {
            lemma_verdict(first.kind, bad);
        }
        if !bad {
            return Some(first);
        }
        proof {
            assert(raw_token(f, text, start) == Some(first));
            assert(flags(first.kind, bad));
            assert(answered(f, text, first.span.end as nat) ==> answered(f, text, start));
            lemma_run_end(f, text, first.span.end as nat);
        }
        loop
            invariant_except_break
                first.span.end == self.input.offset(),
                self.peeked is None,
            invariant
                self.input.wf(),
                self.f == f,
                self.input.source() == text,
                well_behaved(f),
                decisive::<K>(),
                forall|i: &mut Input, a: Option<(K, Span)>|
                    i.wf() && #[trigger] call_ensures(f, (i,), a) ==> tracks(*i, *final(i), a),
                next_token(f, text, start) matches Some(goal) && goal.kind == first.kind
                    && goal.span.start == first.span.start && goal.span.end == run_end(
                    f,
                    text,
                    first.span.end as nat,
                ),
                first.span.start == start,
                start < first.span.end <= utf8_len(text),
                is_boundary(text, first.span.end as int),
                answered(f, text, first.span.end as nat) ==> answered(f, text, start),
            ensures
                self.wf(),
                first.span.end == self.input.offset(),
                run_end(f, text, first.span.end as nat) == first.span.end,
                answered(f, text, start),
            decreases utf8_len(text) - first.span.end,
        {
            let here = self.input.position();
            proof {
                lemma_raw_token(f, text, here as nat);
            }
            let found = self.lex();
            let more = match &found {
                Some(token) => {
                    let bad = token.kind.is_error();
                    proof {
                        lemma_verdict(token.kind, bad);
                    }
                    bad
                },
                None => false,
            };
            match found {
                Some(token) if more => {
                    proof {
                        assert(raw_token(f, text, here as nat) == Some(token));
                        assert(flags(token.kind, more));
                        assert(answered(f, text, token.span.end as nat) ==> answered(
                            f,
                            text,
                            here as nat,
                        ));
                    }
                    first.span = first.span.cover(token.span);
                },
                ahead => {
                    proof {
                        assert(ahead == raw_token(f, text, here as nat));
                        if ahead is Some {
                            assert(flags(ahead.unwrap().kind, more));
                        }
                        assert(ahead == next_token(f, text, here as nat));
                        assert(answered(f, text, here as nat));
                    }
                    self.peeked = Some(ahead);
                    self.input.seek(here);
                    break ;
                },
            }
        }
        Some(first)
    }

    /// Shows the token that the next call of `next` will yield, without
    /// yielding it: the read position stays, and so does the token that
    /// comes next, however often `peek` is called.
    pub fn peek(&mut self) -> (token: Option<&Token<K>>)
        requires
            old(self).wf(),
            well_behaved(old(self).classifier()),
            decisive::<K>(),
            forall|i: &mut Input, a: Option<(K, Span)>|
                i.wf() && #[trigger] call_ensures(old(self).classifier(), (i,), a) ==> tracks(
                    *i,
                    *final(i),
                    a,
                ),
        ensures
            token matches Some(t) ==> old(self).upcoming() == Some(*t),
            token is None ==> old(self).upcoming() is None,
            answered(old(self).classifier(), old(self).source(), old(self).offset()),
            final(self).wf(),
            final(self).classifier() == old(self).classifier(),
            final(self).source() == old(self).source(),
            final(self).offset() == old(self).offset(),
            final(self).upcoming() == old(self).upcoming(),
    {
        if self.peeked.is_none() {
            let i = self.input.position();
            let token = self.next();
            self.peeked = Some(token);
            self.input.seek(i);
        }
        match &self.peeked {
            Some(Some(token)) => Some(token),
            _ => None,
        }
    }

    /// Yields all the tokens that are left, in order.
    pub fn collect(&mut self) -> (tokens: Vec<Token<K>>)
        requires
            old(self).wf(),
            well_behaved(old(self).classifier()),
            decisive::<K>(),
            forall|i: &mut Input, a: Option<(K, Span)>|
                i.wf() && #[trigger] call_ensures(old(self).classifier(), (i,), a) ==> tracks(
                    *i,
                    *final(i),
                    a,
                ),
        ensures
            tokens@ == token_stream(old(self).classifier(), old(self).source(), old(self).offset()),
            final(self).wf(),
            final(self).classifier() == old(self).classifier(),
            final(self).source() == old(self).source(),
            old(self).offset() <= final(self).offset() <= utf8_len(final(self).source()),
    {
        let ghost f = self.classifier();
        let ghost text = self.source();
        let ghost start = self.offset();
        let mut tokens: Vec<Token<K>> = Vec::new();
        loop
            invariant_except_break
                tokens@ + token_stream(f, text, self.offset()) == token_stream(f, text, start),
            invariant
                self.wf(),
                self.classifier() == f,
                self.source() == text,
                well_behaved(f),
                decisive::<K>(),
                forall|i: &mut Input, a: Option<(K, Span)>|
                    i.wf() && #[trigger] call_ensures(f, (i,), a) ==> tracks(*i, *final(i), a),
                start <= self.offset() <= utf8_len(text),
            ensures
                tokens@ == token_stream(f, text, start),
            decreases self.unread(),
        {
            let ghost here = self.offset();
            match self.next() {
                Some(token) => {
                    proof {
                        let rest = token_stream(f, text, self.offset());
                        assert(token_stream(f, text, here) == seq![token] + rest);
                        assert(tokens@.push(token) + rest == tokens@ + (seq![token] + rest));
                    }
                    tokens.push(token);
                },
                None => {
                    proof {
                        assert(tokens@ + Seq::<Token<K>>::empty() == tokens@);
                    }
                    break ;
                },
            }
        }
        tokens
    }

    /// A copy of the cursor.
    pub fn input(&self) -> (input: Input)
        ensures
            input.source() == self.source(),
            input.offset() == self.offset(),
            self.wf() ==> input.wf(),
    {
        self.input.clone()
    }

    /// Replaces the cursor and drops the lookahead, which belonged to the
    /// old one.
    pub fn set_input(&mut self, input: Input)
        requires
            input.wf(),
        ensures
            final(self).wf(),
            final(self).classifier() == old(self).classifier(),
            final(self).source() == input.source(),
            final(self).offset() == input.offset(),
    {
        self.input = input;
        self.peeked = None;
    }
}

/// Lookahead is invisible: whatever two drivers hold in their lookahead, if
/// they agree on classifier, text and offset, the same token comes next.
/// So the driver that `peek` leaves behind shows to a second `peek`, and
/// yields to `next`, the token that the first `peek` showed.
pub proof fn lemma_peek_settles_next<F, K>(before: Lex<F, K>, after: Lex<F, K>) where
    K: TokenKind,
    F: Fn(&mut Input) -> Option<(K, Span)>,

    requires
        after.classifier() == before.classifier(),
        after.source() == before.source(),
        after.offset() == before.offset(),
    ensures
        after.upcoming() == before.upcoming(),
{
}

/// A token yielded on top of a faithful classifier starts at the read
/// position, is not empty, and ends between two characters of the text.
pub proof fn lemma_next_token<F, K>(f: F, text: Seq<char>, offset: nat) where
    K: TokenKind,
    F: Fn(&mut Input) -> Option<(K, Span)>,

    requires
        faithful(f),
    ensures
        next_token(f, text, offset) matches Some(token) ==> {
            &&& token.span.start == offset
            &&& offset < token.span.end <= utf8_len(text)
            &&& is_boundary(text, token.span.end as int)
        },
{
    lemma_raw_token(f, text, offset);
    if let Some(token) = raw_token(f, text, offset) {
        lemma_run_end(f, text, token.span.end as nat);
    }
}

} // verus!
