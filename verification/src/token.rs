//! Tokens: a kind and the span of source text it was given to.

use crate::input::slice;
use crate::span::Span;
use crate::utf8::{chars_between, is_boundary};
use std::fmt::Debug;
use vstd::prelude::*;
use vstd::string::StringExecFns;

verus! {

/// What a grammar's token kinds have to offer: a way to tell the kind that
/// marks unrecognised input from all the others.
pub trait TokenKind: Debug + PartialEq {
    /// Whether this kind marks unrecognised input.
    fn is_error(&self) -> bool;
}

/// `is_error`, asked about `kind`, may answer `verdict`.
pub open spec fn flags<K: TokenKind>(kind: K, verdict: bool) -> bool {
    call_ensures(K::is_error, (&kind,), verdict)
}

/// `is_error` never gives two different answers about the same kind.
pub open spec fn decisive<K: TokenKind>() -> bool {
    forall|kind: K, a: bool, b: bool| #[trigger] flags(kind, a) && #[trigger] flags(kind, b) ==> a == b
}

/// What `is_error` answers about `kind`.
pub open spec fn erroneous<K: TokenKind>(kind: K) -> bool {
    choose|verdict: bool| flags(kind, verdict)
}

/// Where `is_error` is decisive, each of its answers is the answer.
pub proof fn lemma_verdict<K: TokenKind>(kind: K, verdict: bool)
    requires
        decisive::<K>(),
        flags(kind, verdict),
    ensures
        erroneous(kind) == verdict,
{
    assert(flags(kind, erroneous(kind)));
}

/// A piece of source text, identified by its span, and what it was
/// classified as.
#[derive(Debug, PartialEq)]
pub struct Token<K: TokenKind> {
    pub kind: K,
    pub span: Span,
}

impl<K> Token<K> where K: TokenKind {
    /// The token of kind `kind` at `span`.
    pub fn new(span: Span, kind: K) -> (token: Self)
        ensures
            token.kind == kind,
            token.span == span,
    {
        Self { kind, span }
    }

    /// Pairs the token with the text it was cut from, for printing.
    pub fn display<'k, 's>(&'k self, str: &'s str) -> (shown: DisplayToken<'k, 's, K>)
        ensures
            shown.text() == str@,
            shown.kind() == self.kind,
            shown.span() == self.span,
    {
        DisplayToken { str, kind: &self.kind, span: self.span }
    }
}

/// A token's kind and span next to the source text, ready to be printed.
pub struct DisplayToken<'k, 's, K: TokenKind> {
    str: &'s str,
    kind: &'k K,
    span: Span,
}

impl<'k, 's, K> DisplayToken<'k, 's, K> where K: TokenKind {
    /// The source text.
    pub closed spec fn text(&self) -> Seq<char> {
        self.str@
    }

    /// The token's kind.
    pub closed spec fn kind(&self) -> K {
        *self.kind
    }

    /// The token's span.
    pub closed spec fn span(&self) -> Span {
        self.span
    }

    /// The characters of the source text that the span selects.
    pub open spec fn lexeme(&self) -> Seq<char> {
        chars_between(self.text(), self.span().start as int, self.span().end as int)
    }

    /// The token as a line of text: the kind's debug form, a blank, and the
    /// token's source text between backquotes.
    pub fn to_string(&self) -> (line: String)
        requires
            self.span().is_valid(),
            is_boundary(self.text(), self.span().start as int),
            is_boundary(self.text(), self.span().end as int),
        ensures
            exists|label: Seq<char>| line@ == #[trigger] quoted(label, self.lexeme()),
    {
        let label = debug_form(self.kind);
        let lexeme = slice(self.str, self.span);
        proof {
            vstd::utf8::encode_utf8_decode_utf8(lexeme@);
        }
        let line = quote(label.as_str(), lexeme);
        assert(line@ == quoted(label@, self.lexeme()));
        line
    }
}

/// `label`, a blank, and `lexeme` between backquotes.
pub open spec fn quoted(label: Seq<char>, lexeme: Seq<char>) -> Seq<char> {
    label + seq![' ', '`'] + lexeme + seq!['`']
}

/// Joins a token's label and its source text into one line.
pub fn quote(label: &str, lexeme: &str) -> (line: String)
    ensures
        line@ == quoted(label@, lexeme@),
{
    let mut line = label.to_owned();
    proof {
        reveal_strlit(" `");
        reveal_strlit("`");
        assert(" `"@ == seq![' ', '`']);
        assert("`"@ == seq!['`']);
    }
    line.append(" `");
    line.append(lexeme);
    line.append("`");
    line
}

/// The `{:?}` form of a kind, as its `Debug` implementation writes it.
/// Nothing is claimed about the text: it is whatever that implementation
/// produces.
#[verifier::external_body]
fn debug_form<K: TokenKind>(kind: &K) -> (label: String) {
    format!("{:?}", kind)
}

} // verus!
