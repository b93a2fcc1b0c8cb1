//! The whole sequence of tokens that a driver yields, and what holds of it.

use crate::input::Input;
use crate::lexer::{faithful, lemma_next_token, lemma_raw_token, lemma_run_end, next_token,
    raw_token, run_end};
use crate::span::Span;
use crate::token::{erroneous, Token, TokenKind};
use crate::utf8::{is_boundary, utf8_len};
use vstd::prelude::*;
use vstd::utf8::encode_utf8;

verus! {

/// The tokens that a driver yields on `text` from `offset` on, in the order
/// in which successive calls of `next` return them; `collect` returns them
/// all at once.
pub open spec fn token_stream<F, K>(f: F, text: Seq<char>, offset: nat) -> Seq<Token<K>> where
    K: TokenKind,
    F: Fn(&mut Input) -> Option<(K, Span)>,

    decreases utf8_len(text) - offset,
{
    match next_token(f, text, offset) {
        Some(token) => if offset < token.span.end <= utf8_len(text) {
            seq![token] + token_stream(f, text, token.span.end as nat)
        } else {
            seq![token]
        },
        None => Seq::empty(),
    }
}

/// The offset behind the last token of the sequence that starts at `offset`;
/// `offset` itself where that sequence is empty.
pub open spec fn stream_end<F, K>(f: F, text: Seq<char>, offset: nat) -> nat where
    K: TokenKind,
    F: Fn(&mut Input) -> Option<(K, Span)>,
 {
    let tokens = token_stream(f, text, offset);
    if tokens.len() == 0 {
        offset
    } else {
        tokens.last().span.end as nat
    }
}

/// The bytes of `text` that the spans of `tokens` select, one span after the
/// other.
pub open spec fn covered<K: TokenKind>(text: Seq<char>, tokens: Seq<Token<K>>) -> Seq<u8>
    decreases tokens.len(),
{
    if tokens.len() == 0 {
        Seq::empty()
    } else {
        encode_utf8(text).subrange(tokens[0].span.start as int, tokens[0].span.end as int)
            + covered(text, tokens.drop_first())
    }
}

/// From `from` up to `to`, the classifier finds one error token after the
/// other, each starting where the one before it ends.
pub open spec fn error_run<F, K>(f: F, text: Seq<char>, from: nat, to: nat) -> bool where
    K: TokenKind,
    F: Fn(&mut Input) -> Option<(K, Span)>,

    decreases to - from,
{
    from == to || (raw_token(f, text, from) matches Some(token) && erroneous(token.kind) && from
        < token.span.end <= to && error_run(f, text, token.span.end as nat, to))
}

/// The sequence is finite, and it is no longer than the text behind its
/// start has bytes: every token consumes at least one of them.
pub proof fn lemma_stream_is_bounded<F, K>(f: F, text: Seq<char>, offset: nat) where
    K: TokenKind,
    F: Fn(&mut Input) -> Option<(K, Span)>,

    requires
        faithful(f),
        offset <= utf8_len(text),
    ensures
        token_stream(f, text, offset).len() <= utf8_len(text) - offset,
    decreases utf8_len(text) - offset,
{
    lemma_next_token(f, text, offset);
    if let Some(token) = next_token(f, text, offset) {
        lemma_stream_is_bounded(f, text, token.span.end as nat);
    }
}

/// The tokens lie end to end: the first starts at `offset`, each of the
/// others starts where the one before it ends, none is empty, and each ends
/// inside the text between two characters.
pub proof fn lemma_stream_tiles<F, K>(f: F, text: Seq<char>, offset: nat, i: int) where
    K: TokenKind,
    F: Fn(&mut Input) -> Option<(K, Span)>,

    requires
        faithful(f),
        0 <= i < token_stream(f, text, offset).len(),
    ensures
        ({
            let tokens = token_stream(f, text, offset);
            &&& tokens[i].span.start == if i == 0 {
                offset
            } else {
                tokens[i - 1].span.end as nat
            }
            &&& tokens[i].span.start < tokens[i].span.end <= utf8_len(text)
            &&& is_boundary(text, tokens[i].span.end as int)
        }),
    decreases i,
{
    lemma_next_token(f, text, offset);
    let first = next_token(f, text, offset)->0;
    if i > 0 {
        let rest = token_stream(f, text, first.span.end as nat);
        assert(token_stream(f, text, offset) == seq![first] + rest);
        lemma_stream_tiles(f, text, first.span.end as nat, i - 1);
        if i > 1 {
            assert(token_stream(f, text, offset)[i - 1] == rest[i - 2]);
        }
    }
}

/// Coverage: put one after the other, the spans of the tokens give back the
/// text between `offset` and the end of the last token, byte for byte. No
/// byte in between is left out and none is taken twice.
pub proof fn lemma_stream_covers<F, K>(f: F, text: Seq<char>, offset: nat) where
    K: TokenKind,
    F: Fn(&mut Input) -> Option<(K, Span)>,

    requires
        faithful(f),
        offset <= utf8_len(text),
    ensures
        offset <= stream_end(f, text, offset) <= utf8_len(text),
        covered(text, token_stream(f, text, offset)) == encode_utf8(text).subrange(
            offset as int,
            stream_end(f, text, offset) as int,
        ),
    decreases utf8_len(text) - offset,
{
    lemma_next_token(f, text, offset);
    let tokens = token_stream(f, text, offset);
    let bytes = encode_utf8(text);
    match next_token(f, text, offset) {
        Some(first) => {
            let middle = first.span.end as nat;
            let rest = token_stream(f, text, middle);
            lemma_stream_covers(f, text, middle);
            assert(tokens == seq![first] + rest);
            assert(tokens.drop_first() == rest);
            assert(tokens[0] == first);
            if rest.len() > 0 {
                assert(tokens.last() == rest.last());
            }
            assert(bytes.subrange(offset as int, stream_end(f, text, offset) as int)
                == bytes.subrange(offset as int, middle as int) + bytes.subrange(
                middle as int,
                stream_end(f, text, middle) as int,
            ));
        },
        None => {
            assert(bytes.subrange(offset as int, offset as int) == Seq::<u8>::empty());
        },
    }
}

/// Error coalescing: an error token that the driver yields spans a whole run
/// of error tokens of the classifier, and the run cannot be continued: where
/// the token ends the classifier finds no error token, so the token that the
/// driver yields next, if any, is no error token.
pub proof fn lemma_error_token_is_maximal<F, K>(f: F, text: Seq<char>, offset: nat) where
    K: TokenKind,
    F: Fn(&mut Input) -> Option<(K, Span)>,

    requires
        faithful(f),
        next_token(f, text, offset) matches Some(token) && erroneous(token.kind),
    ensures
        ({
            let token = next_token(f, text, offset)->0;
            &&& token.span.start == offset
            &&& offset < token.span.end
            &&& error_run(f, text, offset, token.span.end as nat)
            &&& raw_token(f, text, token.span.end as nat) matches Some(after) ==> !erroneous(
                after.kind,
            )
            &&& next_token(f, text, token.span.end as nat) matches Some(after) ==> !erroneous(
                after.kind,
            )
        }),
{
    lemma_raw_token(f, text, offset);
    lemma_next_token(f, text, offset);
    let raw = raw_token(f, text, offset)->0;
    lemma_run_end(f, text, raw.span.end as nat);
    lemma_error_run(f, text, raw.span.end as nat);
}

/// In the sequence no error token follows an error token directly.
pub proof fn lemma_no_adjacent_error_tokens<F, K>(f: F, text: Seq<char>, offset: nat, i: int) where
    K: TokenKind,
    F: Fn(&mut Input) -> Option<(K, Span)>,

    requires
        faithful(f),
        0 <= i,
        i + 1 < token_stream(f, text, offset).len(),
        erroneous(token_stream(f, text, offset)[i].kind),
    ensures
        !erroneous(token_stream(f, text, offset)[i + 1].kind),
    decreases i,
{
    lemma_next_token(f, text, offset);
    let first = next_token(f, text, offset)->0;
    let rest = token_stream(f, text, first.span.end as nat);
    assert(token_stream(f, text, offset) == seq![first] + rest);
    if i == 0 {
        lemma_error_token_is_maximal(f, text, offset);
        assert(rest[0] == next_token(f, text, first.span.end as nat)->0);
    } else {
        assert(token_stream(f, text, offset)[i] == rest[i - 1]);
        assert(token_stream(f, text, offset)[i + 1] == rest[i]);
        lemma_no_adjacent_error_tokens(f, text, first.span.end as nat, i - 1);
    }
}

/// From an offset between two characters, error tokens run without a gap up
/// to the end of the run.
proof fn lemma_error_run<F, K>(f: F, text: Seq<char>, offset: nat) where
    K: TokenKind,
    F: Fn(&mut Input) -> Option<(K, Span)>,

    requires
        faithful(f),
        is_boundary(text, offset as int),
    ensures
        error_run(f, text, offset, run_end(f, text, offset)),
    decreases utf8_len(text) - offset,
{
    lemma_raw_token(f, text, offset);
    lemma_run_end(f, text, offset);
    if let Some(token) = raw_token(f, text, offset) {
        if erroneous(token.kind) {
            lemma_run_end(f, text, token.span.end as nat);
            lemma_error_run(f, text, token.span.end as nat);
        }
    }
}

} // verus!
