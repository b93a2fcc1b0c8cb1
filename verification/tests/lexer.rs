use parsing_tutorial::input::Input;
use parsing_tutorial::lexer::Lex;
use parsing_tutorial::span::Span;
use parsing_tutorial::token::{Token, TokenKind};

#[derive(Debug, PartialEq)]
enum Kind {
    Bad,
    Word,
    Blank,
}

impl TokenKind for Kind {
    fn is_error(&self) -> bool {
        matches!(self, Kind::Bad)
    }
}

/// Words of letters and digits, blanks, and everything else one character
/// at a time as an error.
fn words(i: &mut Input) -> Option<(Kind, Span)> {
    let first = i.as_ref().chars().next()?;
    if first.is_alphanumeric() {
        let n = i.as_ref().chars().take_while(|c| c.is_alphanumeric()).count();
        Some((Kind::Word, i.chomp(n)))
    } else if first == ' ' {
        Some((Kind::Blank, i.chomp(1)))
    } else {
        Some((Kind::Bad, i.chomp(1)))
    }
}

fn token(kind: Kind, start: u32, end: u32) -> Token<Kind> {
    Token::new(Span::new(start, end), kind)
}

fn all<F: Fn(&mut Input) -> Option<(Kind, Span)>>(input: &str, f: F) -> Vec<Token<Kind>> {
    let mut lexer = Lex::new(input, f);
    let mut tokens = Vec::new();
    while let Some(token) = lexer.next() {
        tokens.push(token);
    }
    tokens
}

#[test]
fn empty_input_yields_nothing() {
    let mut lexer = Lex::new("", words);
    assert_eq!(lexer.peek(), None);
    assert_eq!(lexer.next(), None);
    assert_eq!(lexer.next(), None);
}

#[test]
fn tokens_come_in_order_with_byte_spans() {
    assert_eq!(
        all("ab 京c", words),
        vec![token(Kind::Word, 0, 2), token(Kind::Blank, 2, 3), token(Kind::Word, 3, 7)]
    );
}

#[test]
fn spans_tile_the_text() {
    let input = "x ++ 京都 !y?";
    let tokens = all(input, words);
    let mut at = 0;
    let mut text = String::new();
    for token in &tokens {
        assert_eq!(token.span.start, at);
        assert!(token.span.start < token.span.end);
        text.push_str(&input[token.span.start as usize..token.span.end as usize]);
        at = token.span.end;
    }
    assert_eq!(at as usize, input.len());
    assert_eq!(text, input);
}

#[test]
fn single_error_character_is_one_token() {
    assert_eq!(
        all("a+b", words),
        vec![token(Kind::Word, 0, 1), token(Kind::Bad, 1, 2), token(Kind::Word, 2, 3)]
    );
}

#[test]
fn error_run_is_merged_whole() {
    assert_eq!(
        all("a+-*/b", words),
        vec![token(Kind::Word, 0, 1), token(Kind::Bad, 1, 5), token(Kind::Word, 5, 6)]
    );
}

#[test]
fn error_run_at_the_end_is_merged() {
    assert_eq!(all("a+++", words), vec![token(Kind::Word, 0, 1), token(Kind::Bad, 1, 4)]);
}

#[test]
fn error_run_of_wide_characters_is_merged() {
    assert_eq!(all("—…", words), vec![token(Kind::Bad, 0, 6)]);
}

#[test]
fn separate_error_runs_stay_separate() {
    assert_eq!(
        all("++ --", words),
        vec![token(Kind::Bad, 0, 2), token(Kind::Blank, 2, 3), token(Kind::Bad, 3, 5)]
    );
}

#[test]
fn no_two_error_tokens_in_a_row() {
    let tokens = all("+a++b+++ ++++c!", words);
    for pair in tokens.windows(2) {
        assert!(!(pair[0].kind.is_error() && pair[1].kind.is_error()));
    }
    assert_eq!(tokens.iter().filter(|t| t.kind.is_error()).count(), 5);
}

#[test]
fn peek_is_idempotent() {
    let mut lexer = Lex::new("ab cd", words);
    assert_eq!(lexer.peek(), Some(&token(Kind::Word, 0, 2)));
    assert_eq!(lexer.peek(), Some(&token(Kind::Word, 0, 2)));
    assert_eq!(lexer.peek(), Some(&token(Kind::Word, 0, 2)));
    assert_eq!(lexer.next(), Some(token(Kind::Word, 0, 2)));
    assert_eq!(lexer.peek(), Some(&token(Kind::Blank, 2, 3)));
}

#[test]
fn peek_then_next_agree() {
    let input = "a ++b+";
    let mut peeking = Lex::new(input, words);
    let mut plain = Lex::new(input, words);
    loop {
        let seen = peeking.peek().map(|t| t.span);
        let taken = peeking.next();
        assert_eq!(seen, taken.as_ref().map(|t| t.span));
        assert_eq!(taken, plain.next());
        if taken.is_none() {
            break;
        }
    }
}

#[test]
fn peek_shows_the_merged_error_token() {
    let mut lexer = Lex::new("+++a", words);
    assert_eq!(lexer.peek(), Some(&token(Kind::Bad, 0, 3)));
    assert_eq!(lexer.next(), Some(token(Kind::Bad, 0, 3)));
    assert_eq!(lexer.next(), Some(token(Kind::Word, 3, 4)));
    assert_eq!(lexer.peek(), None);
    assert_eq!(lexer.next(), None);
}

#[test]
fn peek_leaves_the_cursor_alone() {
    let mut lexer = Lex::new("ab cd", words);
    lexer.next();
    let before = lexer.input();
    lexer.peek();
    let after = lexer.input();
    assert_eq!(before.as_ref(), " cd");
    assert_eq!(after.as_ref(), " cd");
}

#[test]
fn refusal_ends_the_sequence() {
    let only_words = |i: &mut Input| {
        let n = i.as_ref().chars().take_while(|c| c.is_alphanumeric()).count();
        if n == 0 {
            None
        } else {
            Some((Kind::Word, i.chomp(n)))
        }
    };
    let mut lexer = Lex::new("ab cd", only_words);
    assert_eq!(lexer.next(), Some(token(Kind::Word, 0, 2)));
    assert_eq!(lexer.next(), None);
    assert_eq!(lexer.input().as_ref(), " cd");
}

#[test]
fn empty_span_at_the_end_is_not_a_token() {
    let pairs = |i: &mut Input| Some((Kind::Word, i.chomp(2)));
    assert_eq!(all("abcde", pairs), vec![token(Kind::Word, 0, 2), token(Kind::Word, 2, 4)]);
    let bad_pairs = |i: &mut Input| Some((Kind::Bad, i.chomp(2)));
    assert_eq!(all("abcde", bad_pairs), vec![token(Kind::Bad, 0, 4)]);
}

#[test]
fn sequence_is_no_longer_than_the_text() {
    let input = "a+b c!!";
    let ones = |i: &mut Input| {
        i.as_ref().chars().next()?;
        Some((Kind::Word, i.chomp(1)))
    };
    assert_eq!(all(input, ones).len(), input.len());
    assert!(all(input, words).len() <= input.len());
}

#[test]
fn input_is_a_copy_of_the_cursor() {
    let mut lexer = Lex::new("ab cd", words);
    assert_eq!(lexer.input().as_ref(), "ab cd");
    lexer.next();
    let mut copy = lexer.input();
    assert_eq!(copy.as_ref(), " cd");
    copy.chomp(1);
    assert_eq!(copy.as_ref(), "cd");
    assert_eq!(lexer.input().as_ref(), " cd");
}

#[test]
fn set_input_replaces_text_and_lookahead() {
    let mut lexer = Lex::new("ab cd", words);
    assert_eq!(lexer.peek(), Some(&token(Kind::Word, 0, 2)));
    lexer.set_input(Input::from("+x"));
    assert_eq!(lexer.peek(), Some(&token(Kind::Bad, 0, 1)));
    assert_eq!(lexer.next(), Some(token(Kind::Bad, 0, 1)));
    assert_eq!(lexer.next(), Some(token(Kind::Word, 1, 2)));
    assert_eq!(lexer.next(), None);
}

#[test]
fn set_input_can_resume_from_a_saved_cursor() {
    let mut lexer = Lex::new("ab cd", words);
    lexer.next();
    let saved = lexer.input();
    assert_eq!(lexer.next(), Some(token(Kind::Blank, 2, 3)));
    assert_eq!(lexer.next(), Some(token(Kind::Word, 3, 5)));
    lexer.set_input(saved);
    assert_eq!(lexer.next(), Some(token(Kind::Blank, 2, 3)));
}

#[test]
fn collect_yields_all_tokens_in_order() {
    let mut lexer = Lex::new("ab +- c", words);
    assert_eq!(
        lexer.collect(),
        vec![
            token(Kind::Word, 0, 2),
            token(Kind::Blank, 2, 3),
            token(Kind::Bad, 3, 5),
            token(Kind::Blank, 5, 6),
            token(Kind::Word, 6, 7),
        ]
    );
    assert_eq!(lexer.next(), None);
    assert_eq!(lexer.collect(), vec![]);
}

#[test]
fn collect_starts_behind_what_was_yielded() {
    let mut lexer = Lex::new("ab cd", words);
    lexer.next();
    lexer.peek();
    assert_eq!(lexer.collect(), vec![token(Kind::Blank, 2, 3), token(Kind::Word, 3, 5)]);
    assert_eq!(Lex::new("", words).collect(), vec![]);
}
