use parsing_tutorial::input::Input;
use parsing_tutorial::lexer::Lex;
use parsing_tutorial::span::Span;
use parsing_tutorial::token::{Token, TokenKind};

#[derive(Debug, PartialEq)]
enum Sexp {
    Error,
    Atom,
    Trivia,
    OpenParent,
    CloseParent,
}

impl TokenKind for Sexp {
    fn is_error(&self) -> bool {
        match self {
            Self::Error => true,
            _ => false,
        }
    }
}

fn classify(i: &mut Input) -> Option<(Sexp, Span)> {
    Some(match i.as_ref().chars().next()? {
        c if c.is_whitespace() => {
            let rest = i.as_ref().chars().take_while(|c| c.is_whitespace()).count();
            (Sexp::Trivia, i.chomp(rest))
        }
        c if c.is_alphanumeric() => {
            let rest = i.as_ref().chars().take_while(|c| c.is_alphanumeric()).count();
            (Sexp::Atom, i.chomp(rest))
        }
        '(' => (Sexp::OpenParent, i.chomp(1)),
        ')' => (Sexp::CloseParent, i.chomp(1)),
        _ => (Sexp::Error, i.chomp(1)),
    })
}

fn lex_all(input: &str) -> Vec<String> {
    let mut lexer = Lex::new(input, classify);
    let mut lines = Vec::new();
    while let Some(token) = lexer.next() {
        lines.push(token.display(input).to_string());
    }
    lines
}

#[test]
fn lexer_tests_unicode() {
    assert_eq!(
        lex_all("(add 2 (京 4 5))"),
        vec![
            "OpenParent `(`",
            "Atom `add`",
            "Trivia ` `",
            "Atom `2`",
            "Trivia ` `",
            "OpenParent `(`",
            "Atom `京`",
            "Trivia ` `",
            "Atom `4`",
            "Trivia ` `",
            "Atom `5`",
            "CloseParent `)`",
            "CloseParent `)`",
        ]
    );
}

#[test]
fn lexer_tests_error() {
    assert_eq!(
        lex_all("(add 2 (+++ 4 5))"),
        vec![
            "OpenParent `(`",
            "Atom `add`",
            "Trivia ` `",
            "Atom `2`",
            "Trivia ` `",
            "OpenParent `(`",
            "Error `+++`",
            "Trivia ` `",
            "Atom `4`",
            "Trivia ` `",
            "Atom `5`",
            "CloseParent `)`",
            "CloseParent `)`",
        ]
    );
}

#[test]
fn error_run_is_one_token() {
    let mut lexer = Lex::new("a+++b", classify);
    assert_eq!(lexer.next(), Some(Token::new(Span::new(0, 1), Sexp::Atom)));
    assert_eq!(lexer.next(), Some(Token::new(Span::new(1, 4), Sexp::Error)));
    assert_eq!(lexer.next(), Some(Token::new(Span::new(4, 5), Sexp::Atom)));
    assert_eq!(lexer.next(), None);
}
