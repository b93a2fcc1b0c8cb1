use parsing_tutorial::input::Input;
use parsing_tutorial::lexer::Lex;
use parsing_tutorial::span::Span;
use parsing_tutorial::token::{Token, TokenKind};

#[derive(Debug, PartialEq)]
enum Kind {
    Bad,
    Word,
}

impl TokenKind for Kind {
    fn is_error(&self) -> bool {
        matches!(self, Kind::Bad)
    }
}

fn marks(i: &mut Input) -> Option<(Kind, Span)> {
    let first = i.as_ref().chars().next()?;
    if first == '+' {
        Some((Kind::Bad, i.chomp(1)))
    } else {
        Some((Kind::Word, i.chomp(1)))
    }
}

#[test]
fn long_error_run_is_merged() {
    let input = "+".repeat(200_000);
    let mut lexer = Lex::new(&input, marks);
    assert_eq!(lexer.next(), Some(Token::new(Span::new(0, 200_000), Kind::Bad)));
    assert_eq!(lexer.next(), None);
}
