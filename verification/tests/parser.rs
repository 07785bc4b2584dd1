use pcl::lexer::{without_whitespace, Lexer};
use pcl::parser::{kind_mismatch_message, text_mismatch_message, Parser};
use pcl::token::{Token, TokenKind};

fn tok(k: TokenKind, s: &str) -> Token {
    (k, s.to_string())
}

fn tokens_of(src: &str) -> Vec<Token> {
    let mut lexer = Lexer::new(src);
    without_whitespace(lexer.lex())
}

#[test]
fn peeking_does_not_move() {
    let src = "program p;";
    let p = Parser::new(src, tokens_of(src));
    assert_eq!(p.peek(), Some(&tok(TokenKind::Keyword, "program")));
    assert_eq!(p.peek_at(1), Some(&tok(TokenKind::Identifier, "p")));
    assert_eq!(p.peek_at(3), Some(&tok(TokenKind::EOF, "")));
    assert_eq!(p.peek_at(4), None);
    assert_eq!(p.peek(), Some(&tok(TokenKind::Keyword, "program")));
}

#[test]
fn advance_stops_at_the_end() {
    let src = "x";
    let mut p = Parser::new(src, tokens_of(src));
    assert_eq!(p.advance().cloned(), Some(tok(TokenKind::Identifier, "x")));
    assert_eq!(p.advance().cloned(), Some(tok(TokenKind::EOF, "")));
    assert_eq!(p.advance(), None);
    assert_eq!(p.advance(), None);
    assert_eq!(p.peek(), None);
    assert_eq!(p.peek_at(1), Some(&tok(TokenKind::EOF, "")));
}

#[test]
fn expect_consumes_on_match() {
    let src = "program p;";
    let mut p = Parser::new(src, tokens_of(src));
    assert_eq!(p.expect(TokenKind::Keyword, Some("program")), Ok(tok(TokenKind::Keyword, "program")));
    assert_eq!(p.expect(TokenKind::Identifier, None), Ok(tok(TokenKind::Identifier, "p")));
    assert_eq!(p.expect(TokenKind::Delimiter, Some(";")), Ok(tok(TokenKind::Delimiter, ";")));
    assert_eq!(p.peek(), Some(&tok(TokenKind::EOF, "")));
}

#[test]
fn expect_reports_wrong_kind_and_stays() {
    let src = "program p;";
    let mut p = Parser::new(src, tokens_of(src));
    assert_eq!(
        p.expect(TokenKind::Identifier, None),
        Err("Syntax error: Expected 'Identifier', found 'Keyword'".to_string())
    );
    assert_eq!(p.peek(), Some(&tok(TokenKind::Keyword, "program")));
}

#[test]
fn expect_reports_wrong_text_and_stays() {
    let src = "procedure p;";
    let mut p = Parser::new(src, tokens_of(src));
    assert_eq!(
        p.expect(TokenKind::Keyword, Some("program")),
        Err("Syntax error: Expected '\"program\"', but found '\"procedure\"'".to_string())
    );
    assert_eq!(p.peek(), Some(&tok(TokenKind::Keyword, "procedure")));
}

#[test]
fn expect_shows_escaped_text() {
    let src = "\"a\\\"b\"";
    let mut p = Parser::new(src, tokens_of(src));
    assert_eq!(
        p.expect(TokenKind::String, Some("x")),
        Err("Syntax error: Expected '\"x\"', but found '\"\\\"a\\\\\\\"b\\\"\"'".to_string())
    );
}

#[test]
fn messages() {
    assert_eq!(
        kind_mismatch_message(TokenKind::Delimiter, TokenKind::EOF),
        "Syntax error: Expected 'Delimiter', found 'EOF'"
    );
    assert_eq!(text_mismatch_message("A", "B"), "Syntax error: Expected 'A', but found 'B'");
}

#[test]
fn binary_operators() {
    for op in ["+", "-", "*", "/", "div", "mod", "or", "and", "=", "<>", "<", "<=", ">", ">="] {
        let t = tok(TokenKind::Operator, op);
        assert_eq!(Parser::parse_binop(&t), Some(op));
    }
    assert_eq!(Parser::parse_binop(&tok(TokenKind::Keyword, "not")), None);
    assert_eq!(Parser::parse_binop(&tok(TokenKind::Operator, "^")), None);
}

#[test]
fn unary_operators() {
    for op in ["not", "+", "-"] {
        let t = tok(TokenKind::Keyword, op);
        assert_eq!(Parser::parse_unop(&t), Some(op));
    }
    assert_eq!(Parser::parse_unop(&tok(TokenKind::Operator, "*")), None);
    assert_eq!(Parser::parse_unop(&tok(TokenKind::Keyword, "and")), None);
}
