use pcl::lexer::{without_whitespace, Lexer};
use pcl::scan::{
    match_char, match_comment, match_identifier, match_keyword, match_operator, match_real,
    match_string, match_uint, match_whitespace, scan_token,
};
use pcl::token::{kind_name, LexError, Token, TokenKind};

fn chars(s: &str) -> Vec<char> {
    s.chars().collect()
}

fn tok(k: TokenKind, s: &str) -> Token {
    (k, s.to_string())
}

fn lex_all(src: &str) -> Vec<Token> {
    let mut lexer = Lexer::new(src);
    lexer.lex()
}

fn first_error(src: &str) -> LexError {
    let mut lexer = Lexer::new(src);
    loop {
        match lexer.try_next_token() {
            Ok(t) => assert!(t.0 != TokenKind::EOF, "input lexed without error"),
            Err(e) => return e,
        }
    }
}

#[test]
fn program_header_tokens() {
    let toks = lex_all("program x;");
    assert_eq!(
        toks,
        vec![
            tok(TokenKind::Keyword, "program"),
            tok(TokenKind::Whitespace, " "),
            tok(TokenKind::Identifier, "x"),
            tok(TokenKind::Delimiter, ";"),
            tok(TokenKind::EOF, ""),
        ]
    );
}

#[test]
fn keyword_ties_go_to_keyword_longer_identifier_wins() {
    assert_eq!(lex_all("and")[0], tok(TokenKind::Keyword, "and"));
    assert_eq!(lex_all("programs")[0], tok(TokenKind::Identifier, "programs"));
    assert_eq!(lex_all("end1")[0], tok(TokenKind::Identifier, "end1"));
    assert_eq!(lex_all("a_b1 c")[0], tok(TokenKind::Identifier, "a_b1"));
}

#[test]
fn numbers() {
    assert_eq!(lex_all("123")[0], tok(TokenKind::Int, "123"));
    assert_eq!(lex_all("12.5")[0], tok(TokenKind::Real, "12.5"));
    assert_eq!(lex_all("12.")[0], tok(TokenKind::Real, "12."));
    assert_eq!(lex_all("1.5e10")[0], tok(TokenKind::Real, "1.5e10"));
    assert_eq!(lex_all("1.5E-3;")[0], tok(TokenKind::Real, "1.5E-3"));
    assert_eq!(lex_all("1.5e7x")[0], tok(TokenKind::Real, "1.5e7"));
    assert_eq!(
        lex_all("1..5"),
        vec![
            tok(TokenKind::Int, "1"),
            tok(TokenKind::Delimiter, "."),
            tok(TokenKind::Delimiter, "."),
            tok(TokenKind::Int, "5"),
            tok(TokenKind::EOF, ""),
        ]
    );
}

#[test]
fn exponent_edge_cases() {
    assert_eq!(
        lex_all("1.5e"),
        vec![tok(TokenKind::Real, "1.5"), tok(TokenKind::Identifier, "e"), tok(TokenKind::EOF, "")]
    );
    assert_eq!(lex_all("1.5e+"), vec![tok(TokenKind::Real, "1.5e+"), tok(TokenKind::EOF, "")]);
    assert_eq!(
        lex_all("1.5e+x"),
        vec![
            tok(TokenKind::Real, "1.5"),
            tok(TokenKind::Identifier, "e"),
            tok(TokenKind::Operator, "+"),
            tok(TokenKind::Identifier, "x"),
            tok(TokenKind::EOF, ""),
        ]
    );
    assert_eq!(lex_all("2.0ex")[0], tok(TokenKind::Real, "2.0"));
}

#[test]
fn operators_take_the_first_table_entry() {
    assert_eq!(
        lex_all("<>"),
        vec![tok(TokenKind::Operator, "<"), tok(TokenKind::Operator, ">"), tok(TokenKind::EOF, "")]
    );
    assert_eq!(lex_all(">=")[0], tok(TokenKind::Operator, ">"));
    assert_eq!(lex_all(":=")[0], tok(TokenKind::Delimiter, ":="));
    assert_eq!(lex_all(":x")[0], tok(TokenKind::Delimiter, ":"));
    assert_eq!(lex_all("@")[0], tok(TokenKind::Operator, "@"));
}

#[test]
fn character_literals() {
    assert_eq!(lex_all("'a'")[0], tok(TokenKind::Char, "'a'"));
    assert_eq!(lex_all("'\\n'")[0], tok(TokenKind::Char, "'\\n'"));
    assert_eq!(lex_all("'é'")[0], tok(TokenKind::Char, "'é'"));
    assert_eq!(first_error("''"), LexError::EmptyChar);
    assert_eq!(first_error("'ab'"), LexError::UnterminatedChar);
    assert_eq!(first_error("'"), LexError::UnterminatedChar);
    assert_eq!(first_error("'\\q'"), LexError::InvalidCharEscape);
    assert_eq!(first_error("'\\n"), LexError::UnterminatedChar);
    assert_eq!(first_error("'\"'"), LexError::DoubleQuoteInChar);
}

#[test]
fn string_literals() {
    assert_eq!(lex_all("\"hi\" x")[0], tok(TokenKind::String, "\"hi\""));
    assert_eq!(lex_all("\"a\\\"b\"")[0], tok(TokenKind::String, "\"a\\\"b\""));
    assert_eq!(lex_all("\"héllo\"")[0], tok(TokenKind::String, "\"héllo\""));
    assert_eq!(first_error("\"abc"), LexError::UnterminatedString);
    assert_eq!(first_error("\"a\nb\""), LexError::MultilineString);
    assert_eq!(first_error("\"it's\""), LexError::SingleQuoteInString);
    assert_eq!(first_error("\"\\q\""), LexError::InvalidStringEscape);
}

#[test]
fn comments() {
    assert_eq!(
        lex_all("(* hi *)x"),
        vec![tok(TokenKind::Comment, "(* hi *)"), tok(TokenKind::Identifier, "x"), tok(TokenKind::EOF, "")]
    );
    assert_eq!(lex_all("(**)")[0], tok(TokenKind::Comment, "(**)"));
    assert_eq!(lex_all("(* ünï *)")[0], tok(TokenKind::Comment, "(* ünï *)"));
    assert_eq!(
        lex_all("(*)"),
        vec![
            tok(TokenKind::Delimiter, "("),
            tok(TokenKind::Operator, "*"),
            tok(TokenKind::Delimiter, ")"),
            tok(TokenKind::EOF, ""),
        ]
    );
    assert_eq!(lex_all("(* open")[0], tok(TokenKind::Delimiter, "("));
}

#[test]
fn unrecognized_characters() {
    assert_eq!(first_error("#"), LexError::UnrecognizedToken { line: 1, column: 1, found: '#' });
    assert_eq!(first_error("x\n #"), LexError::UnrecognizedToken { line: 2, column: 2, found: '#' });
    assert_eq!(first_error("_x"), LexError::UnrecognizedToken { line: 1, column: 1, found: '_' });
}

#[test]
fn failed_step_leaves_lexer_unchanged() {
    let mut lexer = Lexer::new("#");
    assert!(lexer.try_next_token().is_err());
    assert_eq!((lexer.line, lexer.column), (1, 1));
    assert!(lexer.try_next_token().is_err());
}

#[test]
fn line_and_column_tracking() {
    let mut lexer = Lexer::new("a\nbc");
    let toks = lexer.lex();
    assert_eq!(toks.len(), 4);
    assert_eq!((lexer.line, lexer.column), (2, 3));

    let mut lexer = Lexer::new("ab cd");
    let t = lexer.next_token();
    assert_eq!(t, tok(TokenKind::Identifier, "ab"));
    assert_eq!((lexer.line, lexer.column), (1, 3));
    let t = lexer.next_token();
    assert_eq!(t, tok(TokenKind::Whitespace, " "));
    assert_eq!((lexer.line, lexer.column), (1, 4));
}

#[test]
fn line_counts_newlines() {
    let src = "program p;\n(* a\nb *)\n  begin\r\n end.\n";
    let mut lexer = Lexer::new(src);
    lexer.lex();
    assert_eq!(lexer.line, 1 + src.matches('\n').count());
    assert_eq!(lexer.column, 1);
}

#[test]
fn eof_is_repeated_and_changes_nothing() {
    let mut lexer = Lexer::new("");
    assert_eq!(lexer.next_token(), tok(TokenKind::EOF, ""));
    assert_eq!(lexer.try_next_token(), Ok(tok(TokenKind::EOF, "")));
    assert_eq!((lexer.line, lexer.column), (1, 1));
    assert_eq!(lex_all(""), vec![tok(TokenKind::EOF, "")]);
}

#[test]
fn lexemes_rebuild_the_input() {
    let src = "program hello;\n  var x : integer;\nbegin\n  x := 12.5e3 + 'a';\n  writeString(\"hi\\n\") (* done *)\nend.";
    let toks = lex_all(src);
    let text: String = toks.iter().map(|t| t.1.as_str()).collect();
    assert_eq!(text, src);
    assert_eq!(toks.last(), Some(&tok(TokenKind::EOF, "")));
    assert!(toks[..toks.len() - 1].iter().all(|t| t.0 != TokenKind::EOF && !t.1.is_empty()));
}

#[test]
fn lexing_does_not_depend_on_start_position() {
    let mut a = Lexer::new("x := 1;\ny");
    let mut b = Lexer::new("x := 1;\ny");
    b.line = 40;
    b.column = 7;
    assert_eq!(a.lex(), b.lex());
}

#[test]
fn whitespace_is_filtered() {
    let toks = lex_all("a  b\t(* c *) ;");
    let kept = without_whitespace(toks);
    assert_eq!(
        kept,
        vec![
            tok(TokenKind::Identifier, "a"),
            tok(TokenKind::Identifier, "b"),
            tok(TokenKind::Comment, "(* c *)"),
            tok(TokenKind::Delimiter, ";"),
            tok(TokenKind::EOF, ""),
        ]
    );
}

#[test]
fn matchers_measure_prefixes() {
    assert_eq!(match_uint(&chars("")), Some(0));
    assert_eq!(match_uint(&chars("42a")), Some(2));
    assert_eq!(match_uint(&chars("a42")), None);
    assert_eq!(match_identifier(&chars("x_1+")), Some(3));
    assert_eq!(match_identifier(&chars("1x")), None);
    assert_eq!(match_whitespace(&chars(" \t\r\nx")), Some(4));
    assert_eq!(match_whitespace(&chars("x")), Some(0));
    assert_eq!(match_keyword(&chars("dox")), Some(2));
    assert_eq!(match_keyword(&chars("xdo")), None);
    assert_eq!(match_operator(&chars("<=")), Some(1));
    assert_eq!(match_real(&chars("3.14x")), Some(4));
    assert_eq!(match_real(&chars("3x")), None);
    assert_eq!(match_char(&chars("x")), Ok(None));
    assert_eq!(match_char(&chars("'\\''")), Ok(Some(4)));
    assert_eq!(match_string(&chars("\"\"")), Ok(Some(2)));
    assert_eq!(match_comment(&chars("(*a*)b")), Some(5));
    assert_eq!(match_comment(&chars("(*a")), None);
}

#[test]
fn scan_prefers_longest_then_priority() {
    assert_eq!(scan_token(&chars("begin")), Ok((TokenKind::Keyword, 5)));
    assert_eq!(scan_token(&chars("beginning")), Ok((TokenKind::Identifier, 9)));
    assert_eq!(scan_token(&chars("7.")), Ok((TokenKind::Real, 2)));
    assert_eq!(scan_token(&chars("7")), Ok((TokenKind::Int, 1)));
    assert_eq!(scan_token(&chars("!")), Ok((TokenKind::Error, 0)));
}

#[test]
fn kind_names_match_debug() {
    let kinds = [
        TokenKind::Keyword,
        TokenKind::Identifier,
        TokenKind::Int,
        TokenKind::Real,
        TokenKind::Char,
        TokenKind::String,
        TokenKind::Operator,
        TokenKind::Delimiter,
        TokenKind::Whitespace,
        TokenKind::Comment,
        TokenKind::EOF,
        TokenKind::Error,
    ];
    for k in kinds {
        assert_eq!(kind_name(k), format!("{:?}", k));
    }
}
