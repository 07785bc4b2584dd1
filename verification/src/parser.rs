//! The parser: a cursor over the token sequence, with the checks that grammar rules use
//! to consume the tokens they expect.
use vstd::prelude::*;

use crate::text::{debug_quoted, debug_str, in_table, is_one_of, same_text};
use crate::token::{kind_name, kind_text, tok_view, Token, TokenKind};

verus! {

// ---------------------------------------------------------------------------
// Syntax tree
// ---------------------------------------------------------------------------

/// A local declaration. The grammar has no rule for it yet.
pub struct Local {}

/// A formal parameter. The grammar has no rule for it yet.
pub struct Formal {}

/// A type. The grammar has no rule for it yet.
pub struct Type {}

/// An expression. The grammar has no rule for it yet.
pub struct Expr {}

/// A statement. The grammar has no rule for it yet.
pub struct Stmt {}

/// The header of a procedure or function.
pub enum Header {
    Procedure { name: String, args: Vec<Box<Formal>> },
    Function { name: String, args: Vec<Box<Formal>>, ret: Box<Type> },
}

/// A call of a procedure or function.
pub struct Call {
    pub id: String,
    pub exprs: Vec<Box<Expr>>,
}

/// A sequence of statements.
pub struct Block {
    pub stmts: Vec<Stmt>,
}

/// The local declarations and the block of a program or routine.
pub struct Body {
    pub locals: Vec<Box<Local>>,
    pub block: Box<Block>,
}

/// A whole program.
pub struct Program {
    pub name: String,
    pub body: Box<Body>,
}

// ---------------------------------------------------------------------------
// Messages
// ---------------------------------------------------------------------------

/// The message for a token of kind `found` where one of kind `expected` was due.
pub open spec fn kind_mismatch_text(expected: TokenKind, found: TokenKind) -> Seq<char> {
    "Syntax error: Expected '"@ + kind_text(expected) + "', found '"@ + kind_text(found) + "'"@
}

/// The message for a token whose text, shown as `found_shown`, is not the text shown
/// as `expected_shown`.
pub open spec fn text_mismatch_text(expected_shown: Seq<char>, found_shown: Seq<char>) -> Seq<
    char,
> {
    "Syntax error: Expected '"@ + expected_shown + "', but found '"@ + found_shown + "'"@
}

/// The message for a header that does not start with a keyword.
pub open spec fn no_routine_text() -> Seq<char> {
    "Syntax error: expected \"function\" or \"procedure\""@
}

/// The message for a header that starts with the keyword `found`, which is neither
/// `function` nor `procedure`.
pub open spec fn wrong_routine_text(found: Seq<char>) -> Seq<char> {
    "Syntax error: expected \"function\" or \"procedure\", found \""@ + found + "\""@
}

pub fn kind_mismatch_message(expected: TokenKind, found: TokenKind) -> (msg: String)
    ensures
        msg@ == kind_mismatch_text(expected, found),
{
    let mut msg = String::from_str("Syntax error: Expected '");
    msg.append(kind_name(expected));
    msg.append("', found '");
    msg.append(kind_name(found));
    msg.append("'");
    msg
}

/// Builds the text-mismatch message from the two texts as they are to be shown.
pub fn text_mismatch_message(expected_shown: &str, found_shown: &str) -> (msg: String)
    ensures
        msg@ == text_mismatch_text(expected_shown@, found_shown@),
{
    let mut msg = String::from_str("Syntax error: Expected '");
    msg.append(expected_shown);
    msg.append("', but found '");
    msg.append(found_shown);
    msg.append("'");
    msg
}

fn wrong_routine_message(found: &str) -> (msg: String)
    ensures
        msg@ == wrong_routine_text(found@),
{
    let mut msg = String::from_str("Syntax error: expected \"function\" or \"procedure\", found \"");
    msg.append(found);
    msg.append("\"");
    msg
}

// ---------------------------------------------------------------------------
// Expectations
// ---------------------------------------------------------------------------

/// An optional text as a mathematical value.
pub open spec fn opt_text(o: Option<&str>) -> Option<Seq<char>> {
    match o {
        Some(s) => Some(s@),
        None => None,
    }
}

/// Whether token `t` is what a rule expects: a token of kind `kind`, and, where `text`
/// is given, with exactly that text. Otherwise the message that reports the mismatch.
pub open spec fn expect_check(t: (TokenKind, Seq<char>), kind: TokenKind, text: Option<Seq<char>>) -> Result<
    (),
    Seq<char>,
> {
    if t.0 != kind {
        Err(kind_mismatch_text(kind, t.0))
    } else {
        match text {
            Some(e) => if t.1 == e {
                Ok(())
            } else {
                Err(text_mismatch_text(debug_quoted(e), debug_quoted(t.1)))
            },
            None => Ok(()),
        }
    }
}

/// A token passes an expectation exactly when it has the expected kind and, where a
/// text is given, exactly that text, character for character.
pub proof fn lemma_expect_exact(t: (TokenKind, Seq<char>), kind: TokenKind, text: Option<Seq<char>>)
    ensures
        (expect_check(t, kind, text) is Ok) <==> (t.0 == kind && (text matches Some(e) ==> t.1 == e)),
        (text matches Some(e) && t.0 == kind && t.1 != e) ==> expect_check(t, kind, text) is Err,
{
}

/// Whether the expectations `steps`, checked one after the other against the tokens `ts`
/// from position `i` on, can be checked without running out of tokens before one of
/// them fails or all of them pass.
pub open spec fn in_reach(
    ts: Seq<(TokenKind, Seq<char>)>,
    i: int,
    steps: Seq<(TokenKind, Option<Seq<char>>)>,
) -> bool
    decreases steps.len(),
{
    steps.len() == 0 || (0 <= i < ts.len() && (expect_check(ts[i], steps[0].0, steps[0].1) is Err
        || in_reach(ts, i + 1, steps.drop_first())))
}

/// The message of the first of `steps` that fails against `ts` from position `i` on,
/// with the number of tokens consumed before it; `None` where all of them pass.
pub open spec fn first_failure(
    ts: Seq<(TokenKind, Seq<char>)>,
    i: int,
    steps: Seq<(TokenKind, Option<Seq<char>>)>,
) -> Option<(Seq<char>, nat)>
    decreases steps.len(),
{
    if steps.len() == 0 {
        None
    } else {
        match expect_check(ts[i], steps[0].0, steps[0].1) {
            Err(m) => Some((m, 0)),
            Ok(()) => match first_failure(ts, i + 1, steps.drop_first()) {
                Some((m, c)) => Some((m, c + 1)),
                None => None,
            },
        }
    }
}

/// One expectation of a chain: it needs a token; where it fails, the chain fails there;
/// where it passes, the rest of the chain decides, one token further on.
pub proof fn lemma_chain_step(
    ts: Seq<(TokenKind, Seq<char>)>,
    i: int,
    steps: Seq<(TokenKind, Option<Seq<char>>)>,
)
    requires
        steps.len() > 0,
        in_reach(ts, i, steps),
    ensures
        0 <= i < ts.len(),
        expect_check(ts[i], steps[0].0, steps[0].1) matches Err(m) ==> first_failure(ts, i, steps)
            == Some((m, 0nat)),
        expect_check(ts[i], steps[0].0, steps[0].1) is Ok ==> {
            &&& in_reach(ts, i + 1, steps.drop_first())
            &&& first_failure(ts, i, steps) == match first_failure(ts, i + 1, steps.drop_first()) {
                Some((m, c)) => Some((m, c + 1)),
                None => None,
            }
        },
{
}

/// What a program starts with: `program`, its name, `;`.
pub open spec fn program_steps() -> Seq<(TokenKind, Option<Seq<char>>)> {
    seq![
        (TokenKind::Keyword, Some("program"@)),
        (TokenKind::Identifier, None),
        (TokenKind::Delimiter, Some(";"@)),
    ]
}

/// What a header has after `function` or `procedure`: its name, `(`.
pub open spec fn header_steps() -> Seq<(TokenKind, Option<Seq<char>>)> {
    seq![(TokenKind::Identifier, None), (TokenKind::Delimiter, Some("("@))]
}

/// What a call starts with: the name called, `(`.
pub open spec fn call_steps() -> Seq<(TokenKind, Option<Seq<char>>)> {
    seq![(TokenKind::Identifier, None), (TokenKind::Delimiter, Some("("@))]
}

/// Whether `t` is the keyword `function` or `procedure`.
pub open spec fn routine_keyword(t: (TokenKind, Seq<char>)) -> bool {
    t.0 == TokenKind::Keyword && (t.1 == "function"@ || t.1 == "procedure"@)
}

// ---------------------------------------------------------------------------
// Operators
// ---------------------------------------------------------------------------

pub open spec fn binop_table() -> Seq<&'static str> {
    seq!["+", "-", "*", "/", "div", "mod", "or", "and", "=", "<>", "<", "<=", ">", ">="]
}

pub open spec fn unop_table() -> Seq<&'static str> {
    seq!["not", "+", "-"]
}

fn binops() -> (v: Vec<&'static str>)
    ensures
        v@ == binop_table(),
{
    vec!["+", "-", "*", "/", "div", "mod", "or", "and", "=", "<>", "<", "<=", ">", ">="]
}

fn unops() -> (v: Vec<&'static str>)
    ensures
        v@ == unop_table(),
{
    vec!["not", "+", "-"]
}

// ---------------------------------------------------------------------------
// The parser
// ---------------------------------------------------------------------------

/// A parser over a token sequence, with a cursor at the next token to consume.
pub struct Parser<'a> {
    src: &'a str,
    tid: usize,
    tokens: Vec<Token>,
}

impl<'a> Parser<'a> {
    /// The position of the next token to consume.
    pub closed spec fn cursor(&self) -> nat {
        self.tid as nat
    }

    /// The tokens the parser reads.
    pub closed spec fn stream(&self) -> Seq<Token> {
        self.tokens@
    }

    /// The tokens the parser reads, as mathematical values.
    pub open spec fn stream_view(&self) -> Seq<(TokenKind, Seq<char>)> {
        self.stream().map_values(|t: Token| tok_view(t))
    }

    /// A parser over `tokens`, lexed from `src`, at the first token.
    pub fn new(src: &'a str, tokens: Vec<Token>) -> (p: Self)
        ensures
            p.cursor() == 0,
            p.stream() == tokens@,
    {
        Parser { src, tid: 0, tokens }
    }

    /// The token at position `idx`, if there is one.
    pub fn peek_at(&self, idx: usize) -> (res: Option<&Token>)
        ensures
            res == (if idx < self.stream().len() {
                Some(&self.stream()[idx as int])
            } else {
                None
            }),
    {
        if idx < self.tokens.len() {
            Some(&self.tokens[idx])
        } else {
            None
        }
    }

    /// The next token to consume, or `None` past the last one.
    pub fn peek(&self) -> (res: Option<&Token>)
        ensures
            res == (if self.cursor() < self.stream().len() {
                Some(&self.stream()[self.cursor() as int])
            } else {
                None
            }),
    {
        self.peek_at(self.tid)
    }

    /// Consumes the next token and returns it; past the last token it consumes nothing
    /// and returns `None`.
    pub fn advance(&mut self) -> (res: Option<&Token>)
        ensures
            final(self).stream() == old(self).stream(),
            final(self).cursor() == (if old(self).cursor() < old(self).stream().len() {
                old(self).cursor() + 1
            } else {
                old(self).cursor()
            }),
            res == (if old(self).cursor() < old(self).stream().len() {
                Some(&old(self).stream()[old(self).cursor() as int])
            } else {
                None
            }),
    {
        let old_tid = self.tid;
        if self.tid < self.tokens.len() {
            self.tid = self.tid + 1;
        }
        self.peek_at(old_tid)
    }

    /// Checks the next token against what a grammar rule expects (see `expect_check`):
    /// on a match it consumes the token and returns a copy of it; otherwise it consumes
    /// nothing and returns the message.
    pub fn expect(&mut self, expected_tok_kind: TokenKind, expected_str: Option<&str>) -> (res:
        Result<Token, String>)
        requires
            old(self).cursor() < old(self).stream().len(),
        ensures
            final(self).stream() == old(self).stream(),
            (res is Ok) <==> ({
                let cur = old(self).stream_view()[old(self).cursor() as int];
                &&& cur.0 == expected_tok_kind
                &&& (expected_str matches Some(e) ==> cur.1 == e@)
            }),
            res is Err ==> final(self).cursor() == old(self).cursor(),
            match expect_check(
                old(self).stream_view()[old(self).cursor() as int],
                expected_tok_kind,
                opt_text(expected_str),
            ) {
                Ok(()) => {
                    &&& res matches Ok(t)
                    &&& tok_view(t) == old(self).stream_view()[old(self).cursor() as int]
                    &&& final(self).cursor() == old(self).cursor() + 1
                },
                Err(m) => {
                    &&& res matches Err(msg)
                    &&& msg@ == m
                    &&& final(self).cursor() == old(self).cursor()
                },
            },
    {
        let cur = &self.tokens[self.tid];
        let kind = cur.0;
        assert(tok_view(*cur) == self.stream_view()[self.cursor() as int]);
        if kind != expected_tok_kind {
            return Err(kind_mismatch_message(expected_tok_kind, kind));
        }
        match expected_str {
            Some(expected) => {
                if !same_text(cur.1.as_str(), expected) {
                    let expected_shown = debug_str(expected);
                    let found_shown = debug_str(cur.1.as_str());
                    return Err(text_mismatch_message(expected_shown.as_str(), found_shown.as_str()));
                }
            },
            None => {},
        }
        let copy: Token = (kind, cur.1.clone());
        let len = self.tokens.len();
        assert(self.tid < len);
        self.tid = self.tid + 1;
        Ok(copy)
    }

    /// Parses a whole program. Of a program, the grammar so far defines only what it
    /// starts with (`program_steps`); the local declarations and the block that follow
    /// have no rules yet, so this is called only where the start is not matched, and it
    /// reports the first mismatch.
    fn parse_program(&mut self) -> (res: Result<Program, String>)
        requires
            in_reach(old(self).stream_view(), old(self).cursor() as int, program_steps()),
            first_failure(old(self).stream_view(), old(self).cursor() as int, program_steps()) is Some,
        ensures
            final(self).stream() == old(self).stream(),
            ({
                let (m, c) = first_failure(
                    old(self).stream_view(),
                    old(self).cursor() as int,
                    program_steps(),
                )->Some_0;
                &&& res matches Err(msg)
                &&& msg@ == m
                &&& final(self).cursor() == old(self).cursor() + c
            }),
    {
        let ghost ts = self.stream_view();
        let ghost i = self.cursor() as int;
        let ghost steps = program_steps();
        assert(steps.drop_first() =~= seq![
            (TokenKind::Identifier, None::<Seq<char>>),
            (TokenKind::Delimiter, Some(";"@)),
        ]);
        assert(steps.drop_first().drop_first() =~= seq![(TokenKind::Delimiter, Some(";"@))]);
        assert(steps.drop_first().drop_first().drop_first() =~= Seq::<
            (TokenKind, Option<Seq<char>>),
        >::empty());
        proof {
            lemma_chain_step(ts, i, steps);
        }
        match self.expect(TokenKind::Keyword, Some("program")) {
            Err(e) => {
                return Err(e);
            },
            Ok(_) => {},
        }
        proof {
            lemma_chain_step(ts, i + 1, steps.drop_first());
        }
        match self.expect(TokenKind::Identifier, None) {
            Err(e) => {
                return Err(e);
            },
            Ok(_) => {},
        }
        proof {
            lemma_chain_step(ts, i + 2, steps.drop_first().drop_first());
        }
        match self.expect(TokenKind::Delimiter, Some(";")) {
            Err(e) => {
                return Err(e);
            },
            Ok(_) => {},
        }
        unreached()
    }

    /// Parses the header of a procedure or function. After `function` or `procedure`
    /// and the name and `(` (`header_steps`) come the formal parameters, which have no
    /// rule yet, so this is called only where the header breaks off before them, and
    /// it reports where it does.
    fn parse_header(&mut self) -> (res: Result<Header, String>)
        requires
            old(self).cursor() < old(self).stream().len() && routine_keyword(
                old(self).stream_view()[old(self).cursor() as int],
            ) ==> in_reach(old(self).stream_view(), old(self).cursor() + 1 as int, header_steps())
                && first_failure(
                old(self).stream_view(),
                old(self).cursor() + 1 as int,
                header_steps(),
            ) is Some,
        ensures
            final(self).stream() == old(self).stream(),
            ({
                let ts = old(self).stream_view();
                let i = old(self).cursor();
                if i >= ts.len() {
                    res matches Err(msg) && msg@ == no_routine_text() && final(self).cursor() == i
                } else if ts[i as int].0 != TokenKind::Keyword {
                    res matches Err(msg) && msg@ == no_routine_text() && final(self).cursor() == i
                        + 1
                } else if !routine_keyword(ts[i as int]) {
                    res matches Err(msg) && msg@ == wrong_routine_text(ts[i as int].1)
                        && final(self).cursor() == i + 1
                } else {
                    let (m, c) = first_failure(ts, i + 1 as int, header_steps())->Some_0;
                    res matches Err(msg) && msg@ == m && final(self).cursor() == i + 1 + c
                }
            }),
    {
        let ghost steps = header_steps();
        assert(steps.drop_first() =~= seq![(TokenKind::Delimiter, Some("("@))]);
        assert(steps.drop_first().drop_first() =~= Seq::<(TokenKind, Option<Seq<char>>)>::empty());
        let ghost i = self.cursor();
        let ghost ts = self.stream_view();
        let first = self.advance();
        match first {
            Some(t) => {
                assert(tok_view(*t) == ts[i as int]);
                match t.0 {
                    TokenKind::Keyword => {
                        if !same_text(t.1.as_str(), "function") && !same_text(
                            t.1.as_str(),
                            "procedure",
                        ) {
                            return Err(wrong_routine_message(t.1.as_str()));
                        }
                    },
                    _ => {
                        return Err(String::from_str("Syntax error: expected \"function\" or \"procedure\""));
                    },
                }
            },
            None => {
                return Err(String::from_str("Syntax error: expected \"function\" or \"procedure\""));
            },
        }
        proof {
            lemma_chain_step(ts, i + 1 as int, steps);
        }
        match self.expect(TokenKind::Identifier, None) {
            Err(e) => {
                return Err(e);
            },
            Ok(_) => {},
        }
        proof {
            lemma_chain_step(ts, i + 2 as int, steps.drop_first());
        }
        match self.expect(TokenKind::Delimiter, Some("(")) {
            Err(e) => {
                return Err(e);
            },
            Ok(_) => {},
        }
        unreached()
    }

    /// Parses a call. After the name and `(` (`call_steps`) come the arguments, which
    /// are expressions, and expressions have no rule yet; so this is called only where
    /// the call breaks off before them, and it reports where it does.
    fn parse_call(&mut self) -> (res: Result<Call, String>)
        requires
            in_reach(old(self).stream_view(), old(self).cursor() as int, call_steps()),
            first_failure(old(self).stream_view(), old(self).cursor() as int, call_steps()) is Some,
        ensures
            final(self).stream() == old(self).stream(),
            ({
                let (m, c) = first_failure(
                    old(self).stream_view(),
                    old(self).cursor() as int,
                    call_steps(),
                )->Some_0;
                &&& res matches Err(msg)
                &&& msg@ == m
                &&& final(self).cursor() == old(self).cursor() + c
            }),
    {
        let ghost steps = call_steps();
        let ghost ts = self.stream_view();
        let ghost i = self.cursor() as int;
        assert(steps.drop_first() =~= seq![(TokenKind::Delimiter, Some("("@))]);
        assert(steps.drop_first().drop_first() =~= Seq::<(TokenKind, Option<Seq<char>>)>::empty());
        proof {
            lemma_chain_step(ts, i, steps);
        }
        match self.expect(TokenKind::Identifier, None) {
            Err(e) => {
                return Err(e);
            },
            Ok(_) => {},
        }
        proof {
            lemma_chain_step(ts, i + 1, steps.drop_first());
        }
        match self.expect(TokenKind::Delimiter, Some("(")) {
            Err(e) => {
                return Err(e);
            },
            Ok(_) => {},
        }
        unreached()
    }

    /// The text of `tok` if it is a binary operator.
    pub fn parse_binop(tok: &Token) -> (res: Option<&str>)
        ensures
            res is Some <==> in_table(binop_table(), tok.1@),
            res matches Some(op) ==> op@ == tok.1@,
    {
        let ops = binops();
        if is_one_of(tok.1.as_str(), &ops) {
            Some(tok.1.as_str())
        } else {
            None
        }
    }

    /// The text of `tok` if it is a unary operator.
    pub fn parse_unop(tok: &Token) -> (res: Option<&str>)
        ensures
            res is Some <==> in_table(unop_table(), tok.1@),
            res matches Some(op) ==> op@ == tok.1@,
    {
        let ops = unops();
        if is_one_of(tok.1.as_str(), &ops) {
            Some(tok.1.as_str())
        } else {
            None
        }
    }
}

} // verus!
