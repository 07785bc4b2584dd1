//! The lexer: cuts the source text into tokens, one longest match at a time, and keeps
//! track of the line and column it has reached.
use vstd::prelude::*;

use crate::scan::{lemma_scan_bounds, lemma_scan_shape, scan, scan_token, token_shape};
use crate::text::chars_of;
use crate::token::{tok_view, LexError, Token, TokenKind};

verus! {

/// The line and column reached after reading `t` from (`line`, `col`): a line break
/// moves to column 1 of the next line, any other character one column to the right.
pub open spec fn advance_position(line: int, col: int, t: Seq<char>) -> (int, int)
    decreases t.len(),
{
    if t.len() == 0 {
        (line, col)
    } else {
        let p = advance_position(line, col, t.drop_last());
        if t.last() == '\n' {
            (p.0 + 1, 1)
        } else {
            (p.0, p.1 + 1)
        }
    }
}

/// The number of line breaks in `t`.
pub open spec fn newlines(t: Seq<char>) -> nat
    decreases t.len(),
{
    if t.len() == 0 {
        0
    } else {
        newlines(t.drop_last()) + if t.last() == '\n' {
            1nat
        } else {
            0nat
        }
    }
}

/// What one step of the lexer does on the remaining input `s` at (`line`, `col`): at the
/// end of the input it gives `EOF` with an empty lexeme; otherwise the token that `scan`
/// picks, where a start that no token matches is an `UnrecognizedToken` error there.
pub open spec fn next_step(s: Seq<char>, line: usize, col: usize) -> Result<(TokenKind, nat), LexError> {
    if s.len() == 0 {
        Ok((TokenKind::EOF, 0))
    } else {
        match scan(s) {
            Err(e) => Err(e),
            Ok((k, n)) => if k == TokenKind::Error {
                Err(LexError::UnrecognizedToken { line, column: col, found: s[0] })
            } else {
                Ok((k, n))
            },
        }
    }
}

/// The whole token sequence of `s` lexed from (`line`, `col`): the tokens one after the
/// other, ending with `EOF`; or the first error met on the way.
pub open spec fn lex_spec(s: Seq<char>, line: usize, col: usize) -> Result<
    Seq<(TokenKind, Seq<char>)>,
    LexError,
>
    decreases s.len(),
{
    if s.len() == 0 {
        Ok(seq![(TokenKind::EOF, Seq::<char>::empty())])
    } else {
        match next_step(s, line, col) {
            Err(e) => Err(e),
            Ok((k, n)) => {
                proof {
                    lemma_scan_bounds(s);
                }
                let p = advance_position(line as int, col as int, s.take(n as int));
                match lex_spec(s.skip(n as int), p.0 as usize, p.1 as usize) {
                    Ok(rest) => Ok(seq![(k, s.take(n as int))] + rest),
                    Err(e) => Err(e),
                }
            },
        }
    }
}

/// Reading `t` moves the line forward by at most `t.len()`, and leaves the column at most
/// `t.len()` further on.
pub proof fn lemma_advance_bounds(line: int, col: int, t: Seq<char>)
    requires
        col >= 0,
    ensures
        line <= advance_position(line, col, t).0 <= line + t.len(),
        0 <= advance_position(line, col, t).1 <= col + t.len(),
    decreases t.len(),
{
    if t.len() > 0 {
        lemma_advance_bounds(line, col, t.drop_last());
    }
}

/// Reading `a` and then `b` ends where reading `a + b` does.
pub proof fn lemma_advance_concat(line: int, col: int, a: Seq<char>, b: Seq<char>)
    ensures
        advance_position(line, col, a + b) == {
            let p = advance_position(line, col, a);
            advance_position(p.0, p.1, b)
        },
    decreases b.len(),
{
    if b.len() == 0 {
        assert(a + b =~= a);
    } else {
        lemma_advance_concat(line, col, a, b.drop_last());
        assert((a + b).drop_last() =~= a + b.drop_last());
        assert((a + b).last() == b.last());
    }
}

/// The line reached after reading `t` is the starting line plus the number of line
/// breaks in `t`.
pub proof fn lemma_line_counts_newlines(line: int, col: int, t: Seq<char>)
    ensures
        advance_position(line, col, t).0 == line + newlines(t),
    decreases t.len(),
{
    if t.len() > 0 {
        lemma_line_counts_newlines(line, col, t.drop_last());
    }
}

/// A lexer over a source text, holding the text not read yet and the position reached.
pub struct Lexer<'a> {
    slice: &'a str,
    pub line: usize,
    pub column: usize,
}

impl<'a> Lexer<'a> {
    /// The characters not read yet.
    pub closed spec fn rest(&self) -> Seq<char> {
        self.slice@
    }

    /// The line the lexer has reached.
    pub closed spec fn cur_line(&self) -> usize {
        self.line
    }

    /// The column the lexer has reached.
    pub closed spec fn cur_column(&self) -> usize {
        self.column
    }

    /// A lexer at line 1, column 1 of `src`.
    pub fn new(src: &'a str) -> (lexer: Self)
        ensures
            lexer.rest() == src@,
            lexer.cur_line() == 1,
            lexer.cur_column() == 1,
    {
        Self { slice: src, line: 1, column: 1 }
    }

    /// Reads the next token and moves past it, updating line and column. At the end of
    /// the input it gives `EOF` with an empty lexeme and leaves the lexer as it is. Where
    /// no token can be read, the lexer is left as it is and the error comes back.
    pub fn try_next_token(&mut self) -> (res: Result<Token, LexError>)
        requires
            old(self).cur_line() + old(self).rest().len() <= usize::MAX,
                old(self).cur_column() + old(self).rest().len() <= usize::MAX,
        ensures
            final(self).cur_line() + final(self).rest().len() <= usize::MAX,
                final(self).cur_column() + final(self).rest().len() <= usize::MAX,
            match next_step(old(self).rest(), old(self).cur_line(), old(self).cur_column()) {
                Ok((k, n)) => {
                    &&& res matches Ok(t)
                    &&& t.0 == k
                    &&& t.1@ == old(self).rest().take(n as int)
                    &&& final(self).rest() == old(self).rest().skip(n as int)
                    &&& final(self).cur_line() == advance_position(
                        old(self).cur_line() as int,
                        old(self).cur_column() as int,
                        old(self).rest().take(n as int),
                    ).0
                    &&& final(self).cur_column() == advance_position(
                        old(self).cur_line() as int,
                        old(self).cur_column() as int,
                        old(self).rest().take(n as int),
                    ).1
                },
                Err(e) => res == Err::<Token, LexError>(e) && *final(self) == *old(self),
            },
    {
        let src = self.slice;
        let chars = chars_of(src);
        if chars.len() == 0 {
            assert(src@.take(0) =~= Seq::<char>::empty());
            assert(src@.skip(0) =~= src@);
            return Ok((TokenKind::EOF, String::new()));
        }
        let scanned = scan_token(chars.as_slice());
        let (kind, n) = match scanned {
            Err(e) => {
                return Err(e);
            },
            Ok(found) => found,
        };
        proof {
            lemma_scan_bounds(chars@);
        }
        match kind {
            TokenKind::Error => {
                return Err(
                    LexError::UnrecognizedToken {
                        line: self.line,
                        column: self.column,
                        found: chars[0],
                    },
                );
            },
            _ => {},
        }
        let ghost l0 = self.line as int;
        let ghost c0 = self.column as int;
        let mut i: usize = 0;
        while i < n
            invariant
                i <= n <= chars@.len(),
                chars@ == src@,
                self.slice == src,
                l0 + chars@.len() <= usize::MAX,
                c0 + chars@.len() <= usize::MAX,
                c0 >= 0,
                self.line <= l0 + i,
                self.column <= c0 + i,
                (self.line as int, self.column as int) == advance_position(l0, c0, chars@.take(i as int)),
            decreases n - i,
        {
            let c = chars[i];
            assert(chars@.take(i + 1).drop_last() =~= chars@.take(i as int));
            assert(chars@.take(i + 1).last() == c);
            if c == '\n' {
                self.line = self.line + 1;
                self.column = 1;
            } else {
                self.column = self.column + 1;
            }
            i = i + 1;
        }
        let lexeme = src.substring_char(0, n);
        self.slice = src.substring_char(n, chars.len());
        assert(src@.subrange(0, n as int) =~= src@.take(n as int));
        assert(src@.subrange(n as int, chars@.len() as int) =~= src@.skip(n as int));
        Ok((kind, String::from_str(lexeme)))
    }

    /// Reads the next token, on input where a token can be read; see `try_next_token`.
    pub fn next_token(&mut self) -> (tok: Token)
        requires
            old(self).cur_line() + old(self).rest().len() <= usize::MAX,
                old(self).cur_column() + old(self).rest().len() <= usize::MAX,
            next_step(old(self).rest(), old(self).cur_line(), old(self).cur_column()) is Ok,
        ensures
            final(self).cur_line() + final(self).rest().len() <= usize::MAX,
                final(self).cur_column() + final(self).rest().len() <= usize::MAX,
            ({
                let (k, n) = next_step(old(self).rest(), old(self).cur_line(), old(self).cur_column())->Ok_0;
                let p = advance_position(
                    old(self).cur_line() as int,
                    old(self).cur_column() as int,
                    old(self).rest().take(n as int),
                );
                &&& tok.0 == k
                &&& tok.1@ == old(self).rest().take(n as int)
                &&& final(self).rest() == old(self).rest().skip(n as int)
                &&& final(self).cur_line() == p.0
                &&& final(self).cur_column() == p.1
            }),
    {
        match self.try_next_token() {
            Ok(t) => t,
            Err(_) => unreached(),
        }
    }

    /// Reads the whole input: all its tokens, ending with `EOF`, on input where every
    /// token can be read.
    pub fn lex(&mut self) -> (tokens: Vec<Token>)
        requires
            old(self).cur_line() + old(self).rest().len() <= usize::MAX,
                old(self).cur_column() + old(self).rest().len() <= usize::MAX,
            lex_spec(old(self).rest(), old(self).cur_line(), old(self).cur_column()) is Ok,
        ensures
            tokens@.map_values(|t: Token| tok_view(t)) == lex_spec(
                old(self).rest(),
                old(self).cur_line(),
                old(self).cur_column(),
            )->Ok_0,
            final(self).rest().len() == 0,
            (final(self).cur_line() as int, final(self).cur_column() as int) == advance_position(
                old(self).cur_line() as int,
                old(self).cur_column() as int,
                old(self).rest(),
            ),
    {
        let ghost s0 = self.rest();
        let ghost l0 = self.line;
        let ghost c0 = self.column;
        let ghost all = lex_spec(s0, l0, c0)->Ok_0;
        let mut tokens: Vec<Token> = Vec::new();
        assert(tokens@.map_values(|t: Token| tok_view(t)) + lex_spec(self.rest(), self.line, self.column)->Ok_0 =~= all);
        loop
            invariant_except_break
                self.line + self.rest().len() <= usize::MAX,
                self.column + self.rest().len() <= usize::MAX,
                lex_spec(self.rest(), self.line, self.column) is Ok,
                tokens@.map_values(|t: Token| tok_view(t)) + lex_spec(
                    self.rest(),
                    self.line,
                    self.column,
                )->Ok_0 == all,
                advance_position(l0 as int, c0 as int, s0) == advance_position(
                    self.line as int,
                    self.column as int,
                    self.rest(),
                ),
            ensures
                tokens@.map_values(|t: Token| tok_view(t)) == all,
                self.rest().len() == 0,
                (self.line as int, self.column as int) == advance_position(l0 as int, c0 as int, s0),
            decreases self.rest().len(),
        {
            let ghost before = *self;
            let ghost r = self.rest();
            proof {
                lemma_scan_bounds(r);
            }
            let tok = self.next_token();
            let ghost n = next_step(r, before.line, before.column)->Ok_0.1;
            let ghost old_tokens = tokens@;
            let at_end = match tok.0 {
                TokenKind::EOF => true,
                _ => false,
            };
            tokens.push(tok);
            assert(tokens@ == old_tokens.push(tok));
            assert(tokens@.map_values(|t: Token| tok_view(t)) =~= old_tokens.map_values(
                |t: Token| tok_view(t),
            ).push(tok_view(tok)));
            if at_end {
                assert(r.len() == 0);
                assert(r.take(0) =~= Seq::<char>::empty());
                assert(tok_view(tok) == (TokenKind::EOF, Seq::<char>::empty()));
                assert(tokens@.map_values(|t: Token| tok_view(t)) =~= all);
                break ;
            }
            proof {
                let p = advance_position(before.line as int, before.column as int, r.take(n as int));
                lemma_advance_bounds(before.line as int, before.column as int, r.take(n as int));
                assert(r =~= r.take(n as int) + r.skip(n as int));
                lemma_advance_concat(
                    before.line as int,
                    before.column as int,
                    r.take(n as int),
                    r.skip(n as int),
                );
                assert(seq![(tok.0, r.take(n as int))] + lex_spec(
                    self.rest(),
                    self.line,
                    self.column,
                )->Ok_0 == lex_spec(r, before.line, before.column)->Ok_0);
                assert(tokens@.map_values(|t: Token| tok_view(t)) + lex_spec(
                    self.rest(),
                    self.line,
                    self.column,
                )->Ok_0 =~= old_tokens.map_values(|t: Token| tok_view(t)) + lex_spec(
                    r,
                    before.line,
                    before.column,
                )->Ok_0);
            }
        }
        tokens
    }
}

/// The tokens of `ts` that are not whitespace, in order.
pub open spec fn drop_whitespace(ts: Seq<(TokenKind, Seq<char>)>) -> Seq<(TokenKind, Seq<char>)>
    decreases ts.len(),
{
    if ts.len() == 0 {
        ts
    } else if ts.last().0 == TokenKind::Whitespace {
        drop_whitespace(ts.drop_last())
    } else {
        drop_whitespace(ts.drop_last()).push(ts.last())
    }
}

/// The tokens that are not whitespace, in their order.
pub fn without_whitespace(tokens: Vec<Token>) -> (kept: Vec<Token>)
    ensures
        kept@.map_values(|t: Token| tok_view(t)) == drop_whitespace(
            tokens@.map_values(|t: Token| tok_view(t)),
        ),
        kept@.map_values(|t: Token| tok_view(t)) == tokens@.map_values(|t: Token| tok_view(t)).filter(
            |t: (TokenKind, Seq<char>)| t.0 != TokenKind::Whitespace,
        ),
{
    let ghost all = tokens@.map_values(|t: Token| tok_view(t));
    let mut kept: Vec<Token> = Vec::new();
    let mut i: usize = 0;
    while i < tokens.len()
        invariant
            i <= tokens@.len(),
            all == tokens@.map_values(|t: Token| tok_view(t)),
            kept@.map_values(|t: Token| tok_view(t)) == drop_whitespace(all.take(i as int)),
        decreases tokens@.len() - i,
    {
        let t = &tokens[i];
        assert(all.take(i + 1).drop_last() =~= all.take(i as int));
        assert(all.take(i + 1).last() == tok_view(*t));
        let blank = match t.0 {
            TokenKind::Whitespace => true,
            _ => false,
        };
        if !blank {
            let ghost before = kept@;
            let copy: Token = (t.0, t.1.clone());
            kept.push(copy);
            assert(kept@.map_values(|t: Token| tok_view(t)) =~= before.map_values(
                |t: Token| tok_view(t),
            ).push(tok_view(copy)));
        }
        i = i + 1;
    }
    assert(all.take(tokens@.len() as int) =~= all);
    proof {
        lemma_drop_whitespace_is_filter(all);
    }
    kept
}

/// The text of the tokens `ts`, one lexeme after the other.
pub open spec fn joined(ts: Seq<(TokenKind, Seq<char>)>) -> Seq<char>
    decreases ts.len(),
{
    if ts.len() == 0 {
        Seq::<char>::empty()
    } else {
        ts[0].1 + joined(ts.drop_first())
    }
}

/// Lexing loses nothing and adds nothing: the lexemes of the tokens, one after the
/// other, are the input text.
pub proof fn lemma_lex_covers_input(s: Seq<char>, line: usize, col: usize)
    ensures
        lex_spec(s, line, col) matches Ok(ts) ==> joined(ts) == s,
    decreases s.len(),
{
    if let Ok(ts) = lex_spec(s, line, col) {
        if s.len() == 0 {
            assert(ts.drop_first() =~= Seq::<(TokenKind, Seq<char>)>::empty());
            assert(joined(ts.drop_first()) == Seq::<char>::empty());
            assert(ts[0].1 == Seq::<char>::empty());
            assert(joined(ts) =~= s);
        } else {
            lemma_scan_bounds(s);
            let (k, n) = next_step(s, line, col)->Ok_0;
            let p = advance_position(line as int, col as int, s.take(n as int));
            lemma_lex_covers_input(s.skip(n as int), p.0 as usize, p.1 as usize);
            let rest = lex_spec(s.skip(n as int), p.0 as usize, p.1 as usize)->Ok_0;
            assert(ts.drop_first() =~= rest);
            assert(s =~= s.take(n as int) + s.skip(n as int));
        }
    }
}

/// The tokens of a lexed text: the last one is `EOF` with an empty lexeme, and every
/// other one is a token of another kind with a well-formed, non-empty lexeme.
pub proof fn lemma_lex_tokens(s: Seq<char>, line: usize, col: usize)
    ensures
        lex_spec(s, line, col) matches Ok(ts) ==> {
            &&& ts.len() >= 1
            &&& ts.last() == (TokenKind::EOF, Seq::<char>::empty())
            &&& forall|j: int|
                0 <= j < ts.len() - 1 ==> {
                    &&& (#[trigger] ts[j]).0 != TokenKind::EOF
                    &&& ts[j].1.len() > 0
                    &&& token_shape(ts[j].0, ts[j].1)
                }
        },
    decreases s.len(),
{
    if let Ok(ts) = lex_spec(s, line, col) {
        if s.len() > 0 {
            lemma_scan_bounds(s);
            lemma_scan_shape(s);
            let (k, n) = next_step(s, line, col)->Ok_0;
            let p = advance_position(line as int, col as int, s.take(n as int));
            lemma_lex_tokens(s.skip(n as int), p.0 as usize, p.1 as usize);
            let rest = lex_spec(s.skip(n as int), p.0 as usize, p.1 as usize)->Ok_0;
            assert(ts =~= seq![(k, s.take(n as int))] + rest);
            assert forall|j: int| 0 <= j < ts.len() - 1 implies {
                &&& (#[trigger] ts[j]).0 != TokenKind::EOF
                &&& ts[j].1.len() > 0
                &&& token_shape(ts[j].0, ts[j].1)
            } by {
                if j > 0 {
                    assert(ts[j] == rest[j - 1]);
                }
            }
        }
    }
}

/// Whether a text lexes, and into which tokens, does not depend on the line and column
/// it starts at; only the position an error reports does.
pub proof fn lemma_lex_position_free(s: Seq<char>, l1: usize, c1: usize, l2: usize, c2: usize)
    ensures
        (lex_spec(s, l1, c1) is Ok) == (lex_spec(s, l2, c2) is Ok),
        lex_spec(s, l1, c1) is Ok ==> lex_spec(s, l1, c1) == lex_spec(s, l2, c2),
    decreases s.len(),
{
    if s.len() > 0 {
        lemma_scan_bounds(s);
        if let Ok((k, n)) = next_step(s, l1, c1) {
            let p1 = advance_position(l1 as int, c1 as int, s.take(n as int));
            let p2 = advance_position(l2 as int, c2 as int, s.take(n as int));
            lemma_lex_position_free(s.skip(n as int), p1.0 as usize, p1.1 as usize, p2.0 as usize, p2.1 as usize);
        }
    }
}

/// Dropping whitespace leaves no whitespace token, and keeps every other token in order:
/// each kept token is one of the input, and each non-whitespace token of the input is kept.
pub proof fn lemma_drop_whitespace(ts: Seq<(TokenKind, Seq<char>)>)
    ensures
        forall|j: int|
            0 <= j < drop_whitespace(ts).len() ==> (#[trigger] drop_whitespace(ts)[j]).0
                != TokenKind::Whitespace,
        forall|j: int|
            0 <= j < drop_whitespace(ts).len() ==> ts.contains(#[trigger] drop_whitespace(ts)[j]),
        forall|j: int|
            0 <= j < ts.len() && (#[trigger] ts[j]).0 != TokenKind::Whitespace ==> drop_whitespace(
                ts,
            ).contains(ts[j]),
    decreases ts.len(),
{
    if ts.len() > 0 {
        let init = ts.drop_last();
        lemma_drop_whitespace(init);
        let d = drop_whitespace(ts);
        let di = drop_whitespace(init);
        assert forall|j: int| 0 <= j < d.len() implies ts.contains(#[trigger] d[j]) by {
            if j < di.len() {
                assert(d[j] == di[j]);
                let k = choose|k: int| 0 <= k < init.len() && init[k] == di[j];
                assert(ts[k] == init[k]);
            } else {
                assert(d[j] == ts[ts.len() - 1]);
            }
        }
        assert forall|j: int| 0 <= j < ts.len() && (#[trigger] ts[j]).0 != TokenKind::Whitespace
            implies d.contains(ts[j]) by {
            if j < ts.len() - 1 {
                assert(ts[j] == init[j]);
                let k = choose|k: int| 0 <= k < di.len() && di[k] == init[j];
                assert(d[k] == di[k]);
            } else {
                assert(d[d.len() - 1] == ts[j]);
            }
        }
    }
}

/// Dropping whitespace is filtering by kind: the result is the input with exactly the
/// whitespace tokens removed, every other token kept, in order and as often as it occurs.
pub proof fn lemma_drop_whitespace_is_filter(ts: Seq<(TokenKind, Seq<char>)>)
    ensures
        drop_whitespace(ts) == ts.filter(|t: (TokenKind, Seq<char>)| t.0 != TokenKind::Whitespace),
    decreases ts.len(),
{
    reveal(Seq::filter);
    if ts.len() > 0 {
        lemma_drop_whitespace_is_filter(ts.drop_last());
    }
}

/// The number of tokens left after dropping whitespace is the number of tokens of the
/// input that are not whitespace.
pub proof fn lemma_drop_whitespace_count(ts: Seq<(TokenKind, Seq<char>)>)
    ensures
        drop_whitespace(ts).len() == ts.len() - Set::new(
            |i: int| 0 <= i < ts.len() && ts[i].0 == TokenKind::Whitespace,
        ).len(),
    decreases ts.len(),
{
    let blanks = Set::new(|i: int| 0 <= i < ts.len() && ts[i].0 == TokenKind::Whitespace);
    if ts.len() == 0 {
        assert(blanks =~= Set::<int>::empty());
    } else {
        let init = ts.drop_last();
        lemma_drop_whitespace_count(init);
        let b0 = Set::new(|i: int| 0 <= i < init.len() && init[i].0 == TokenKind::Whitespace);
        let last = ts.len() - 1;
        lemma_index_set_finite(b0, init.len() as int);
        if ts.last().0 == TokenKind::Whitespace {
            assert(blanks =~= b0.insert(last));
        } else {
            assert(blanks =~= b0);
        }
    }
}

proof fn lemma_index_set_finite(s: Set<int>, n: int)
    requires
        0 <= n,
        forall|i: int| s.contains(i) ==> 0 <= i < n,
    ensures
        s.finite(),
        !s.contains(n),
{
    vstd::set_lib::lemma_int_range(0, n);
    assert(s.subset_of(vstd::set_lib::set_int_range(0, n)));
    vstd::set_lib::lemma_len_subset(s, vstd::set_lib::set_int_range(0, n));
}

/// Reading text without line breaks stays on the line and moves the column by the
/// length of the text.
pub proof fn lemma_column_without_break(line: int, col: int, t: Seq<char>)
    requires
        forall|i: int| 0 <= i < t.len() ==> #[trigger] t[i] != '\n',
    ensures
        advance_position(line, col, t) == (line, col + t.len()),
    decreases t.len(),
{
    if t.len() > 0 {
        assert(t.last() == t[t.len() - 1]);
        assert forall|i: int| 0 <= i < t.drop_last().len() implies #[trigger] t.drop_last()[i] != '\n' by {
            assert(t.drop_last()[i] == t[i]);
        }
        lemma_column_without_break(line, col, t.drop_last());
    }
}

/// After reading text whose last line break is at position `k`, the column is one past
/// the number of characters after that break.
pub proof fn lemma_column_after_break(line: int, col: int, t: Seq<char>, k: int)
    requires
        0 <= k < t.len(),
        t[k] == '\n',
        forall|i: int| k < i < t.len() ==> #[trigger] t[i] != '\n',
    ensures
        advance_position(line, col, t).1 == t.len() - k,
    decreases t.len(),
{
    assert(t.last() == t[t.len() - 1]);
    if k < t.len() - 1 {
        assert forall|i: int| k < i < t.drop_last().len() implies #[trigger] t.drop_last()[i] != '\n' by {
            assert(t.drop_last()[i] == t[i]);
        }
        assert(t.drop_last()[k] == t[k]);
        lemma_column_after_break(line, col, t.drop_last(), k);
    }
}

} // verus!
