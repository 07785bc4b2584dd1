//! The token matchers: each one measures how long a token of its kind is at the start
//! of the input, and `scan_token` picks the longest of them.
use vstd::prelude::*;

use crate::text::{has_prefix, in_table, starts_with};
use crate::token::{LexError, TokenKind};

verus! {

// ---------------------------------------------------------------------------
// Character classes
// ---------------------------------------------------------------------------

pub open spec fn digit(c: char) -> bool {
    '0' <= c && c <= '9'
}

pub open spec fn letter(c: char) -> bool {
    ('a' <= c && c <= 'z') || ('A' <= c && c <= 'Z')
}

pub open spec fn blank(c: char) -> bool {
    c == ' ' || c == '\t' || c == '\n' || c == '\r'
}

/// Characters allowed after the first letter of an identifier.
pub open spec fn ident_char(c: char) -> bool {
    letter(c) || digit(c) || c == '_'
}

/// Letters that may follow a backslash in a character or string literal.
pub open spec fn escape_char(c: char) -> bool {
    c == 'n' || c == 't' || c == 'r' || c == '0' || c == '\\' || c == '\'' || c == '"'
}

pub fn is_digit(c: char) -> (b: bool)
    ensures
        b == digit(c),
{
    '0' <= c && c <= '9'
}

pub fn is_letter(c: char) -> (b: bool)
    ensures
        b == letter(c),
{
    ('a' <= c && c <= 'z') || ('A' <= c && c <= 'Z')
}

pub fn is_whitespace(c: char) -> (b: bool)
    ensures
        b == blank(c),
{
    c == ' ' || c == '\t' || c == '\n' || c == '\r'
}

fn is_escape(c: char) -> (b: bool)
    ensures
        b == escape_char(c),
{
    c == 'n' || c == 't' || c == 'r' || c == '0' || c == '\\' || c == '\'' || c == '"'
}

/// A class of characters that a run of characters is measured by.
#[derive(Copy, Clone)]
pub enum CharClass {
    Digit,
    IdentTail,
    Blank,
}

pub open spec fn in_class(k: CharClass, c: char) -> bool {
    match k {
        CharClass::Digit => digit(c),
        CharClass::IdentTail => ident_char(c),
        CharClass::Blank => blank(c),
    }
}

fn class_holds(k: CharClass, c: char) -> (b: bool)
    ensures
        b == in_class(k, c),
{
    match k {
        CharClass::Digit => is_digit(c),
        CharClass::IdentTail => is_letter(c) || is_digit(c) || c == '_',
        CharClass::Blank => is_whitespace(c),
    }
}

/// The number of leading characters of `s` that belong to class `k`.
pub open spec fn span(s: Seq<char>, k: CharClass) -> nat
    decreases s.len(),
{
    if s.len() > 0 && in_class(k, s[0]) {
        1 + span(s.drop_first(), k)
    } else {
        0
    }
}

/// `span` is the position of the first character outside the class.
pub proof fn lemma_span_is(s: Seq<char>, k: CharClass, i: int)
    requires
        0 <= i <= s.len(),
        forall|j: int| 0 <= j < i ==> in_class(k, #[trigger] s[j]),
        i == s.len() || !in_class(k, s[i]),
    ensures
        span(s, k) == i,
    decreases i,
{
    if i > 0 {
        assert forall|j: int| 0 <= j < i - 1 implies in_class(k, #[trigger] s.drop_first()[j]) by {
            assert(s.drop_first()[j] == s[j + 1]);
        }
        lemma_span_is(s.drop_first(), k, i - 1);
    }
}

/// The run that `span` measures lies inside `s`, belongs to the class, and stops at
/// the end or at a character outside it.
pub proof fn lemma_span_bounds(s: Seq<char>, k: CharClass)
    ensures
        span(s, k) <= s.len(),
        forall|j: int| 0 <= j < span(s, k) ==> in_class(k, #[trigger] s[j]),
        span(s, k) == s.len() || !in_class(k, s[span(s, k) as int]),
    decreases s.len(),
{
    if s.len() > 0 && in_class(k, s[0]) {
        lemma_span_bounds(s.drop_first(), k);
        assert forall|j: int| 0 <= j < span(s, k) implies in_class(k, #[trigger] s[j]) by {
            if j > 0 {
                assert(s[j] == s.drop_first()[j - 1]);
            }
        }
        assert(span(s, k) == s.len() || s[span(s, k) as int] == s.drop_first()[span(
            s.drop_first(),
            k,
        ) as int]);
    }
}

/// Measures the run of class `k` in `s` from position `from` on.
fn run_length(s: &[char], from: usize, k: CharClass) -> (n: usize)
    requires
        from <= s@.len(),
    ensures
        n == span(s@.skip(from as int), k),
        from + n <= s@.len(),
{
    let mut i = from;
    while i < s.len() && class_holds(k, s[i])
        invariant
            from <= i <= s@.len(),
            forall|j: int| from <= j < i ==> in_class(k, #[trigger] s@[j]),
        decreases s@.len() - i,
    {
        i = i + 1;
    }
    proof {
        let t = s@.skip(from as int);
        assert forall|j: int| 0 <= j < i - from implies in_class(k, #[trigger] t[j]) by {
            assert(t[j] == s@[from + j]);
        }
        if i < s@.len() {
            assert(t[i - from] == s@[i as int]);
        }
        lemma_span_is(t, k, i - from);
    }
    i - from
}

/// An optional length as a mathematical value.
pub open spec fn opt_nat(o: Option<usize>) -> Option<nat> {
    match o {
        Some(n) => Some(n as nat),
        None => None,
    }
}

/// The outcome of a literal matcher as a mathematical value.
pub open spec fn lit_nat(r: Result<Option<usize>, LexError>) -> Result<Option<nat>, LexError> {
    match r {
        Ok(o) => Ok(opt_nat(o)),
        Err(e) => Err(e),
    }
}

// ---------------------------------------------------------------------------
// Numbers, identifiers, whitespace
// ---------------------------------------------------------------------------

/// Length of the unsigned integer at the start of `s`: the run of digits there.
/// Empty input counts as an empty number; input that starts with anything but a
/// digit has none.
pub open spec fn uint_len(s: Seq<char>) -> Option<nat> {
    if s.len() > 0 && !digit(s[0]) {
        None
    } else {
        Some(span(s, CharClass::Digit))
    }
}

fn uint_from(s: &[char], from: usize) -> (res: Option<usize>)
    requires
        from <= s@.len(),
    ensures
        opt_nat(res) == uint_len(s@.skip(from as int)),
        res matches Some(n) ==> from + n <= s@.len(),
{
    if from < s.len() && !is_digit(s[from]) {
        assert(s@.skip(from as int)[0] == s@[from as int]);
        None
    } else {
        if from < s.len() {
            assert(s@.skip(from as int)[0] == s@[from as int]);
        }
        Some(run_length(s, from, CharClass::Digit))
    }
}

/// The unsigned integer at the start of `s`, as a length; see `uint_len`.
pub fn match_uint(s: &[char]) -> (res: Option<usize>)
    ensures
        opt_nat(res) == uint_len(s@),
{
    assert(s@.skip(0) =~= s@);
    uint_from(s, 0)
}

/// Length of the identifier at the start of `s`: a letter followed by letters,
/// digits and underscores.
pub open spec fn identifier_len(s: Seq<char>) -> Option<nat> {
    if s.len() > 0 && letter(s[0]) {
        Some(1 + span(s.drop_first(), CharClass::IdentTail))
    } else {
        None
    }
}

pub fn match_identifier(s: &[char]) -> (res: Option<usize>)
    ensures
        opt_nat(res) == identifier_len(s@),
{
    if s.len() > 0 && is_letter(s[0]) {
        assert(s@.skip(1) =~= s@.drop_first());
        let n = run_length(s, 1, CharClass::IdentTail);
        Some(1 + n)
    } else {
        None
    }
}

/// Length of the whitespace run at the start of `s` (possibly empty).
pub open spec fn whitespace_len(s: Seq<char>) -> Option<nat> {
    Some(span(s, CharClass::Blank))
}

pub fn match_whitespace(s: &[char]) -> (res: Option<usize>)
    ensures
        opt_nat(res) == whitespace_len(s@),
{
    assert(s@.skip(0) =~= s@);
    Some(run_length(s, 0, CharClass::Blank))
}

/// Length of the real number at the start of `s`: digits, a point, an optional run
/// of digits, and then an optional exponent. An `e` or `E` counts as an exponent only
/// if a digit or sign follows it; a sign with no digit after it counts only at the
/// very end of the input.
pub open spec fn real_len(s: Seq<char>) -> Option<nat> {
    match uint_len(s) {
        None => None,
        Some(d) => if d >= s.len() || s[d as int] != '.' {
            None
        } else {
            match uint_len(s.skip(d + 1 as int)) {
                None => None,
                Some(f) => {
                    let e: nat = d + 1 + f;
                    if e >= s.len() || (s[e as int] != 'e' && s[e as int] != 'E') {
                        Some(e)
                    } else if e + 1 >= s.len() {
                        Some(e)
                    } else {
                        let sign = s[e + 1 as int];
                        if !digit(sign) && sign != '+' && sign != '-' {
                            Some(e)
                        } else {
                            match uint_len(s.skip(e + 2 as int)) {
                                Some(x) => Some(e + 2 + x),
                                None => if digit(sign) {
                                    Some(e + 2)
                                } else {
                                    Some(e)
                                },
                            }
                        }
                    }
                },
            }
        },
    }
}

pub fn match_real(s: &[char]) -> (res: Option<usize>)
    ensures
        opt_nat(res) == real_len(s@),
{
    let d = match match_uint(s) {
        Some(d) => d,
        None => {
            return None;
        },
    };
    proof {
        lemma_span_bounds(s@, CharClass::Digit);
    }
    if d >= s.len() || s[d] != '.' {
        return None;
    }
    let f = match uint_from(s, d + 1) {
        Some(f) => f,
        None => {
            return None;
        },
    };
    let e = d + 1 + f;
    if e >= s.len() || (s[e] != 'e' && s[e] != 'E') {
        return Some(e);
    }
    if e + 1 >= s.len() {
        return Some(e);
    }
    let sign = s[e + 1];
    if !is_digit(sign) && sign != '+' && sign != '-' {
        return Some(e);
    }
    match uint_from(s, e + 2) {
        Some(x) => Some(e + 2 + x),
        None => {
            if is_digit(sign) {
                Some(e + 2)
            } else {
                Some(e)
            }
        },
    }
}

// ---------------------------------------------------------------------------
// Character and string literals
// ---------------------------------------------------------------------------

/// Length of the character literal at the start of `s`: `'c'` or `'\x'` with an
/// escape letter `x`. Input that starts with `'` but is no such literal is an error.
pub open spec fn char_literal_len(s: Seq<char>) -> Result<Option<nat>, LexError> {
    if s.len() == 0 || s[0] != '\'' {
        Ok(None)
    } else if s.len() < 2 {
        Err(LexError::UnterminatedChar)
    } else if s[1] == '\\' {
        if s.len() < 3 {
            Err(LexError::UnterminatedChar)
        } else if !escape_char(s[2]) {
            Err(LexError::InvalidCharEscape)
        } else if s.len() < 4 || s[3] != '\'' {
            Err(LexError::UnterminatedChar)
        } else {
            Ok(Some(4))
        }
    } else if s[1] == '\'' {
        Err(LexError::EmptyChar)
    } else if s[1] == '"' {
        Err(LexError::DoubleQuoteInChar)
    } else if s.len() < 3 || s[2] != '\'' {
        Err(LexError::UnterminatedChar)
    } else {
        Ok(Some(3))
    }
}

pub fn match_char(s: &[char]) -> (res: Result<Option<usize>, LexError>)
    ensures
        lit_nat(res) == char_literal_len(s@),
{
    if s.len() == 0 || s[0] != '\'' {
        Ok(None)
    } else if s.len() < 2 {
        Err(LexError::UnterminatedChar)
    } else if s[1] == '\\' {
        if s.len() < 3 {
            Err(LexError::UnterminatedChar)
        } else if !is_escape(s[2]) {
            Err(LexError::InvalidCharEscape)
        } else if s.len() < 4 || s[3] != '\'' {
            Err(LexError::UnterminatedChar)
        } else {
            Ok(Some(4))
        }
    } else if s[1] == '\'' {
        Err(LexError::EmptyChar)
    } else if s[1] == '"' {
        Err(LexError::DoubleQuoteInChar)
    } else if s.len() < 3 || s[2] != '\'' {
        Err(LexError::UnterminatedChar)
    } else {
        Ok(Some(3))
    }
}

/// Scans the body of a string literal from position `k` on, `escaped` telling whether
/// the character before `k` was an unconsumed backslash. Gives the length of the literal
/// up to and including its closing quote.
pub open spec fn string_scan(s: Seq<char>, k: nat, escaped: bool) -> Result<nat, LexError>
    decreases s.len() - k,
{
    if k >= s.len() {
        Err(LexError::UnterminatedString)
    } else if s[k as int] == '\n' {
        Err(LexError::MultilineString)
    } else if !escaped {
        if s[k as int] == '\\' {
            string_scan(s, k + 1, true)
        } else if s[k as int] == '"' {
            Ok(k + 1)
        } else if s[k as int] == '\'' {
            Err(LexError::SingleQuoteInString)
        } else {
            string_scan(s, k + 1, false)
        }
    } else if escape_char(s[k as int]) {
        string_scan(s, k + 1, false)
    } else {
        Err(LexError::InvalidStringEscape)
    }
}

/// Length of the string literal at the start of `s`, which starts with `"`.
pub open spec fn string_literal_len(s: Seq<char>) -> Result<Option<nat>, LexError> {
    if s.len() == 0 || s[0] != '"' {
        Ok(None)
    } else {
        match string_scan(s, 1, false) {
            Ok(n) => Ok(Some(n)),
            Err(e) => Err(e),
        }
    }
}

pub proof fn lemma_string_scan_bounds(s: Seq<char>, k: nat, escaped: bool)
    ensures
        string_scan(s, k, escaped) matches Ok(n) ==> k < n <= s.len() && s[n - 1] == '"',
    decreases s.len() - k,
{
    if k < s.len() && s[k as int] != '\n' {
        if !escaped {
            if s[k as int] == '\\' {
                lemma_string_scan_bounds(s, k + 1, true);
            } else if s[k as int] != '"' && s[k as int] != '\'' {
                lemma_string_scan_bounds(s, k + 1, false);
            }
        } else if escape_char(s[k as int]) {
            lemma_string_scan_bounds(s, k + 1, false);
        }
    }
}

pub fn match_string(s: &[char]) -> (res: Result<Option<usize>, LexError>)
    ensures
        lit_nat(res) == string_literal_len(s@),
{
    if s.len() == 0 || s[0] != '"' {
        return Ok(None);
    }
    let mut k: usize = 1;
    let mut escaped = false;
    while k < s.len()
        invariant
            1 <= k <= s@.len(),
            s@[0] == '"',
            string_scan(s@, 1, false) == string_scan(s@, k as nat, escaped),
        decreases s@.len() - k,
    {
        let c = s[k];
        if c == '\n' {
            return Err(LexError::MultilineString);
        }
        if !escaped {
            if c == '\\' {
                escaped = true;
            } else if c == '"' {
                return Ok(Some(k + 1));
            } else if c == '\'' {
                return Err(LexError::SingleQuoteInString);
            }
        } else {
            if is_escape(c) {
                escaped = false;
            } else {
                return Err(LexError::InvalidStringEscape);
            }
        }
        k = k + 1;
    }
    Err(LexError::UnterminatedString)
}

// ---------------------------------------------------------------------------
// Comments
// ---------------------------------------------------------------------------

/// The first position `j >= k` where `*)` starts in `s`.
pub open spec fn find_close(s: Seq<char>, k: nat) -> Option<nat>
    decreases s.len() - k,
{
    if k + 1 >= s.len() {
        None
    } else if s[k as int] == '*' && s[k + 1 as int] == ')' {
        Some(k)
    } else {
        find_close(s, k + 1)
    }
}

pub proof fn lemma_find_close(s: Seq<char>, k: nat)
    ensures
        find_close(s, k) matches Some(j) ==> {
            &&& k <= j
            &&& j + 1 < s.len()
            &&& s[j as int] == '*'
            &&& s[j + 1 as int] == ')'
            &&& forall|i: int| k <= i < j ==> !(#[trigger] s[i] == '*' && s[i + 1] == ')')
        },
        find_close(s, k) is None ==> forall|i: int|
            k <= i && i + 1 < s.len() ==> !(#[trigger] s[i] == '*' && s[i + 1] == ')'),
    decreases s.len() - k,
{
    if k + 1 < s.len() && !(s[k as int] == '*' && s[k + 1 as int] == ')') {
        lemma_find_close(s, k + 1);
    }
}

/// Length of the comment at the start of `s`: `(*`, then everything up to and
/// including the first `*)` after it. An unclosed `(*` is no comment.
pub open spec fn comment_len(s: Seq<char>) -> Option<nat> {
    if s.len() >= 2 && s[0] == '(' && s[1] == '*' {
        match find_close(s, 2) {
            Some(j) => Some(j + 2),
            None => None,
        }
    } else {
        None
    }
}

pub fn match_comment(s: &[char]) -> (res: Option<usize>)
    ensures
        opt_nat(res) == comment_len(s@),
{
    if s.len() >= 2 && s[0] == '(' && s[1] == '*' {
        let mut k: usize = 2;
        while k < s.len() - 1
            invariant
                2 <= k <= s@.len(),
                s@.len() >= 2,
                s@[0] == '(',
                s@[1] == '*',
                find_close(s@, 2) == find_close(s@, k as nat),
            decreases s@.len() - k,
        {
            if s[k] == '*' && s[k + 1] == ')' {
                return Some(k + 2);
            }
            k = k + 1;
        }
        None
    } else {
        None
    }
}

// ---------------------------------------------------------------------------
// Keywords, operators, delimiters
// ---------------------------------------------------------------------------

pub open spec fn keyword_table() -> Seq<&'static str> {
    seq![
        "and",
        "array",
        "begin",
        "boolean",
        "char",
        "dispose",
        "div",
        "do",
        "else",
        "end",
        "false",
        "forward",
        "function",
        "goto",
        "if",
        "integer",
        "label",
        "mod",
        "new",
        "nil",
        "not",
        "of",
        "or",
        "procedure",
        "program",
        "real",
        "result",
        "return",
        "then",
        "true",
        "var",
        "while",
    ]
}

pub open spec fn operator_table() -> Seq<&'static str> {
    seq!["=", ">", "<", "<>", ">=", "<=", "+", "-", "*", "/", "^", "@"]
}

pub open spec fn delimiter_table() -> Seq<&'static str> {
    seq![":=", ";", ".", "(", ")", ":", ",", "[", "]"]
}

fn keywords() -> (v: Vec<&'static str>)
    ensures
        v@ == keyword_table(),
{
    vec![
        "and",
        "array",
        "begin",
        "boolean",
        "char",
        "dispose",
        "div",
        "do",
        "else",
        "end",
        "false",
        "forward",
        "function",
        "goto",
        "if",
        "integer",
        "label",
        "mod",
        "new",
        "nil",
        "not",
        "of",
        "or",
        "procedure",
        "program",
        "real",
        "result",
        "return",
        "then",
        "true",
        "var",
        "while",
    ]
}

fn operators() -> (v: Vec<&'static str>)
    ensures
        v@ == operator_table(),
{
    vec!["=", ">", "<", "<>", ">=", "<=", "+", "-", "*", "/", "^", "@"]
}

fn delimiters() -> (v: Vec<&'static str>)
    ensures
        v@ == delimiter_table(),
{
    vec![":=", ";", ".", "(", ")", ":", ",", "[", "]"]
}

/// Length of the first word of `words`, in table order, that `s` starts with.
pub open spec fn first_prefix(words: Seq<&'static str>, s: Seq<char>) -> Option<nat>
    decreases words.len(),
{
    if words.len() == 0 {
        None
    } else if has_prefix(s, words[0]@) {
        Some(words[0]@.len())
    } else {
        first_prefix(words.drop_first(), s)
    }
}

pub proof fn lemma_first_prefix(words: Seq<&'static str>, s: Seq<char>)
    ensures
        first_prefix(words, s) matches Some(n) ==> exists|i: int|
            0 <= i < words.len() && has_prefix(s, #[trigger] words[i]@) && n == words[i]@.len()
                && forall|j: int| 0 <= j < i ==> !has_prefix(s, #[trigger] words[j]@),
        first_prefix(words, s) is None ==> forall|i: int|
            0 <= i < words.len() ==> !has_prefix(s, #[trigger] words[i]@),
    decreases words.len(),
{
    if words.len() > 0 {
        lemma_first_prefix(words.drop_first(), s);
        if has_prefix(s, words[0]@) {
            assert(has_prefix(s, words[0]@));
        } else {
            if let Some(n) = first_prefix(words, s) {
                let i = choose|i: int|
                    0 <= i < words.drop_first().len() && has_prefix(
                        s,
                        #[trigger] words.drop_first()[i]@,
                    ) && n == words.drop_first()[i]@.len() && forall|j: int|
                        0 <= j < i ==> !has_prefix(s, #[trigger] words.drop_first()[j]@);
                assert(words[i + 1] == words.drop_first()[i]);
                assert forall|j: int| 0 <= j < i + 1 implies !has_prefix(s, #[trigger] words[j]@) by {
                    if j > 0 {
                        assert(words[j] == words.drop_first()[j - 1]);
                    }
                }
            } else {
                assert forall|i: int| 0 <= i < words.len() implies !has_prefix(
                    s,
                    #[trigger] words[i]@,
                ) by {
                    if i > 0 {
                        assert(words[i] == words.drop_first()[i - 1]);
                    }
                }
            }
        }
    }
}

fn match_first(s: &[char], words: &Vec<&'static str>) -> (res: Option<usize>)
    ensures
        opt_nat(res) == first_prefix(words@, s@),
{
    let mut i: usize = 0;
    assert(words@.skip(0) =~= words@);
    while i < words.len()
        invariant
            i <= words@.len(),
            first_prefix(words@, s@) == first_prefix(words@.skip(i as int), s@),
        decreases words@.len() - i,
    {
        let w = words[i];
        assert(words@.skip(i as int)[0] == w);
        assert(words@.skip(i as int).drop_first() =~= words@.skip(i + 1));
        if starts_with(s, w) {
            return Some(w.unicode_len());
        }
        i = i + 1;
    }
    None
}

/// Length of the first keyword of the table that `s` starts with.
pub open spec fn keyword_len(s: Seq<char>) -> Option<nat> {
    first_prefix(keyword_table(), s)
}

/// Length of the first operator of the table that `s` starts with.
pub open spec fn operator_len(s: Seq<char>) -> Option<nat> {
    first_prefix(operator_table(), s)
}

/// Length of the first delimiter of the table that `s` starts with.
pub open spec fn delimiter_len(s: Seq<char>) -> Option<nat> {
    first_prefix(delimiter_table(), s)
}

pub fn match_keyword(s: &[char]) -> (res: Option<usize>)
    ensures
        opt_nat(res) == keyword_len(s@),
{
    let words = keywords();
    match_first(s, &words)
}

pub fn match_operator(s: &[char]) -> (res: Option<usize>)
    ensures
        opt_nat(res) == operator_len(s@),
{
    let words = operators();
    match_first(s, &words)
}

pub fn match_delimiter(s: &[char]) -> (res: Option<usize>)
    ensures
        opt_nat(res) == delimiter_len(s@),
{
    let words = delimiters();
    match_first(s, &words)
}

// ---------------------------------------------------------------------------
// Choosing the token
// ---------------------------------------------------------------------------

/// One step of the choice: a candidate replaces the current choice only when it is
/// strictly longer, so among equally long candidates the earlier one is kept.
pub open spec fn prefer(cur: (TokenKind, nat), cand: (Option<nat>, TokenKind)) -> (TokenKind, nat) {
    match cand.0 {
        Some(n) => if n > cur.1 {
            (cand.1, n)
        } else {
            cur
        },
        None => cur,
    }
}

/// The choice among `cands`, taken in order, starting from an `Error` of length 0.
pub open spec fn best(cands: Seq<(Option<nat>, TokenKind)>) -> (TokenKind, nat)
    decreases cands.len(),
{
    if cands.len() == 0 {
        (TokenKind::Error, 0)
    } else {
        prefer(best(cands.drop_last()), cands.last())
    }
}

/// What each matcher measures at the start of `s`, in priority order; `ch` and `st` are
/// the lengths of the character and string literals there.
pub open spec fn candidates(s: Seq<char>, ch: Option<nat>, st: Option<nat>) -> Seq<
    (Option<nat>, TokenKind),
> {
    seq![
        (keyword_len(s), TokenKind::Keyword),
        (identifier_len(s), TokenKind::Identifier),
        (uint_len(s), TokenKind::Int),
        (real_len(s), TokenKind::Real),
        (ch, TokenKind::Char),
        (st, TokenKind::String),
        (operator_len(s), TokenKind::Operator),
        (delimiter_len(s), TokenKind::Delimiter),
        (whitespace_len(s), TokenKind::Whitespace),
        (comment_len(s), TokenKind::Comment),
    ]
}

/// The token at the start of `s` and its length: the longest of all matches, the
/// earliest in priority order among equally long ones, and `Error` with length 0 where
/// nothing matches. A malformed character or string literal is an error.
pub open spec fn scan(s: Seq<char>) -> Result<(TokenKind, nat), LexError> {
    match char_literal_len(s) {
        Err(e) => Err(e),
        Ok(ch) => match string_literal_len(s) {
            Err(e) => Err(e),
            Ok(st) => Ok(best(candidates(s, ch, st))),
        },
    }
}

fn prefer_exec(cur: (TokenKind, usize), m: Option<usize>, k: TokenKind) -> (r: (TokenKind, usize))
    ensures
        r.0 == prefer((cur.0, cur.1 as nat), (opt_nat(m), k)).0,
        r.1 == prefer((cur.0, cur.1 as nat), (opt_nat(m), k)).1,
{
    match m {
        Some(n) => if n > cur.1 {
            (k, n)
        } else {
            cur
        },
        None => cur,
    }
}

/// Picks the token at the start of `s`; see `scan`.
pub fn scan_token(s: &[char]) -> (res: Result<(TokenKind, usize), LexError>)
    ensures
        match scan(s@) {
            Ok((k, n)) => res == Ok::<(TokenKind, usize), LexError>((k, n as usize)) && n <= s@.len(),
            Err(e) => res == Err::<(TokenKind, usize), LexError>(e),
        },
{
    let ch = match match_char(s) {
        Ok(o) => o,
        Err(e) => {
            return Err(e);
        },
    };
    let st = match match_string(s) {
        Ok(o) => o,
        Err(e) => {
            return Err(e);
        },
    };
    let cands: Vec<(Option<usize>, TokenKind)> = vec![
        (match_keyword(s), TokenKind::Keyword),
        (match_identifier(s), TokenKind::Identifier),
        (match_uint(s), TokenKind::Int),
        (match_real(s), TokenKind::Real),
        (ch, TokenKind::Char),
        (st, TokenKind::String),
        (match_operator(s), TokenKind::Operator),
        (match_delimiter(s), TokenKind::Delimiter),
        (match_whitespace(s), TokenKind::Whitespace),
        (match_comment(s), TokenKind::Comment),
    ];
    let ghost spec_cands = candidates(s@, opt_nat(ch), opt_nat(st));
    assert(cands@.len() == spec_cands.len());
    assert forall|j: int| 0 <= j < cands@.len() implies opt_nat(#[trigger] cands@[j].0)
        == spec_cands[j].0 && cands@[j].1 == spec_cands[j].1 by {}
    let mut cur: (TokenKind, usize) = (TokenKind::Error, 0);
    let mut i: usize = 0;
    while i < cands.len()
        invariant
            i <= cands@.len(),
            cands@.len() == spec_cands.len(),
            forall|j: int| 0 <= j < cands@.len() ==> opt_nat(#[trigger] cands@[j].0) == spec_cands[j].0
                && cands@[j].1 == spec_cands[j].1,
            best(spec_cands.take(i as int)) == (cur.0, cur.1 as nat),
        decreases cands@.len() - i,
    {
        let (m, k) = cands[i];
        assert(spec_cands.take(i + 1).drop_last() =~= spec_cands.take(i as int));
        cur = prefer_exec(cur, m, k);
        i = i + 1;
    }
    assert(spec_cands.take(cands@.len() as int) =~= spec_cands);
    proof {
        lemma_scan_bounds(s@);
    }
    Ok(cur)
}

/// Every candidate measured at the start of `s` fits inside `s`.
pub proof fn lemma_candidates_fit(s: Seq<char>)
    ensures
        scan(s) is Ok ==> forall|j: int| 0 <= j < 10 ==> ((#[trigger] candidates(
            s,
            char_literal_len(s)->Ok_0,
            string_literal_len(s)->Ok_0,
        )[j]).0 matches Some(n) ==> n <= s.len()),
{
    lemma_first_prefix(keyword_table(), s);
    lemma_first_prefix(operator_table(), s);
    lemma_first_prefix(delimiter_table(), s);
    lemma_span_bounds(s, CharClass::Digit);
    lemma_span_bounds(s.drop_first(), CharClass::IdentTail);
    lemma_span_bounds(s, CharClass::Blank);
    lemma_string_scan_bounds(s, 1, false);
    lemma_find_close(s, 2);
    lemma_real_fits(s);
}

proof fn lemma_real_fits(s: Seq<char>)
    ensures
        real_len(s) matches Some(n) ==> n <= s.len(),
{
    if let Some(d) = uint_len(s) {
        lemma_span_bounds(s, CharClass::Digit);
        if d < s.len() && s[d as int] == '.' {
            lemma_span_bounds(s.skip(d + 1 as int), CharClass::Digit);
            if let Some(f) = uint_len(s.skip(d + 1 as int)) {
                let e: nat = d + 1 + f;
                if e + 2 <= s.len() {
                    lemma_span_bounds(s.skip(e + 2 as int), CharClass::Digit);
                }
            }
        }
    }
}

/// The choice among candidates that all fit in `len` fits in `len`, and it has kind
/// `Error` exactly when its length is 0.
pub proof fn lemma_best_bounds(cands: Seq<(Option<nat>, TokenKind)>, len: nat)
    requires
        forall|j: int| 0 <= j < cands.len() ==> ((#[trigger] cands[j]).0 matches Some(n) ==> n <= len),
        forall|j: int| 0 <= j < cands.len() ==> (#[trigger] cands[j]).1 != TokenKind::Error,
        forall|j: int| 0 <= j < cands.len() ==> (#[trigger] cands[j]).1 != TokenKind::EOF,
    ensures
        best(cands).1 <= len,
        best(cands).0 != TokenKind::EOF,
        (best(cands).0 == TokenKind::Error) <==> best(cands).1 == 0,
    decreases cands.len(),
{
    if cands.len() > 0 {
        lemma_best_bounds(cands.drop_last(), len);
        assert(cands.last() == cands[cands.len() - 1]);
    }
}

/// A scanned token lies inside the input, and it is empty exactly when nothing matched.
pub proof fn lemma_scan_bounds(s: Seq<char>)
    ensures
        scan(s) matches Ok((k, n)) ==> n <= s.len() && ((k == TokenKind::Error) <==> n == 0) && k
            != TokenKind::EOF,
{
    if scan(s) is Ok {
        let c = candidates(s, char_literal_len(s)->Ok_0, string_literal_len(s)->Ok_0);
        lemma_candidates_fit(s);
        assert forall|j: int| 0 <= j < c.len() implies ((#[trigger] c[j]).0 matches Some(n) ==> n <= s.len()) by {
            assert(c[j] == candidates(s, char_literal_len(s)->Ok_0, string_literal_len(s)->Ok_0)[j]);
        }
        lemma_best_bounds(c, s.len());
    }
}

// ---------------------------------------------------------------------------
// Laws of the choice
// ---------------------------------------------------------------------------

/// The choice is the longest candidate, and the earliest of the longest ones.
pub proof fn lemma_best_is_longest(cands: Seq<(Option<nat>, TokenKind)>)
    requires
        forall|j: int| 0 <= j < cands.len() ==> (#[trigger] cands[j]).1 != TokenKind::Error,
    ensures
        forall|j: int|
            0 <= j < cands.len() ==> ((#[trigger] cands[j]).0 matches Some(m) ==> m <= best(cands).1),
        best(cands).0 != TokenKind::Error ==> exists|j: int|
            0 <= j < cands.len() && #[trigger] cands[j] == (Some(best(cands).1), best(cands).0)
                && forall|i: int|
                0 <= i < j ==> ((#[trigger] cands[i]).0 matches Some(m) ==> m < best(cands).1),
    decreases cands.len(),
{
    if cands.len() > 0 {
        let init = cands.drop_last();
        lemma_best_is_longest(init);
        let b = best(init);
        let last = cands.last();
        assert(last == cands[cands.len() - 1]);
        assert forall|j: int| 0 <= j < cands.len() - 1 implies #[trigger] cands[j] == init[j] by {}
        if let Some(m) = last.0 {
            if m > b.1 {
                assert forall|i: int| 0 <= i < cands.len() - 1 implies ((#[trigger] cands[i]).0 matches Some(
                    x,
                ) ==> x < best(cands).1) by {
                    assert(cands[i] == init[i]);
                }
                assert(cands[cands.len() - 1] == (Some(best(cands).1), best(cands).0));
            } else {
                if b.0 != TokenKind::Error {
                    let j = choose|j: int|
                        0 <= j < init.len() && #[trigger] init[j] == (Some(b.1), b.0) && forall|i: int|
                            0 <= i < j ==> ((#[trigger] init[i]).0 matches Some(m) ==> m < b.1);
                    assert(cands[j] == init[j]);
                    assert forall|i: int| 0 <= i < j implies ((#[trigger] cands[i]).0 matches Some(
                        x,
                    ) ==> x < best(cands).1) by {
                        assert(cands[i] == init[i]);
                    }
                }
            }
        } else {
            if b.0 != TokenKind::Error {
                let j = choose|j: int|
                    0 <= j < init.len() && #[trigger] init[j] == (Some(b.1), b.0) && forall|i: int|
                        0 <= i < j ==> ((#[trigger] init[i]).0 matches Some(m) ==> m < b.1);
                assert(cands[j] == init[j]);
                assert forall|i: int| 0 <= i < j implies ((#[trigger] cands[i]).0 matches Some(x)
                    ==> x < best(cands).1) by {
                    assert(cands[i] == init[i]);
                }
            }
        }
    }
}

/// Longest match, ties to priority: the token taken at the start of `s` is at least as
/// long as every match of every matcher there, and of the matchers whose match is that
/// long it is the first in priority order (keyword, identifier, integer, real,
/// character, string, operator, delimiter, whitespace, comment).
pub proof fn lemma_longest_match(s: Seq<char>)
    ensures
        scan(s) matches Ok((k, n)) ==> {
            let c = candidates(s, char_literal_len(s)->Ok_0, string_literal_len(s)->Ok_0);
            &&& forall|j: int| 0 <= j < c.len() ==> ((#[trigger] c[j]).0 matches Some(m) ==> m <= n)
            &&& k != TokenKind::Error ==> exists|j: int|
                0 <= j < c.len() && #[trigger] c[j] == (Some(n), k) && forall|i: int|
                    0 <= i < j ==> ((#[trigger] c[i]).0 matches Some(m) ==> m < n)
        },
{
    if scan(s) is Ok {
        let c = candidates(s, char_literal_len(s)->Ok_0, string_literal_len(s)->Ok_0);
        lemma_best_is_longest(c);
    }
}

/// Whether `t` is a well-formed lexeme of kind `k`.
pub open spec fn token_shape(k: TokenKind, t: Seq<char>) -> bool {
    match k {
        TokenKind::Keyword => in_table(keyword_table(), t),
        TokenKind::Identifier => t.len() > 0 && letter(t[0]) && forall|j: int|
            1 <= j < t.len() ==> ident_char(#[trigger] t[j]),
        TokenKind::Int => t.len() > 0 && forall|j: int| 0 <= j < t.len() ==> digit(#[trigger] t[j]),
        TokenKind::Real => t.len() > 0 && digit(t[0]) && exists|j: int|
            0 <= j < t.len() && #[trigger] t[j] == '.',
        TokenKind::Char => (t.len() == 3 || t.len() == 4) && t[0] == '\'' && t[t.len() - 1] == '\'',
        TokenKind::String => t.len() >= 2 && t[0] == '"' && t[t.len() - 1] == '"',
        TokenKind::Operator => in_table(operator_table(), t),
        TokenKind::Delimiter => in_table(delimiter_table(), t),
        TokenKind::Whitespace => t.len() > 0 && forall|j: int|
            0 <= j < t.len() ==> blank(#[trigger] t[j]),
        TokenKind::Comment => t.len() >= 4 && t[0] == '(' && t[1] == '*' && t[t.len() - 2] == '*'
            && t[t.len() - 1] == ')',
        TokenKind::EOF => t.len() == 0,
        TokenKind::Error => false,
    }
}

proof fn lemma_table_word(words: Seq<&'static str>, s: Seq<char>)
    ensures
        first_prefix(words, s) matches Some(n) ==> in_table(words, s.take(n as int)),
{
    lemma_first_prefix(words, s);
    if let Some(n) = first_prefix(words, s) {
        let i = choose|i: int|
            0 <= i < words.len() && has_prefix(s, #[trigger] words[i]@) && n == words[i]@.len()
                && forall|j: int| 0 <= j < i ==> !has_prefix(s, #[trigger] words[j]@);
        assert(s.take(n as int) =~= s.subrange(0, n as int));
        assert(words[i]@ == s.take(n as int));
    }
}

/// Every token taken at the start of `s` is a well-formed lexeme of its kind.
pub proof fn lemma_scan_shape(s: Seq<char>)
    ensures
        scan(s) matches Ok((k, n)) ==> k != TokenKind::Error ==> token_shape(k, s.take(n as int)),
{
    if let Ok((k, n)) = scan(s) {
        if k != TokenKind::Error {
            lemma_longest_match(s);
            lemma_scan_bounds(s);
            let c = candidates(s, char_literal_len(s)->Ok_0, string_literal_len(s)->Ok_0);
            let j = choose|j: int|
                0 <= j < c.len() && #[trigger] c[j] == (Some(n), k) && forall|i: int|
                    0 <= i < j ==> ((#[trigger] c[i]).0 matches Some(m) ==> m < n);
            let t = s.take(n as int);
            if j == 0 {
                lemma_table_word(keyword_table(), s);
            } else if j == 1 {
                lemma_span_bounds(s.drop_first(), CharClass::IdentTail);
                assert forall|i: int| 1 <= i < t.len() implies ident_char(#[trigger] t[i]) by {
                    assert(t[i] == s.drop_first()[i - 1]);
                }
            } else if j == 2 {
                lemma_span_bounds(s, CharClass::Digit);
                assert forall|i: int| 0 <= i < t.len() implies digit(#[trigger] t[i]) by {
                    assert(t[i] == s[i]);
                }
            } else if j == 3 {
                lemma_span_bounds(s, CharClass::Digit);
                let d = uint_len(s)->Some_0;
                lemma_span_bounds(s.skip(d + 1 as int), CharClass::Digit);
                assert(t[d as int] == '.');
            } else if j == 4 {
            } else if j == 5 {
                lemma_string_scan_bounds(s, 1, false);
            } else if j == 6 {
                lemma_table_word(operator_table(), s);
            } else if j == 7 {
                lemma_table_word(delimiter_table(), s);
            } else if j == 8 {
                lemma_span_bounds(s, CharClass::Blank);
                assert forall|i: int| 0 <= i < t.len() implies blank(#[trigger] t[i]) by {
                    assert(t[i] == s[i]);
                }
            } else {
                lemma_find_close(s, 2);
            }
        }
    }
}

// ---------------------------------------------------------------------------
// Laws of the matchers, stated over the characters of the input
// ---------------------------------------------------------------------------

/// Whether every character of `s` at positions `a..b` is one of `0`..`9`.
pub open spec fn decimal_run(s: Seq<char>, a: int, b: int) -> bool {
    forall|i: int| a <= i < b ==> '0' <= #[trigger] s[i] <= '9'
}

/// Whether `c` is not one of `0`..`9`.
pub open spec fn not_decimal(c: char) -> bool {
    !('0' <= c <= '9')
}

/// A run of digits at `a..b` that nothing extends gives the integer matcher, from `a`
/// on, exactly `b - a` characters.
proof fn lemma_digit_run(s: Seq<char>, a: int, b: int)
    requires
        0 <= a <= b <= s.len(),
        decimal_run(s, a, b),
        b == s.len() || not_decimal(s[b]),
        b > a || a == s.len(),
    ensures
        uint_len(s.skip(a)) == Some((b - a) as nat),
{
    let t = s.skip(a);
    assert forall|j: int| 0 <= j < b - a implies in_class(CharClass::Digit, #[trigger] t[j]) by {
        assert(t[j] == s[a + j]);
    }
    if b < s.len() {
        assert(t[b - a] == s[b]);
    }
    if b > a {
        assert(t[0] == s[a]);
    }
    lemma_span_is(t, CharClass::Digit, b - a);
}

/// A comment runs from `(*` to the first `*)` after it, whatever lies between,
/// line breaks included.
pub proof fn lemma_comment_extent(s: Seq<char>, j: int)
    requires
        s.len() >= 2,
        s[0] == '(',
        s[1] == '*',
        2 <= j,
        j + 1 < s.len(),
        s[j] == '*',
        s[j + 1] == ')',
        forall|i: int| 2 <= i < j ==> !(#[trigger] s[i] == '*' && s[i + 1] == ')'),
    ensures
        comment_len(s) == Some((j + 2) as nat),
{
    lemma_find_close(s, 2);
    if let Some(k) = find_close(s, 2) {
        if k < j {
            assert(s[k as int] == '*' && s[k + 1 as int] == ')');
        }
        if k > j {
            assert(!(s[j] == '*' && s[j + 1] == ')'));
        }
    } else {
        assert(!(s[j] == '*' && s[j + 1] == ')'));
    }
}

/// Without `(*` at the start, or without any `*)` after it, there is no comment.
pub proof fn lemma_comment_needs_both_ends(s: Seq<char>)
    ensures
        !(s.len() >= 2 && s[0] == '(' && s[1] == '*') ==> comment_len(s) is None,
        (forall|i: int| 2 <= i && i + 1 < s.len() ==> !(#[trigger] s[i] == '*' && s[i + 1] == ')'))
            ==> comment_len(s) is None,
{
    lemma_find_close(s, 2);
    if let Some(k) = find_close(s, 2) {
        assert(s[k as int] == '*' && s[k + 1 as int] == ')');
    }
}

/// An identifier starts exactly where a lower- or upper-case letter does, and it runs
/// over the letters, digits and underscores after it.
pub proof fn lemma_identifier_extent(s: Seq<char>, n: int)
    requires
        1 <= n <= s.len(),
        ('a' <= s[0] <= 'z') || ('A' <= s[0] <= 'Z'),
        forall|i: int|
            1 <= i < n ==> ('a' <= #[trigger] s[i] <= 'z') || ('A' <= s[i] <= 'Z') || ('0' <= s[i]
                <= '9') || s[i] == '_',
        n == s.len() || !(('a' <= s[n] <= 'z') || ('A' <= s[n] <= 'Z') || ('0' <= s[n] <= '9')
            || s[n] == '_'),
    ensures
        identifier_len(s) == Some(n as nat),
{
    let t = s.drop_first();
    assert forall|j: int| 0 <= j < n - 1 implies in_class(CharClass::IdentTail, #[trigger] t[j]) by {
        assert(t[j] == s[j + 1]);
    }
    if n < s.len() {
        assert(t[n - 1] == s[n]);
    }
    lemma_span_is(t, CharClass::IdentTail, n - 1);
}

/// Only a letter, lower or upper case, starts an identifier.
pub proof fn lemma_identifier_start(s: Seq<char>)
    ensures
        identifier_len(s) is Some <==> (s.len() > 0 && (('a' <= s[0] <= 'z') || ('A' <= s[0]
            <= 'Z'))),
{
}

/// A real without exponent: digits, `.`, then at least one digit (or the end of the
/// input), then anything but `e`/`E`; the match ends after the fraction digits.
pub proof fn lemma_real_plain(s: Seq<char>, d: int, f: int)
    requires
        1 <= d,
        d + 1 + f <= s.len(),
        0 <= f,
        f >= 1 || d + 1 == s.len(),
        decimal_run(s, 0, d),
        s[d] == '.',
        decimal_run(s, d + 1, d + 1 + f),
        d + 1 + f == s.len() || (not_decimal(s[d + 1 + f]) && s[d + 1 + f] != 'e' && s[d + 1
            + f] != 'E'),
    ensures
        real_len(s) == Some((d + 1 + f) as nat),
{
    lemma_digit_run(s, 0, d);
    assert(s.skip(0) =~= s);
    lemma_digit_run(s, d + 1, d + 1 + f);
}

/// A real with a signed exponent: digits, `.`, at least one digit, `e` or `E`, `+` or `-`, and a
/// run of `k >= 1` digits; the match covers the whole run.
pub proof fn lemma_real_signed_exponent(s: Seq<char>, d: int, f: int, k: int)
    requires
        1 <= d,
        1 <= f,
        1 <= k,
        d + 3 + f + k <= s.len(),
        decimal_run(s, 0, d),
        s[d] == '.',
        decimal_run(s, d + 1, d + 1 + f),
        s[d + 1 + f] == 'e' || s[d + 1 + f] == 'E',
        s[d + 2 + f] == '+' || s[d + 2 + f] == '-',
        decimal_run(s, d + 3 + f, d + 3 + f + k),
        d + 3 + f + k == s.len() || not_decimal(s[d + 3 + f + k]),
    ensures
        real_len(s) == Some((d + 3 + f + k) as nat),
{
    lemma_digit_run(s, 0, d);
    assert(s.skip(0) =~= s);
    lemma_digit_run(s, d + 1, d + 1 + f);
    lemma_digit_run(s, d + 3 + f, d + 3 + f + k);
}

/// A real with an unsigned exponent: digits, `.`, at least one digit, `e` or `E`, and a run of
/// `k >= 1` digits; the match covers the whole run.
pub proof fn lemma_real_digit_exponent(s: Seq<char>, d: int, f: int, k: int)
    requires
        1 <= d,
        1 <= f,
        1 <= k,
        d + 2 + f + k <= s.len(),
        decimal_run(s, 0, d),
        s[d] == '.',
        decimal_run(s, d + 1, d + 1 + f),
        s[d + 1 + f] == 'e' || s[d + 1 + f] == 'E',
        decimal_run(s, d + 2 + f, d + 2 + f + k),
        d + 2 + f + k == s.len() || not_decimal(s[d + 2 + f + k]),
    ensures
        real_len(s) == Some((d + 2 + f + k) as nat),
{
    lemma_digit_run(s, 0, d);
    assert(s.skip(0) =~= s);
    lemma_digit_run(s, d + 1, d + 1 + f);
    if k > 1 {
        lemma_digit_run(s, d + 3 + f, d + 2 + f + k);
    } else if d + 3 + f == s.len() {
        lemma_digit_run(s, d + 3 + f, d + 3 + f);
    } else {
        assert(s.skip(d + 3 + f)[0] == s[d + 3 + f]);
    }
}

/// Without digits, a point, and digits or the end after it, there is no real.
pub proof fn lemma_real_needs_point(s: Seq<char>)
    ensures
        real_len(s) matches Some(n) ==> {
            &&& n >= 2
            &&& '0' <= s[0] <= '9'
            &&& exists|i: int| 1 <= i < n && #[trigger] s[i] == '.' && decimal_run(s, 0, i)
        },
{
    if let Some(n) = real_len(s) {
        lemma_span_bounds(s, CharClass::Digit);
        let d = uint_len(s)->Some_0;
        lemma_real_fits(s);
        assert(decimal_run(s, 0, d as int));
        assert(s[d as int] == '.');
    }
}

/// An unsigned integer is the whole run of digits at the start.
pub proof fn lemma_uint_extent(s: Seq<char>, n: int)
    requires
        1 <= n <= s.len(),
        decimal_run(s, 0, n),
        n == s.len() || not_decimal(s[n]),
    ensures
        uint_len(s) == Some(n as nat),
{
    lemma_digit_run(s, 0, n);
    assert(s.skip(0) =~= s);
}

/// Whitespace is the whole run of spaces, tabs, line feeds and carriage returns at the
/// start.
pub proof fn lemma_whitespace_extent(s: Seq<char>, n: int)
    requires
        0 <= n <= s.len(),
        forall|i: int|
            0 <= i < n ==> (#[trigger] s[i] == ' ' || s[i] == '\t' || s[i] == '\n' || s[i] == '\r'),
        n == s.len() || !(s[n] == ' ' || s[n] == '\t' || s[n] == '\n' || s[n] == '\r'),
    ensures
        whitespace_len(s) == Some(n as nat),
{
    lemma_span_is(s, CharClass::Blank, n);
}

/// Whether `s` begins with the text `w`, character for character.
pub open spec fn begins_with(s: Seq<char>, w: Seq<char>) -> bool {
    w.len() <= s.len() && forall|i: int| 0 <= i < w.len() ==> #[trigger] s[i] == w[i]
}

proof fn lemma_begins_with(s: Seq<char>, w: Seq<char>)
    ensures
        begins_with(s, w) == has_prefix(s, w),
{
    if begins_with(s, w) {
        assert(s.subrange(0, w.len() as int) =~= w);
    }
    if has_prefix(s, w) {
        assert forall|i: int| 0 <= i < w.len() implies #[trigger] s[i] == w[i] by {
            assert(s.subrange(0, w.len() as int)[i] == s[i]);
        }
    }
}

/// A table matcher takes the first word of its table, in table order, that the input
/// begins with, and measures that word; it matches nothing if no word fits.
pub proof fn lemma_table_match(words: Seq<&'static str>, s: Seq<char>)
    ensures
        (first_prefix(words, s) is Some) <==> exists|i: int|
            0 <= i < words.len() && begins_with(s, #[trigger] words[i]@),
        first_prefix(words, s) matches Some(n) ==> exists|i: int|
            0 <= i < words.len() && begins_with(s, #[trigger] words[i]@) && n == words[i]@.len()
                && forall|j: int| 0 <= j < i ==> !begins_with(s, #[trigger] words[j]@),
{
    lemma_first_prefix(words, s);
    assert forall|i: int| 0 <= i < words.len() implies begins_with(s, #[trigger] words[i]@)
        == has_prefix(s, words[i]@) by {
        lemma_begins_with(s, words[i]@);
    }
}

/// The keyword matcher takes the first keyword of the table that the input begins with.
pub proof fn lemma_keyword_match(s: Seq<char>)
    ensures
        (keyword_len(s) is Some) <==> exists|i: int|
            0 <= i < keyword_table().len() && begins_with(s, #[trigger] keyword_table()[i]@),
        keyword_len(s) matches Some(n) ==> exists|i: int|
            0 <= i < keyword_table().len() && begins_with(s, #[trigger] keyword_table()[i]@) && n
                == keyword_table()[i]@.len() && forall|j: int|
                0 <= j < i ==> !begins_with(s, #[trigger] keyword_table()[j]@),
{
    lemma_table_match(keyword_table(), s);
}

/// The operator matcher takes the first operator of the table that the input begins with.
pub proof fn lemma_operator_match(s: Seq<char>)
    ensures
        (operator_len(s) is Some) <==> exists|i: int|
            0 <= i < operator_table().len() && begins_with(s, #[trigger] operator_table()[i]@),
        operator_len(s) matches Some(n) ==> exists|i: int|
            0 <= i < operator_table().len() && begins_with(s, #[trigger] operator_table()[i]@) && n
                == operator_table()[i]@.len() && forall|j: int|
                0 <= j < i ==> !begins_with(s, #[trigger] operator_table()[j]@),
{
    lemma_table_match(operator_table(), s);
}

/// The delimiter matcher takes the first delimiter of the table that the input begins
/// with.
pub proof fn lemma_delimiter_match(s: Seq<char>)
    ensures
        (delimiter_len(s) is Some) <==> exists|i: int|
            0 <= i < delimiter_table().len() && begins_with(s, #[trigger] delimiter_table()[i]@),
        delimiter_len(s) matches Some(n) ==> exists|i: int|
            0 <= i < delimiter_table().len() && begins_with(s, #[trigger] delimiter_table()[i]@)
                && n == delimiter_table()[i]@.len() && forall|j: int|
                0 <= j < i ==> !begins_with(s, #[trigger] delimiter_table()[j]@),
{
    lemma_table_match(delimiter_table(), s);
}

/// A character literal is a quote, one character other than a quote, double quote or
/// backslash, and a closing quote; or a quote, a backslash, an escape letter, and a
/// closing quote.
pub proof fn lemma_char_literal_forms(s: Seq<char>)
    ensures
        (s.len() >= 3 && s[0] == '\'' && s[2] == '\'' && s[1] != '\'' && s[1] != '"' && s[1]
            != '\\') ==> char_literal_len(s) == Ok::<Option<nat>, LexError>(Some(3)),
        (s.len() >= 4 && s[0] == '\'' && s[1] == '\\' && s[3] == '\'' && (s[2] == 'n' || s[2]
            == 't' || s[2] == 'r' || s[2] == '0' || s[2] == '\\' || s[2] == '\'' || s[2] == '"'))
            ==> char_literal_len(s) == Ok::<Option<nat>, LexError>(Some(4)),
        (s.len() == 0 || s[0] != '\'') ==> char_literal_len(s) == Ok::<Option<nat>, LexError>(None),
        (s.len() >= 2 && s[0] == '\'' && s[1] == '\'') ==> char_literal_len(s) == Err::<
            Option<nat>,
            LexError,
        >(LexError::EmptyChar),
{
}

/// A string literal with no backslash, quote or line break inside runs to its closing
/// double quote; one that reaches the end of the input unclosed is an error.
pub proof fn lemma_string_literal_plain(s: Seq<char>, n: int)
    requires
        2 <= n <= s.len(),
        s[0] == '"',
        s[n - 1] == '"',
        forall|i: int|
            1 <= i < n - 1 ==> #[trigger] s[i] != '"' && s[i] != '\\' && s[i] != '\'' && s[i]
                != '\n',
    ensures
        string_literal_len(s) == Ok::<Option<nat>, LexError>(Some(n as nat)),
{
    lemma_plain_scan(s, n, 1);
}

proof fn lemma_plain_scan(s: Seq<char>, n: int, k: int)
    requires
        1 <= k <= n - 1,
        n <= s.len(),
        s[n - 1] == '"',
        forall|i: int|
            1 <= i < n - 1 ==> #[trigger] s[i] != '"' && s[i] != '\\' && s[i] != '\'' && s[i]
                != '\n',
    ensures
        string_scan(s, k as nat, false) == Ok::<nat, LexError>(n as nat),
    decreases n - k,
{
    if k < n - 1 {
        lemma_plain_scan(s, n, k + 1);
    }
}

/// A string literal ends with a double quote, after the opening one.
pub proof fn lemma_string_literal_closed(s: Seq<char>)
    ensures
        string_literal_len(s) matches Ok(Some(n)) ==> 2 <= n <= s.len() && s[0] == '"' && s[n - 1]
            == '"',
{
    lemma_string_scan_bounds(s, 1, false);
}

} // verus!
