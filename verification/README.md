# pcl

Front end for a small Pascal-like teaching language, verified with Verus.

- `src/token.rs`: token kinds, tokens, lexing errors.
- `src/scan.rs`: one matcher per kind of token, each measuring the token at the start of
  the input, and `scan_token`, which takes the longest match (ties go to the kind listed
  first). Laws: longest match, well-formed lexemes.
- `src/lexer.rs`: the `Lexer`, which reads token after token and tracks line and column;
  `lex` reads the whole input. Laws: the lexemes rebuild the input, the last token is
  `EOF`, lexing does not depend on the start position, the line count follows the line
  breaks.
- `src/parser.rs`: the `Parser` cursor over the tokens, `expect` and the operator checks,
  and the beginnings of the grammar rules.
- `src/text.rs`: character-level helpers on `str`.
- `app/main.rs`: reads standard input, prints each token as it is lexed, and drops the
  whitespace.
