use minilex::lexer::Lexer;
use minilex::lexer::lexeme;
use minilex::lexer::tokens;
use minilex::token::LexError;
use minilex::token::Token;
use minilex::token::TokenKind;

fn next_ok(lexer: &mut Lexer) -> Token {
    lexer.next_token().unwrap()
}

#[test]
fn single_line_stmt() {
    let source = String::from("foo: double = .12");
    let bytes = source.as_bytes();
    let mut scanner = Lexer::new(bytes);

    let t = next_ok(&mut scanner);
    assert_eq!(t, Token { kind: TokenKind::Identifier, start: 0, end: 3, line: 1 });
    assert_eq!(&source[t.start..t.end], "foo");

    let t = next_ok(&mut scanner);
    assert_eq!(t, Token { kind: TokenKind::Colon, start: 3, end: 4, line: 1 });
    assert_eq!(&source[t.start..t.end], ":");

    let t = next_ok(&mut scanner);
    assert_eq!(t, Token { kind: TokenKind::Identifier, start: 5, end: 11, line: 1 });
    assert_eq!(&source[t.start..t.end], "double");

    let t = next_ok(&mut scanner);
    assert_eq!(t, Token { kind: TokenKind::Equal, start: 12, end: 13, line: 1 });
    assert_eq!(&source[t.start..t.end], "=");

    let t = next_ok(&mut scanner);
    assert_eq!(t, Token { kind: TokenKind::Number, start: 14, end: 17, line: 1 });
    assert_eq!(&source[t.start..t.end], ".12");

    let t = next_ok(&mut scanner);
    assert_eq!(t, Token { kind: TokenKind::EndOfInput, start: 17, end: 17, line: 1 });
}

#[test]
fn ignore_initial_line_breaks() {
    let source = String::from("\n\nbar: int = 100");
    let bytes = source.as_bytes();
    let mut scanner = Lexer::new(bytes);

    let t = next_ok(&mut scanner);
    assert_eq!(t, Token { kind: TokenKind::Identifier, start: 2, end: 5, line: 3 });
    assert_eq!(&source[t.start..t.end], "bar");

    let t = next_ok(&mut scanner);
    assert_eq!(t, Token { kind: TokenKind::Colon, start: 5, end: 6, line: 3 });
    assert_eq!(&source[t.start..t.end], ":");

    let t = next_ok(&mut scanner);
    assert_eq!(t, Token { kind: TokenKind::Identifier, start: 7, end: 10, line: 3 });
    assert_eq!(&source[t.start..t.end], "int");

    let t = next_ok(&mut scanner);
    assert_eq!(t, Token { kind: TokenKind::Equal, start: 11, end: 12, line: 3 });
    assert_eq!(&source[t.start..t.end], "=");

    let t = next_ok(&mut scanner);
    assert_eq!(t, Token { kind: TokenKind::Number, start: 13, end: 16, line: 3 });
    assert_eq!(&source[t.start..t.end], "100");
}

#[test]
fn scan_string() {
    let source = String::from("bar: string = \"hello world\"");
    let bytes = source.as_bytes();
    let mut scanner = Lexer::new(bytes);

    let t = next_ok(&mut scanner);
    assert_eq!(t, Token { kind: TokenKind::Identifier, start: 0, end: 3, line: 1 });
    assert_eq!(&source[t.start..t.end], "bar");

    let t = next_ok(&mut scanner);
    assert_eq!(t, Token { kind: TokenKind::Colon, start: 3, end: 4, line: 1 });
    assert_eq!(&source[t.start..t.end], ":");

    let t = next_ok(&mut scanner);
    assert_eq!(t, Token { kind: TokenKind::Identifier, start: 5, end: 11, line: 1 });
    assert_eq!(&source[t.start..t.end], "string");

    let t = next_ok(&mut scanner);
    assert_eq!(t, Token { kind: TokenKind::Equal, start: 12, end: 13, line: 1 });
    assert_eq!(&source[t.start..t.end], "=");

    let t = next_ok(&mut scanner);
    assert_eq!(t, Token { kind: TokenKind::Str, start: 15, end: 26, line: 1 });
    assert_eq!(&source[t.start..t.end], "hello world");
}

#[test]
fn whitespace_only_yields_end_of_input() {
    // Two newlines: the terminal token comes on line 3, at the end.
    let mut scanner = Lexer::new(b"\n\n");
    let t = next_ok(&mut scanner);
    assert_eq!(t, Token { kind: TokenKind::EndOfInput, start: 2, end: 2, line: 3 });

    // Empty input: the terminal token comes at offset 0, line 1.
    let mut scanner = Lexer::new(b"");
    let t = next_ok(&mut scanner);
    assert_eq!(t, Token { kind: TokenKind::EndOfInput, start: 0, end: 0, line: 1 });

    // Spaces, tabs and carriage returns do not advance the line.
    let mut scanner = Lexer::new(b"  \t \r ");
    let t = next_ok(&mut scanner);
    assert_eq!(t, Token { kind: TokenKind::EndOfInput, start: 6, end: 6, line: 1 });
}

#[test]
fn unterminated_string_reports_starting_line() {
    let source = String::from("x = \"abc");
    let mut scanner = Lexer::new(source.as_bytes());
    assert_eq!(next_ok(&mut scanner).kind, TokenKind::Identifier);
    assert_eq!(next_ok(&mut scanner).kind, TokenKind::Equal);
    assert_eq!(scanner.next_token(), Err(LexError::UnterminatedString(1)));
}

#[test]
fn string_with_raw_newline_is_unterminated() {
    // The string opens on line 3; the raw newline inside it is fatal
    // and the error names the line the string began on.
    let mut scanner = Lexer::new(b"\n\n\"ab\ncd\"");
    assert_eq!(scanner.next_token(), Err(LexError::UnterminatedString(3)));
}

#[test]
fn unexpected_character_reports_byte_and_line() {
    let mut scanner = Lexer::new(b"\n@x");
    assert_eq!(scanner.next_token(), Err(LexError::UnexpectedCharacter(b'@', 2)));
    // The offending byte was stepped over, so scanning can resume.
    let t = next_ok(&mut scanner);
    assert_eq!(t, Token { kind: TokenKind::Identifier, start: 2, end: 3, line: 2 });
}

#[test]
fn number_shapes() {
    // A trailing dot belongs to the number.
    let mut scanner = Lexer::new(b"12.");
    assert_eq!(next_ok(&mut scanner), Token {
        kind: TokenKind::Number,
        start: 0,
        end: 3,
        line: 1,
    });

    // A second dot is not part of the number: "1.2" stops before the
    // second ".", which starts a number of its own.
    let source = String::from("1.2.3");
    let bytes = source.as_bytes();
    let mut scanner = Lexer::new(bytes);
    let t = next_ok(&mut scanner);
    assert_eq!(t, Token { kind: TokenKind::Number, start: 0, end: 3, line: 1 });
    assert_eq!(&source[t.start..t.end], "1.2");
    let t = next_ok(&mut scanner);
    assert_eq!(t, Token { kind: TokenKind::Number, start: 3, end: 5, line: 1 });
    assert_eq!(&source[t.start..t.end], ".3");

    // A lone dot is scanned as a (degenerate) number of one byte.
    let mut scanner = Lexer::new(b".");
    assert_eq!(next_ok(&mut scanner), Token {
        kind: TokenKind::Number,
        start: 0,
        end: 1,
        line: 1,
    });
}

#[test]
fn identifier_takes_trailing_digits() {
    let source = String::from("x2y = 1");
    let bytes = source.as_bytes();
    let mut scanner = Lexer::new(bytes);
    let t = next_ok(&mut scanner);
    assert_eq!(t, Token { kind: TokenKind::Identifier, start: 0, end: 3, line: 1 });
    assert_eq!(&source[t.start..t.end], "x2y");
}

#[test]
fn empty_string_literal() {
    let source = String::from("\"\"");
    let mut scanner = Lexer::new(source.as_bytes());
    let t = next_ok(&mut scanner);
    assert_eq!(t, Token { kind: TokenKind::Str, start: 1, end: 1, line: 1 });
    assert_eq!(&source[t.start..t.end], "");
}

#[test]
fn end_of_input_is_stable() {
    let mut scanner = Lexer::new(b"x");
    assert_eq!(next_ok(&mut scanner).kind, TokenKind::Identifier);
    let t = next_ok(&mut scanner);
    assert_eq!(t, Token { kind: TokenKind::EndOfInput, start: 1, end: 1, line: 1 });
    // Calling again past the end keeps yielding the terminal token.
    let t = next_ok(&mut scanner);
    assert_eq!(t, Token { kind: TokenKind::EndOfInput, start: 1, end: 1, line: 1 });
}

#[test]
fn tokens_scans_whole_source() {
    let got = tokens(b"foo: double = .12");
    assert_eq!(got, vec![
        Ok(Token { kind: TokenKind::Identifier, start: 0, end: 3, line: 1 }),
        Ok(Token { kind: TokenKind::Colon, start: 3, end: 4, line: 1 }),
        Ok(Token { kind: TokenKind::Identifier, start: 5, end: 11, line: 1 }),
        Ok(Token { kind: TokenKind::Equal, start: 12, end: 13, line: 1 }),
        Ok(Token { kind: TokenKind::Number, start: 14, end: 17, line: 1 }),
        Ok(Token { kind: TokenKind::EndOfInput, start: 17, end: 17, line: 1 }),
    ]);
}

#[test]
fn tokens_stops_at_first_error() {
    let got = tokens(b"x = \"abc");
    assert_eq!(got.len(), 3);
    assert_eq!(got[2], Err(LexError::UnterminatedString(1)));
}

#[test]
fn rescanning_yields_identical_tokens() {
    let source = b"\na: int = 3\nb: string = \"s\"";
    let first = tokens(source);
    let second = tokens(source);
    assert_eq!(first, second);
}

#[test]
fn line_numbers_advance_mid_source() {
    let source = String::from("a: int =\r\n 5");
    let bytes = source.as_bytes();
    let mut scanner = Lexer::new(bytes);
    assert_eq!(next_ok(&mut scanner).line, 1);  // a
    assert_eq!(next_ok(&mut scanner).line, 1);  // :
    assert_eq!(next_ok(&mut scanner).line, 1);  // int
    assert_eq!(next_ok(&mut scanner).line, 1);  // =
    // The "\r\n" pair counts as a single line break.
    let t = next_ok(&mut scanner);
    assert_eq!(t, Token { kind: TokenKind::Number, start: 11, end: 12, line: 2 });
    assert_eq!(&source[t.start..t.end], "5");
}

#[test]
fn lexeme_slices_the_span() {
    let source = String::from("foo = \"bar\"");
    let bytes = source.as_bytes();
    let mut scanner = Lexer::new(bytes);
    let ident = next_ok(&mut scanner);
    assert_eq!(lexeme(bytes, &ident), b"foo");
    let _eq = next_ok(&mut scanner);
    let lit = next_ok(&mut scanner);
    assert_eq!(lexeme(bytes, &lit), b"bar");
}
