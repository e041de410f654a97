use levo::lex::Cursor;
use levo::token::{Base, CommentKind, Delim, LitKind, Punc, Token, TokenKind};

fn tokens_of(text: &str) -> Vec<Token> {
    let mut cursor = Cursor::new(text);
    let mut out = Vec::new();
    while let Some(token) = cursor.next_token() {
        out.push(token);
    }
    out
}

fn total_len(tokens: &[Token]) -> usize {
    let mut sum: usize = 0;
    for t in tokens {
        sum += t.len;
    }
    sum
}

#[test]
fn tests_lexer_test() {
    let inputs = [
        "",
        "  ",
        "a + b",
        "a(c)",
        "+++*/",
        "/**/",
        "/***/",
        "/*!*/",
        "/*/**/*/",
        "/*",
        "/*/*",
        "/*/",
        "//",
        "// \n",
        "// a\na",
        "_abc234 + 0x2323_adcs / 0o32.3rd * 32.3e+2 + 32.3e-2 - 11e7",
        "0x + 1e + 1.a",
        "'a'",
        "\"bcsdcs\"xdcs",
        "\"\n\"",
        "' xsxscsc\r\n'",
    ];

    for (num, text) in inputs.into_iter().enumerate() {
        println!("===== {num} =====");
        let mut lexer = Cursor::new(text);
        while let Some(token) = lexer.next_token() {
            println!("{token:?}");
        }
    }
}

#[test]
fn total_coverage_on_samples() {
    let inputs = [
        "",
        "  ",
        "a + b",
        "a(c)",
        "+++*/",
        "/*/**/*/",
        "/*/*",
        "_abc234 + 0x2323_adcs / 0o32.3rd * 32.3e+2 + 32.3e-2 - 11e7",
        "0x + 1e + 1.a",
        "\"bcsdcs\"xdcs",
        "' xsxscsc\r\n'",
        "\u{03bb} + b\u{2028}end",
    ];
    for text in inputs {
        let tokens = tokens_of(text);
        assert_eq!(total_len(&tokens), text.len());
        for t in &tokens {
            assert!(t.len >= 1);
        }
    }
}

#[test]
fn comment_nesting() {
    let tokens = tokens_of("/*/**/*/");
    assert_eq!(tokens.len(), 1);
    assert_eq!(tokens[0].len, 8);
    assert_eq!(
        tokens[0].kind,
        TokenKind::BlockComment { style: CommentKind::Normal, terminated: true }
    );

    let tokens = tokens_of("/*/*");
    assert_eq!(tokens.len(), 1);
    assert_eq!(
        tokens[0].kind,
        TokenKind::BlockComment { style: CommentKind::Normal, terminated: false }
    );

    let tokens = tokens_of("/**/");
    assert_eq!(tokens[0].len, 4);
    assert_eq!(
        tokens[0].kind,
        TokenKind::BlockComment { style: CommentKind::Normal, terminated: true }
    );

    let tokens = tokens_of("/***/");
    assert_eq!(tokens[0].len, 5);
    assert_eq!(
        tokens[0].kind,
        TokenKind::BlockComment { style: CommentKind::OuterDoc, terminated: true }
    );

    let tokens = tokens_of("/*!*/");
    assert_eq!(tokens[0].len, 5);
    assert_eq!(
        tokens[0].kind,
        TokenKind::BlockComment { style: CommentKind::InnerDoc, terminated: true }
    );
}

#[test]
fn line_comments() {
    let tokens = tokens_of("// a\na");
    assert_eq!(tokens.len(), 3);
    assert_eq!(tokens[0].len, 4);
    assert_eq!(tokens[0].kind, TokenKind::LineComment { style: CommentKind::Normal });
    assert_eq!(tokens[1].kind, TokenKind::Newline);
    assert_eq!(tokens[2].kind, TokenKind::Ident);

    let tokens = tokens_of("///x");
    assert_eq!(tokens[0].kind, TokenKind::LineComment { style: CommentKind::OuterDoc });
    let tokens = tokens_of("//!x");
    assert_eq!(tokens[0].kind, TokenKind::LineComment { style: CommentKind::InnerDoc });
}

#[test]
fn numeric_literal_edge_cases() {
    let tokens = tokens_of("0x");
    assert_eq!(tokens.len(), 1);
    assert_eq!(
        tokens[0].kind,
        TokenKind::Lit {
            kind: LitKind::Int { base: Base::Hexadecimal, empty: true },
            suffix_start: 2,
        }
    );

    let tokens = tokens_of("1e");
    assert_eq!(tokens.len(), 1);
    assert_eq!(
        tokens[0].kind,
        TokenKind::Lit {
            kind: LitKind::Float { base: Base::Decimal, exp_empty: true },
            suffix_start: 2,
        }
    );

    let tokens = tokens_of("32.3e+2");
    assert_eq!(tokens.len(), 1);
    assert_eq!(tokens[0].len, 7);
    assert_eq!(
        tokens[0].kind,
        TokenKind::Lit {
            kind: LitKind::Float { base: Base::Decimal, exp_empty: false },
            suffix_start: 7,
        }
    );

    // `1.a` keeps the dot out of the number: `a` could be a method name.
    let tokens = tokens_of("1.a");
    assert_eq!(tokens.len(), 3);
    assert_eq!(
        tokens[0].kind,
        TokenKind::Lit {
            kind: LitKind::Int { base: Base::Decimal, empty: false },
            suffix_start: 1,
        }
    );
    assert_eq!(tokens[1].kind, TokenKind::Punc(Punc::Dot));
    assert_eq!(tokens[2].kind, TokenKind::Ident);

    // A suffix is recorded from its byte offset inside the token.
    let tokens = tokens_of("0o32rd");
    assert_eq!(tokens.len(), 1);
    assert_eq!(tokens[0].len, 6);
    assert_eq!(
        tokens[0].kind,
        TokenKind::Lit {
            kind: LitKind::Int { base: Base::Octal, empty: false },
            suffix_start: 4,
        }
    );

    let tokens = tokens_of("0b1_01");
    assert_eq!(
        tokens[0].kind,
        TokenKind::Lit {
            kind: LitKind::Int { base: Base::Binary, empty: false },
            suffix_start: 6,
        }
    );
}

#[test]
fn base_prefix_digit_runs() {
    // Only digits of the base continue a prefixed body: after `0b`, the
    // `2` is no binary digit, so the run holds zero digits, the literal
    // ends empty, and `2` starts a fresh decimal token.
    let tokens = tokens_of("0b2");
    assert_eq!(tokens.len(), 2);
    assert_eq!(tokens[0].len, 2);
    assert_eq!(
        tokens[0].kind,
        TokenKind::Lit {
            kind: LitKind::Int { base: Base::Binary, empty: true },
            suffix_start: 2,
        }
    );
    assert_eq!(tokens[1].len, 1);
    assert_eq!(
        tokens[1].kind,
        TokenKind::Lit {
            kind: LitKind::Int { base: Base::Decimal, empty: false },
            suffix_start: 1,
        }
    );

    let tokens = tokens_of("0o8");
    assert_eq!(tokens.len(), 2);
    assert_eq!(tokens[0].len, 2);
    assert_eq!(
        tokens[0].kind,
        TokenKind::Lit {
            kind: LitKind::Int { base: Base::Octal, empty: true },
            suffix_start: 2,
        }
    );

    let tokens = tokens_of("0o17");
    assert_eq!(tokens.len(), 1);
    assert_eq!(tokens[0].len, 4);
    assert_eq!(
        tokens[0].kind,
        TokenKind::Lit {
            kind: LitKind::Int { base: Base::Octal, empty: false },
            suffix_start: 4,
        }
    );

    // An empty prefixed body never reaches a fraction: the rest of the
    // text lexes on its own.
    let tokens = tokens_of("0b2.5");
    assert_eq!(tokens.len(), 2);
    assert_eq!(
        tokens[0].kind,
        TokenKind::Lit {
            kind: LitKind::Int { base: Base::Binary, empty: true },
            suffix_start: 2,
        }
    );
    assert_eq!(tokens[1].len, 3);
    assert_eq!(
        tokens[1].kind,
        TokenKind::Lit {
            kind: LitKind::Float { base: Base::Decimal, exp_empty: false },
            suffix_start: 3,
        }
    );
}

#[test]
fn string_and_char_termination() {
    let tokens = tokens_of("\"bcsdcs\"");
    assert_eq!(tokens.len(), 1);
    assert_eq!(tokens[0].len, 8);
    assert_eq!(
        tokens[0].kind,
        TokenKind::Lit { kind: LitKind::Str { terminated: true }, suffix_start: 8 }
    );

    // A raw newline ends the scan before the closing quote arrives.
    let tokens = tokens_of("\"\n\"");
    assert_eq!(
        tokens[0].kind,
        TokenKind::Lit { kind: LitKind::Str { terminated: false }, suffix_start: 2 }
    );

    let tokens = tokens_of("'a'");
    assert_eq!(tokens.len(), 1);
    assert_eq!(tokens[0].len, 3);
    assert_eq!(
        tokens[0].kind,
        TokenKind::Lit { kind: LitKind::Char { terminated: true }, suffix_start: 3 }
    );

    let tokens = tokens_of("' xsxscsc\r\n'");
    assert_eq!(
        tokens[0].kind,
        TokenKind::Lit { kind: LitKind::Char { terminated: false }, suffix_start: 11 }
    );

    // An escape skips the next character, whatever it is.
    let tokens = tokens_of("'\\''");
    assert_eq!(tokens.len(), 1);
    assert_eq!(tokens[0].len, 4);
    assert_eq!(
        tokens[0].kind,
        TokenKind::Lit { kind: LitKind::Char { terminated: true }, suffix_start: 4 }
    );
}

#[test]
fn whitespace_and_newlines() {
    // A lone `\r` directly followed by `\n` makes one two-byte newline.
    let tokens = tokens_of("\r\n");
    assert_eq!(tokens.len(), 1);
    assert_eq!(tokens[0].len, 2);
    assert_eq!(tokens[0].kind, TokenKind::Newline);

    // A lone `\r` before anything but `\n` is a one-byte newline, and a
    // maximal whitespace run swallows any line breaks inside it.
    let tokens = tokens_of("\r \n");
    assert_eq!(tokens.len(), 2);
    assert_eq!(tokens[0].len, 1);
    assert_eq!(tokens[0].kind, TokenKind::Newline);
    assert_eq!(tokens[1].len, 2);
    assert_eq!(tokens[1].kind, TokenKind::Whitespace);

    let tokens = tokens_of("  \t ");
    assert_eq!(tokens.len(), 1);
    assert_eq!(tokens[0].len, 4);
    assert_eq!(tokens[0].kind, TokenKind::Whitespace);
}

#[test]
fn punctuation_and_delimiters() {
    let tokens = tokens_of("a(c)");
    assert_eq!(tokens.len(), 4);
    assert_eq!(tokens[0].kind, TokenKind::Ident);
    assert_eq!(tokens[1].kind, TokenKind::Open(Delim::Paren));
    assert_eq!(tokens[2].kind, TokenKind::Ident);
    assert_eq!(tokens[3].kind, TokenKind::Close(Delim::Paren));

    let tokens = tokens_of("+++*/");
    assert_eq!(tokens.len(), 5);
    assert_eq!(tokens[0].kind, TokenKind::Punc(Punc::Plus));
    assert_eq!(tokens[3].kind, TokenKind::Punc(Punc::Asterisk));
    assert_eq!(tokens[4].kind, TokenKind::Punc(Punc::Slash));

    let tokens = tokens_of("\u{1}");
    assert_eq!(tokens.len(), 1);
    assert_eq!(tokens[0].kind, TokenKind::Unknown);
}

#[test]
fn cursor_positions() {
    let mut cursor = Cursor::new("ab");
    assert_eq!(cursor.pos(), 0);
    assert_eq!(cursor.bump(), Some('a'));
    assert_eq!(cursor.pos(), 1);
    assert_eq!(cursor.peek(), Some('b'));
    assert_eq!(cursor.peek_nth(1), None);
    assert_eq!(cursor.as_str(), "b");
    cursor.rebase();
    assert_eq!(cursor.pos(), 0);
    assert_eq!(cursor.bump(), Some('b'));
    assert_eq!(cursor.pos(), 1);
    assert_eq!(cursor.bump(), None);

    // Multi-byte characters count in bytes.
    let mut cursor = Cursor::new("\u{03bb}x");
    assert_eq!(cursor.bump(), Some('\u{03bb}'));
    assert_eq!(cursor.pos(), 2);
}
