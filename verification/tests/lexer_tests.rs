use levo::lexer::{Lexer, Op, Token, TokenKind};

fn tokens_of(text: &str) -> Vec<Token> {
    let mut lexer = Lexer::new(text);
    let mut out = Vec::new();
    while let Some(token) = lexer.lex() {
        out.push(token);
    }
    out
}

#[test]
fn lib_lexer_test() {
    let texts = [
        "a + b + c",
        "abcde012345sxa_assd + _ssvsqdckaosc12323dcoascmsa",
    ];
    for (num, text) in texts.iter().enumerate() {
        println!("====== {num} ======");
        let mut lexer = Lexer::new(text);
        while let Some(token) = lexer.lex() {
            println!("{token:?}");
        }
    }
}

#[test]
fn simple_tokens() {
    let tokens = tokens_of("a + b");
    assert_eq!(tokens.len(), 5);
    assert_eq!(tokens[0], Token { len: 1, kind: TokenKind::Ident });
    assert_eq!(tokens[1], Token { len: 1, kind: TokenKind::Whitespace });
    assert_eq!(tokens[2], Token { len: 1, kind: TokenKind::Op(Op::Plus) });
    assert_eq!(tokens[3], Token { len: 1, kind: TokenKind::Whitespace });
    assert_eq!(tokens[4], Token { len: 1, kind: TokenKind::Ident });

    let tokens = tokens_of("abc123 12a");
    assert_eq!(tokens.len(), 4);
    assert_eq!(tokens[0], Token { len: 6, kind: TokenKind::Ident });
    assert_eq!(tokens[2], Token { len: 2, kind: TokenKind::Num });
    assert_eq!(tokens[3], Token { len: 1, kind: TokenKind::Ident });

    let tokens = tokens_of("-*%");
    assert_eq!(tokens[0].kind, TokenKind::Op(Op::Minus));
    assert_eq!(tokens[1].kind, TokenKind::Op(Op::Asterisk));
    assert_eq!(tokens[2].kind, TokenKind::Op(Op::Percent));

    let tokens = tokens_of("?");
    assert_eq!(tokens[0], Token { len: 1, kind: TokenKind::Unknown });
}

#[test]
fn slash_swallows_the_next_character() {
    // The `/` branch advances once for the slash and once more inside the
    // shared single-token path, so `/` takes its follower with it.
    let tokens = tokens_of("/a");
    assert_eq!(tokens.len(), 1);
    assert_eq!(tokens[0], Token { len: 2, kind: TokenKind::Op(Op::Slash) });

    let tokens = tokens_of("/");
    assert_eq!(tokens.len(), 1);
    assert_eq!(tokens[0], Token { len: 1, kind: TokenKind::Op(Op::Slash) });
}

#[test]
fn lengths_cover_the_input() {
    let texts = ["a + b + c", "abcde012345sxa_assd + _ssvsqdckaosc12323dcoascmsa", "e / f"];
    for text in texts {
        let tokens = tokens_of(text);
        let mut sum: usize = 0;
        for t in &tokens {
            sum += t.len;
        }
        assert_eq!(sum, text.len());
    }
}
