use levo::ast::{BinOp, Expr, Prec};
use levo::parse::{ParseError, Parser};

fn parse_one(text: &str) -> Result<Option<Expr>, ParseError> {
    let mut parser = Parser::new(text);
    parser.parse_expr()
}

fn ident_name(e: &Expr) -> &str {
    match e {
        Expr::Ident(i) => &i.name,
        other => panic!("expected an identifier, got {other:?}"),
    }
}

fn bin_parts(e: &Expr) -> (BinOp, &Expr, &Expr) {
    match e {
        Expr::Bin(b) => (b.op, &b.left, &b.right),
        other => panic!("expected a binary expression, got {other:?}"),
    }
}

#[test]
fn parser_test() {
    let texts = [
        "a + b * c",
        "a * b + c",
        "a + b + c",
        "a - b + c",
        "a - b - c",
        "a * b * c - d + e / f",
    ];
    for (num, text) in texts.iter().enumerate() {
        println!("====== {num} ======");
        let mut parser = Parser::new(text);
        loop {
            match parser.parse_expr() {
                Ok(Some(token)) => println!("{token:?}"),
                Ok(None) => break,
                Err(e) => {
                    println!("{e:?}");
                    break;
                }
            }
        }
    }
}

#[test]
fn multiplication_binds_tighter() {
    // a + b * c parses as a + (b * c)
    let e = parse_one("a + b * c").unwrap().unwrap();
    let (op, l, r) = bin_parts(&e);
    assert_eq!(op, BinOp::Add);
    assert_eq!(ident_name(l), "a");
    let (op2, rl, rr) = bin_parts(r);
    assert_eq!(op2, BinOp::Mul);
    assert_eq!(ident_name(rl), "b");
    assert_eq!(ident_name(rr), "c");

    // a * b + c parses as (a * b) + c
    let e = parse_one("a * b + c").unwrap().unwrap();
    let (op, l, r) = bin_parts(&e);
    assert_eq!(op, BinOp::Add);
    assert_eq!(ident_name(r), "c");
    let (op2, ll, lr) = bin_parts(l);
    assert_eq!(op2, BinOp::Mul);
    assert_eq!(ident_name(ll), "a");
    assert_eq!(ident_name(lr), "b");
}

#[test]
fn subtraction_chains_left() {
    // a - b - c parses as (a - b) - c
    let e = parse_one("a - b - c").unwrap().unwrap();
    let (op, l, r) = bin_parts(&e);
    assert_eq!(op, BinOp::Sub);
    assert_eq!(ident_name(r), "c");
    let (op2, ll, lr) = bin_parts(l);
    assert_eq!(op2, BinOp::Sub);
    assert_eq!(ident_name(ll), "a");
    assert_eq!(ident_name(lr), "b");
}

#[test]
fn mixed_precedence_chain() {
    // a * b * c - d + e / f parses as (((a * b) * c) - d) + (e / f)
    let e = parse_one("a * b * c - d + e / f").unwrap().unwrap();
    let (op, l, r) = bin_parts(&e);
    assert_eq!(op, BinOp::Add);
    let (opr, rl, rr) = bin_parts(r);
    assert_eq!(opr, BinOp::Div);
    assert_eq!(ident_name(rl), "e");
    assert_eq!(ident_name(rr), "f");
    let (opl, ll, lr) = bin_parts(l);
    assert_eq!(opl, BinOp::Sub);
    assert_eq!(ident_name(lr), "d");
    let (opll, lll, llr) = bin_parts(ll);
    assert_eq!(opll, BinOp::Mul);
    assert_eq!(ident_name(llr), "c");
    let (oplll, llll, lllr) = bin_parts(lll);
    assert_eq!(oplll, BinOp::Mul);
    assert_eq!(ident_name(llll), "a");
    assert_eq!(ident_name(lllr), "b");
}

#[test]
fn numeric_leaves_keep_their_text() {
    let e = parse_one("12 % 7").unwrap().unwrap();
    let (op, l, r) = bin_parts(&e);
    assert_eq!(op, BinOp::Mod);
    match (l, r) {
        (Expr::Num(a), Expr::Num(b)) => {
            assert_eq!(a.value, "12");
            assert_eq!(b.value, "7");
        }
        other => panic!("expected numeric leaves, got {other:?}"),
    }
}

#[test]
fn lone_operator_is_a_bad_primary() {
    let mut parser = Parser::new("+");
    assert!(matches!(parser.parse_expr(), Err(ParseError::BadPrim)));
}

#[test]
fn missing_right_operand_is_a_bad_binary() {
    let mut parser = Parser::new("a +");
    assert!(matches!(parser.parse_expr(), Err(ParseError::BadBinOp)));
}

#[test]
fn empty_input_yields_nothing() {
    let mut parser = Parser::new("");
    assert!(matches!(parser.parse_expr(), Ok(None)));
    let mut parser = Parser::new("   ");
    assert!(matches!(parser.parse_expr(), Ok(None)));
}

#[test]
fn consumed_offset_survives_shelving() {
    // Parsing "a + b" shelves and re-fetches tokens; the byte offset still
    // comes out at exactly the five bytes consumed.
    let mut parser = Parser::new("a + b");
    let e = parser.parse_expr().unwrap().unwrap();
    let (op, l, r) = bin_parts(&e);
    assert_eq!(op, BinOp::Add);
    assert_eq!(ident_name(l), "a");
    assert_eq!(ident_name(r), "b");
    assert_eq!(parser.pos(), 5);
}

#[test]
fn shelved_token_feeds_the_next_parse() {
    // The first expression stops at `c`, which goes on the shelf; the
    // second parse starts from that very token.
    let mut parser = Parser::new("a + b c * d");
    let first = parser.parse_expr().unwrap().unwrap();
    let (op, l, r) = bin_parts(&first);
    assert_eq!(op, BinOp::Add);
    assert_eq!(ident_name(l), "a");
    assert_eq!(ident_name(r), "b");

    let second = parser.parse_expr().unwrap().unwrap();
    let (op2, l2, r2) = bin_parts(&second);
    assert_eq!(op2, BinOp::Mul);
    assert_eq!(ident_name(l2), "c");
    assert_eq!(ident_name(r2), "d");

    assert!(matches!(parser.parse_expr(), Ok(None)));
}

#[test]
fn unknown_token_stops_an_expression() {
    // `(` is no operator to this parser's scanner: the first expression
    // ends before it, and the next parse trips over it.
    let mut parser = Parser::new("a ( b");
    let first = parser.parse_expr().unwrap().unwrap();
    assert_eq!(ident_name(&first), "a");
    assert!(matches!(parser.parse_expr(), Err(ParseError::BadPrim)));
}

#[test]
fn error_messages() {
    assert_eq!(ParseError::BadPrim.message(), "bad primary expression");
    assert_eq!(ParseError::BadBinOp.message(), "bad binary operation");
    assert_eq!(
        ParseError::OpInPrim(levo::lexer::Op::Plus).message(),
        "operator in primitive expression"
    );
}

#[test]
fn precedence_order_and_successor() {
    assert!(Prec::Min < Prec::Add);
    assert!(Prec::Add < Prec::Mul);
    assert!(Prec::Mul < Prec::Max);
    assert_eq!(Prec::Min.next(), Prec::Add);
    assert_eq!(Prec::Add.next(), Prec::Mul);
    assert_eq!(Prec::Mul.next(), Prec::Max);
    // The successor is idempotent at the top.
    assert_eq!(Prec::Max.next(), Prec::Max);
}
