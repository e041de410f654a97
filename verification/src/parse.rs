//! The precedence-climbing expression parser.
//!
//! [`Parser`] pulls tokens from a [`Lexer`], skips whitespace, keeps one
//! shelved token of pushback, and builds [`Expr`] trees. The spec functions
//! here state its whole behaviour over the character sequence and the
//! index, in characters, of the next token to deliver: what tree comes out,
//! which error, and where the parser stands afterwards.

use vstd::prelude::*;

verus! {

use crate::ast::Assoc;
use crate::ast::BinExpr;
use crate::ast::BinOp;
use crate::ast::Expr;
use crate::ast::Ident;
use crate::ast::Num;
use crate::ast::Prec;
use crate::ast::SpecExpr;
use crate::chars::byte_len;
use crate::chars::chars_to_string;
use crate::chars::collect_chars;
use crate::lexer::lemma_lex_progress;
use crate::lexer::spec_lex;
use crate::lexer::Lexer;
use crate::lexer::Op;
use crate::lexer::Token;
use crate::lexer::TokenKind;

/// Why a parse failed.
#[derive(Debug, Clone, Copy, PartialEq, Eq, Structural)]
pub enum ParseError {
    /// An operator stood where a primary expression was required.
    /// (The primary path currently reports `BadPrim` instead.)
    OpInPrim(Op),
    /// The right-hand side required after a binary operator was missing.
    BadBinOp,
    /// A token that cannot start a primary expression stood where one was
    /// required.
    BadPrim,
}

impl ParseError {
    /// The wording of each failure.
    pub open spec fn spec_message(self) -> Seq<char> {
        match self {
            ParseError::OpInPrim(_) => "operator in primitive expression"@,
            ParseError::BadBinOp => "bad binary operation"@,
            ParseError::BadPrim => "bad primary expression"@,
        }
    }

    /// A human-readable description of the failure.
    pub fn message(&self) -> (r: String)
        ensures
            r@ == self.spec_message(),
    {
        match self {
            ParseError::OpInPrim(_) => "operator in primitive expression".to_owned(),
            ParseError::BadBinOp => "bad binary operation".to_owned(),
            ParseError::BadPrim => "bad primary expression".to_owned(),
        }
    }
}

/// The next non-whitespace token at or after character index `p`: its start,
/// its end, and its kind; nothing when only whitespace remains.
pub open spec fn spec_fetch(s: Seq<char>, p: nat) -> Option<(nat, nat, TokenKind)>
    decreases s.len() - p
        when p <= s.len()
        via spec_fetch_dec
{
    match spec_lex(s.skip(p as int)) {
        None => None,
        Some((n, k)) => if k is Whitespace {
            spec_fetch(s, (p + n) as nat)
        } else {
            Some((p, (p + n) as nat, k))
        },
    }
}

#[via_fn]
proof fn spec_fetch_dec(s: Seq<char>, p: nat) {
    if p < s.len() {
        lemma_lex_progress(s.skip(p as int));
    }
}

/// A fetched token sits between `p` and the end of input, is not
/// whitespace, and is exactly what the scanner yields at its start.
pub proof fn lemma_fetch_bounds(s: Seq<char>, p: nat)
    requires
        p <= s.len(),
    ensures
        match spec_fetch(s, p) {
            None => true,
            Some((a, b, k)) => {
                &&& p <= a < b <= s.len()
                &&& !(k is Whitespace)
                &&& spec_lex(s.skip(a as int)) == Some((((b - a) as nat), k))
            },
        },
    decreases s.len() - p,
{
    if p < s.len() {
        lemma_lex_progress(s.skip(p as int));
        let (n, k) = spec_lex(s.skip(p as int))->Some_0;
        if k is Whitespace {
            lemma_fetch_bounds(s, (p + n) as nat);
        }
    }
}

/// What the parser makes of one primary expression starting at `p`: the
/// index after it, and an identifier or numeric leaf carrying the token's
/// exact source text, nothing at end of input, or `BadPrim` with the
/// offending token shelved.
pub open spec fn spec_parse_prim(s: Seq<char>, p: nat) -> (nat, Result<
    Option<SpecExpr>,
    ParseError,
>) {
    match spec_fetch(s, p) {
        None => (s.len(), Ok(None)),
        Some((a, b, k)) => match k {
            TokenKind::Ident => (
                b,
                Ok(Some(SpecExpr::Ident { name: s.subrange(a as int, b as int) })),
            ),
            TokenKind::Num => (b, Ok(Some(SpecExpr::Num { value: s.subrange(a as int, b as int) }))),
            _ => (a, Err(ParseError::BadPrim)),
        },
    }
}

/// The binary operator a token stands for, if any.
pub open spec fn spec_get_bin_op(k: TokenKind) -> Option<BinOp> {
    match k {
        TokenKind::Op(op) => Some(
            match op {
                Op::Plus => BinOp::Add,
                Op::Minus => BinOp::Sub,
                Op::Asterisk => BinOp::Mul,
                Op::Slash => BinOp::Div,
                Op::Percent => BinOp::Mod,
            },
        ),
        _ => None,
    }
}

/// One precedence-climbing pass, fuelled for termination; `None` only when
/// the fuel runs out, which [`lemma_parse_bin_fuel_agree`] rules out for any
/// fuel above the characters that remain.
pub open spec fn spec_parse_bin_fuel(
    s: Seq<char>,
    p: nat,
    left: Option<SpecExpr>,
    min: Prec,
    fuel: nat,
) -> Option<(nat, Result<Option<SpecExpr>, ParseError>)>
    decreases fuel,
{
    if left is None {
        Some((p, Ok(None)))
    } else if fuel == 0 {
        None
    } else {
        let l = left->0;
        match spec_fetch(s, p) {
            None => Some((s.len(), Ok(Some(l)))),
            Some((a, b, k)) => match spec_get_bin_op(k) {
                None => Some((a, Ok(Some(l)))),
                Some(op) => if op.spec_prec().rank() < min.rank() {
                    Some((a, Ok(Some(l))))
                } else {
                    let next_min = if op.spec_assoc() is Left {
                        op.spec_prec().spec_next()
                    } else {
                        op.spec_prec()
                    };
                    let (p2, r2) = spec_parse_prim(s, b);
                    match r2 {
                        Err(e) => Some((p2, Err(e))),
                        Ok(None) => Some((p2, Err(ParseError::BadBinOp))),
                        Ok(Some(right)) => match spec_parse_bin_fuel(
                            s,
                            p2,
                            Some(right),
                            next_min,
                            (fuel - 1) as nat,
                        ) {
                            None => None,
                            Some((p3, r3)) => match r3 {
                                Err(e) => Some((p3, Err(e))),
                                Ok(None) => Some((p3, Err(ParseError::BadBinOp))),
                                Ok(Some(rexp)) => spec_parse_bin_fuel(
                                    s,
                                    p3,
                                    Some(
                                        SpecExpr::Bin {
                                            op,
                                            left: Box::new(l),
                                            right: Box::new(rexp),
                                        },
                                    ),
                                    min,
                                    (fuel - 1) as nat,
                                ),
                            },
                        },
                    }
                },
            },
        }
    }
}

/// A primary expression never moves the parser backwards or past the end.
pub proof fn lemma_prim_bounds(s: Seq<char>, p: nat)
    requires
        p <= s.len(),
    ensures
        ({
            let (p1, r1) = spec_parse_prim(s, p);
            &&& p <= p1 <= s.len()
            &&& (r1 matches Ok(Some(e)) ==> p + 1 <= p1)
        }),
{
    lemma_fetch_bounds(s, p);
}

/// Any two sufficient fuels agree, the pass finishes, and it moves the
/// parser forwards and never past the end.
pub proof fn lemma_parse_bin_fuel_agree(
    s: Seq<char>,
    p: nat,
    left: Option<SpecExpr>,
    min: Prec,
    f1: nat,
    f2: nat,
)
    requires
        p <= s.len(),
        f1 > s.len() - p,
        f2 > s.len() - p,
    ensures
        spec_parse_bin_fuel(s, p, left, min, f1) is Some,
        ({
            let (p1, r1) = spec_parse_bin_fuel(s, p, left, min, f1)->0;
            p <= p1 <= s.len()
        }),
        spec_parse_bin_fuel(s, p, left, min, f1) == spec_parse_bin_fuel(s, p, left, min, f2),
    decreases f1 + f2,
{
    if left is None {
    } else {
        lemma_fetch_bounds(s, p);
        match spec_fetch(s, p) {
            None => {},
            Some((a, b, k)) => match spec_get_bin_op(k) {
                None => {},
                Some(op) => {
                    if op.spec_prec().rank() < min.rank() {
                    } else {
                        let next_min = if op.spec_assoc() is Left {
                            op.spec_prec().spec_next()
                        } else {
                            op.spec_prec()
                        };
                        lemma_prim_bounds(s, b);
                        let (p2, r2) = spec_parse_prim(s, b);
                        match r2 {
                            Err(e) => {},
                            Ok(None) => {},
                            Ok(Some(right)) => {
                                lemma_parse_bin_fuel_agree(
                                    s,
                                    p2,
                                    Some(right),
                                    next_min,
                                    (f1 - 1) as nat,
                                    (f2 - 1) as nat,
                                );
                                let (p3, r3) = spec_parse_bin_fuel(
                                    s,
                                    p2,
                                    Some(right),
                                    next_min,
                                    (f1 - 1) as nat,
                                )->0;
                                match r3 {
                                    Err(e) => {},
                                    Ok(None) => {},
                                    Ok(Some(rexp)) => {
                                        let l = left->0;
                                        lemma_parse_bin_fuel_agree(
                                            s,
                                            p3,
                                            Some(
                                                SpecExpr::Bin {
                                                    op,
                                                    left: Box::new(l),
                                                    right: Box::new(rexp),
                                                },
                                            ),
                                            min,
                                            (f1 - 1) as nat,
                                            (f2 - 1) as nat,
                                        );
                                    },
                                }
                            },
                        }
                    }
                },
            },
        }
    }
}

/// What a precedence-climbing pass from `p` with threshold `min` produces:
/// the index after it and the expression grown from `left`, or the error.
pub open spec fn spec_parse_bin(s: Seq<char>, p: nat, left: Option<SpecExpr>, min: Prec) -> (
    nat,
    Result<Option<SpecExpr>, ParseError>,
) {
    match spec_parse_bin_fuel(s, p, left, min, (s.len() - p + 1) as nat) {
        Some(r) => r,
        None => (p, Ok(None)),
    }
}

/// One unfolding of [`spec_parse_bin`], written over itself, as the
/// parser's loop walks it: fetch an operator, parse the right operand, let
/// the tighter levels bind it, then continue with the grown tree.
pub proof fn lemma_parse_bin_unfold(s: Seq<char>, p: nat, left: Option<SpecExpr>, min: Prec)
    requires
        p <= s.len(),
    ensures
        ({
            let (rp, rr) = spec_parse_bin(s, p, left, min);
            p <= rp <= s.len()
        }),
        ({
            let r = spec_parse_bin(s, p, left, min);
            if left is None {
                r == (p, Ok::<Option<SpecExpr>, ParseError>(None))
            } else {
                let l = left->0;
                match spec_fetch(s, p) {
                    None => r == (s.len(), Ok::<Option<SpecExpr>, ParseError>(Some(l))),
                    Some((a, b, k)) => match spec_get_bin_op(k) {
                        None => r == (a, Ok::<Option<SpecExpr>, ParseError>(Some(l))),
                        Some(op) => if op.spec_prec().rank() < min.rank() {
                            r == (a, Ok::<Option<SpecExpr>, ParseError>(Some(l)))
                        } else {
                            let next_min = if op.spec_assoc() is Left {
                                op.spec_prec().spec_next()
                            } else {
                                op.spec_prec()
                            };
                            let (p2, r2) = spec_parse_prim(s, b);
                            match r2 {
                                Err(e) => r == (p2, Err::<Option<SpecExpr>, ParseError>(e)),
                                Ok(None) => r == (
                                    p2,
                                    Err::<Option<SpecExpr>, ParseError>(ParseError::BadBinOp),
                                ),
                                Ok(Some(right)) => {
                                    let (p3, r3) = spec_parse_bin(s, p2, Some(right), next_min);
                                    match r3 {
                                        Err(e) => r == (
                                            p3,
                                            Err::<Option<SpecExpr>, ParseError>(e),
                                        ),
                                        Ok(None) => r == (
                                            p3,
                                            Err::<Option<SpecExpr>, ParseError>(
                                                ParseError::BadBinOp,
                                            ),
                                        ),
                                        Ok(Some(rexp)) => r == spec_parse_bin(
                                            s,
                                            p3,
                                            Some(
                                                SpecExpr::Bin {
                                                    op,
                                                    left: Box::new(l),
                                                    right: Box::new(rexp),
                                                },
                                            ),
                                            min,
                                        ),
                                    }
                                },
                            }
                        },
                    },
                }
            }
        }),
{
    let f = (s.len() - p + 1) as nat;
    lemma_parse_bin_fuel_agree(s, p, left, min, f, f);
    if left is Some {
        lemma_fetch_bounds(s, p);
        match spec_fetch(s, p) {
            None => {},
            Some((a, b, k)) => match spec_get_bin_op(k) {
                None => {},
                Some(op) => {
                    if op.spec_prec().rank() < min.rank() {
                    } else {
                        let next_min = if op.spec_assoc() is Left {
                            op.spec_prec().spec_next()
                        } else {
                            op.spec_prec()
                        };
                        lemma_prim_bounds(s, b);
                        let (p2, r2) = spec_parse_prim(s, b);
                        match r2 {
                            Err(e) => {},
                            Ok(None) => {},
                            Ok(Some(right)) => {
                                lemma_parse_bin_fuel_agree(
                                    s,
                                    p2,
                                    Some(right),
                                    next_min,
                                    (f - 1) as nat,
                                    (s.len() - p2 + 1) as nat,
                                );
                                let (p3, r3) = spec_parse_bin(s, p2, Some(right), next_min);
                                match r3 {
                                    Err(e) => {},
                                    Ok(None) => {},
                                    Ok(Some(rexp)) => {
                                        let l = left->0;
                                        let grown = SpecExpr::Bin {
                                            op,
                                            left: Box::new(l),
                                            right: Box::new(rexp),
                                        };
                                        lemma_parse_bin_fuel_agree(
                                            s,
                                            p3,
                                            Some(grown),
                                            min,
                                            (f - 1) as nat,
                                            (s.len() - p3 + 1) as nat,
                                        );
                                    },
                                }
                            },
                        }
                    }
                },
            },
        }
    }
}

/// What one `parse_expr` call produces from `p`: a primary expression, then
/// every binary operator that applies at the loosest threshold.
pub open spec fn spec_parse_expr(s: Seq<char>, p: nat) -> (nat, Result<
    Option<SpecExpr>,
    ParseError,
>) {
    let (p1, r1) = spec_parse_prim(s, p);
    match r1 {
        Err(e) => (p1, Err(e)),
        Ok(l) => spec_parse_bin(s, p1, l, Prec::Min),
    }
}

/// The leaf a primary token makes: its exact source text, as an identifier
/// or a numeric literal.
pub open spec fn spec_leaf(s: Seq<char>, a: nat, b: nat, k: TokenKind) -> SpecExpr {
    if k is Ident {
        SpecExpr::Ident { name: s.subrange(a as int, b as int) }
    } else {
        SpecExpr::Num { value: s.subrange(a as int, b as int) }
    }
}

/// Three leaves chained by two operators of equal precedence group to the
/// left: the first operator binds the first two leaves, and the second
/// takes that tree as its left operand.
pub proof fn theorem_left_associativity(s: Seq<char>, p: nat)
    requires
        p <= s.len(),
        ({
            match spec_fetch(s, p) {
                None => false,
                Some((a1, b1, k1)) => (k1 is Ident || k1 is Num) && match spec_fetch(s, b1) {
                    None => false,
                    Some((a2, b2, k2)) => match spec_get_bin_op(k2) {
                        None => false,
                        Some(op1) => match spec_fetch(s, b2) {
                            None => false,
                            Some((a3, b3, k3)) => (k3 is Ident || k3 is Num) && match spec_fetch(
                                s,
                                b3,
                            ) {
                                None => false,
                                Some((a4, b4, k4)) => match spec_get_bin_op(k4) {
                                    None => false,
                                    Some(op2) => op2.spec_prec() == op1.spec_prec() && match
                                        spec_fetch(s, b4) {
                                        None => false,
                                        Some((a5, b5, k5)) => (k5 is Ident || k5 is Num)
                                            && spec_fetch(s, b5) is None,
                                    },
                                },
                            },
                        },
                    },
                },
            }
        }),
    ensures
        ({
            let (a1, b1, k1) = spec_fetch(s, p)->0;
            let (a2, b2, k2) = spec_fetch(s, b1)->0;
            let op1 = spec_get_bin_op(k2)->0;
            let (a3, b3, k3) = spec_fetch(s, b2)->0;
            let (a4, b4, k4) = spec_fetch(s, b3)->0;
            let op2 = spec_get_bin_op(k4)->0;
            let (a5, b5, k5) = spec_fetch(s, b4)->0;
            spec_parse_expr(s, p) == (
                s.len() as nat,
                Ok::<Option<SpecExpr>, ParseError>(
                    Some(
                        SpecExpr::Bin {
                            op: op2,
                            left: Box::new(
                                SpecExpr::Bin {
                                    op: op1,
                                    left: Box::new(spec_leaf(s, a1, b1, k1)),
                                    right: Box::new(spec_leaf(s, a3, b3, k3)),
                                },
                            ),
                            right: Box::new(spec_leaf(s, a5, b5, k5)),
                        },
                    ),
                ),
            )
        }),
{
    let (a1, b1, k1) = spec_fetch(s, p)->0;
    let (a2, b2, k2) = spec_fetch(s, b1)->0;
    let op1 = spec_get_bin_op(k2)->0;
    let (a3, b3, k3) = spec_fetch(s, b2)->0;
    let (a4, b4, k4) = spec_fetch(s, b3)->0;
    let op2 = spec_get_bin_op(k4)->0;
    let (a5, b5, k5) = spec_fetch(s, b4)->0;
    lemma_fetch_bounds(s, p);
    lemma_fetch_bounds(s, b1);
    lemma_fetch_bounds(s, b2);
    lemma_fetch_bounds(s, b3);
    lemma_fetch_bounds(s, b4);
    let leaf1 = spec_leaf(s, a1, b1, k1);
    let leaf2 = spec_leaf(s, a3, b3, k3);
    let leaf3 = spec_leaf(s, a5, b5, k5);
    let inner = SpecExpr::Bin {
        op: op1,
        left: Box::new(leaf1),
        right: Box::new(leaf2),
    };
    let full = SpecExpr::Bin { op: op2, left: Box::new(inner), right: Box::new(leaf3) };
    // the second operator token is found again from its own start
    assert(spec_fetch(s, a4) == Some((a4, b4, k4)));
    lemma_parse_bin_unfold(s, b1, Some(leaf1), Prec::Min);
    lemma_parse_bin_unfold(s, b3, Some(leaf2), op1.spec_prec().spec_next());
    lemma_parse_bin_unfold(s, a4, Some(inner), Prec::Min);
    lemma_parse_bin_unfold(s, b5, Some(leaf3), op2.spec_prec().spec_next());
    assert(spec_fetch(s, s.len() as nat) is None);
    lemma_parse_bin_unfold(s, s.len() as nat, Some(full), Prec::Min);
}

/// A tighter operator after a looser one takes the middle leaf for itself:
/// the looser operator's right operand is the whole tighter tree.
pub proof fn theorem_precedence(s: Seq<char>, p: nat)
    requires
        p <= s.len(),
        ({
            match spec_fetch(s, p) {
                None => false,
                Some((a1, b1, k1)) => (k1 is Ident || k1 is Num) && match spec_fetch(s, b1) {
                    None => false,
                    Some((a2, b2, k2)) => match spec_get_bin_op(k2) {
                        None => false,
                        Some(op1) => op1.spec_prec() == Prec::Add && match spec_fetch(s, b2) {
                            None => false,
                            Some((a3, b3, k3)) => (k3 is Ident || k3 is Num) && match spec_fetch(
                                s,
                                b3,
                            ) {
                                None => false,
                                Some((a4, b4, k4)) => match spec_get_bin_op(k4) {
                                    None => false,
                                    Some(op2) => op2.spec_prec() == Prec::Mul && match spec_fetch(
                                        s,
                                        b4,
                                    ) {
                                        None => false,
                                        Some((a5, b5, k5)) => (k5 is Ident || k5 is Num)
                                            && spec_fetch(s, b5) is None,
                                    },
                                },
                            },
                        },
                    },
                },
            }
        }),
    ensures
        ({
            let (a1, b1, k1) = spec_fetch(s, p)->0;
            let (a2, b2, k2) = spec_fetch(s, b1)->0;
            let op1 = spec_get_bin_op(k2)->0;
            let (a3, b3, k3) = spec_fetch(s, b2)->0;
            let (a4, b4, k4) = spec_fetch(s, b3)->0;
            let op2 = spec_get_bin_op(k4)->0;
            let (a5, b5, k5) = spec_fetch(s, b4)->0;
            spec_parse_expr(s, p) == (
                s.len() as nat,
                Ok::<Option<SpecExpr>, ParseError>(
                    Some(
                        SpecExpr::Bin {
                            op: op1,
                            left: Box::new(spec_leaf(s, a1, b1, k1)),
                            right: Box::new(
                                SpecExpr::Bin {
                                    op: op2,
                                    left: Box::new(spec_leaf(s, a3, b3, k3)),
                                    right: Box::new(spec_leaf(s, a5, b5, k5)),
                                },
                            ),
                        },
                    ),
                ),
            )
        }),
{
    let (a1, b1, k1) = spec_fetch(s, p)->0;
    let (a2, b2, k2) = spec_fetch(s, b1)->0;
    let op1 = spec_get_bin_op(k2)->0;
    let (a3, b3, k3) = spec_fetch(s, b2)->0;
    let (a4, b4, k4) = spec_fetch(s, b3)->0;
    let op2 = spec_get_bin_op(k4)->0;
    let (a5, b5, k5) = spec_fetch(s, b4)->0;
    lemma_fetch_bounds(s, p);
    lemma_fetch_bounds(s, b1);
    lemma_fetch_bounds(s, b2);
    lemma_fetch_bounds(s, b3);
    lemma_fetch_bounds(s, b4);
    let leaf1 = spec_leaf(s, a1, b1, k1);
    let leaf2 = spec_leaf(s, a3, b3, k3);
    let leaf3 = spec_leaf(s, a5, b5, k5);
    let inner = SpecExpr::Bin {
        op: op2,
        left: Box::new(leaf2),
        right: Box::new(leaf3),
    };
    let full = SpecExpr::Bin { op: op1, left: Box::new(leaf1), right: Box::new(inner) };
    lemma_parse_bin_unfold(s, b1, Some(leaf1), Prec::Min);
    lemma_parse_bin_unfold(s, b3, Some(leaf2), Prec::Mul);
    lemma_parse_bin_unfold(s, b5, Some(leaf3), Prec::Max);
    assert(spec_fetch(s, s.len() as nat) is None);
    lemma_parse_bin_unfold(s, s.len() as nat, Some(inner), Prec::Mul);
    lemma_parse_bin_unfold(s, s.len() as nat, Some(full), Prec::Min);
}

/// Where the first token of an expression is neither an identifier nor a
/// number, the parse fails with the primary-expression error, and the
/// parser stands at that token's start, ready to deliver it again.
pub proof fn theorem_bad_primary(s: Seq<char>, p: nat)
    requires
        p <= s.len(),
        ({
            match spec_fetch(s, p) {
                None => false,
                Some((a, b, k)) => !(k is Ident) && !(k is Num),
            }
        }),
    ensures
        ({
            let (a, b, k) = spec_fetch(s, p)->0;
            spec_parse_expr(s, p) == (a, Err::<Option<SpecExpr>, ParseError>(ParseError::BadPrim))
        }),
{
}

/// Where an expression ends right after a binary operator — an identifier
/// or numeric token, then the operator, then nothing but whitespace — the
/// parse fails with the binary-operand error.
pub proof fn theorem_missing_operand(s: Seq<char>, p: nat)
    requires
        p <= s.len(),
        ({
            match spec_fetch(s, p) {
                None => false,
                Some((a, b, k)) => (k is Ident || k is Num) && match spec_fetch(s, b) {
                    None => false,
                    Some((a2, b2, k2)) => spec_get_bin_op(k2) is Some && spec_fetch(s, b2)
                        is None,
                },
            }
        }),
    ensures
        spec_parse_expr(s, p).1 == Err::<Option<SpecExpr>, ParseError>(ParseError::BadBinOp),
{
    let (a, b, k) = spec_fetch(s, p)->0;
    lemma_fetch_bounds(s, p);
    let (p1, r1) = spec_parse_prim(s, p);
    let leaf = r1->Ok_0->0;
    lemma_fetch_bounds(s, b);
    lemma_parse_bin_unfold(s, b, Some(leaf), Prec::Min);
    let (a2, b2, k2) = spec_fetch(s, b)->0;
    let op = spec_get_bin_op(k2)->0;
    assert(!(op.spec_prec().rank() < Prec::Min.rank()));
}

/// The tree an optional expression represents.
pub open spec fn opt_view(o: Option<Expr>) -> Option<SpecExpr> {
    match o {
        None => None,
        Some(e) => Some(e.deep()),
    }
}

/// The tree or error a parse result represents.
pub open spec fn res_view(r: Result<Option<Expr>, ParseError>) -> Result<
    Option<SpecExpr>,
    ParseError,
> {
    match r {
        Ok(o) => Ok(opt_view(o)),
        Err(e) => Err(e),
    }
}

/// The parser: the text, a running byte offset, the scanner, and one
/// shelved token of pushback with its length in characters.
pub struct Parser {
    text: Vec<char>,
    cur: usize,
    lexer: Lexer,
    token: Option<Token>,
    token_chars: usize,
}

impl Parser {
    /// The text being parsed.
    pub closed spec fn src(self) -> Seq<char> {
        self.text@
    }

    /// Character index of the next token to deliver: the scanner's position,
    /// less the shelved token if one is waiting.
    pub closed spec fn mark(self) -> int {
        self.lexer.at() - self.token_chars
    }

    /// The parser's invariant: the scanner walks this very text, the shelf
    /// holds exactly the token that ends at the scanner's position, and the
    /// byte offset equals the byte length of everything before the mark.
    pub closed spec fn wf(self) -> bool {
        &&& self.lexer.wf()
        &&& self.lexer.text() == self.text@
        &&& 0 <= self.mark() <= self.text@.len()
        &&& match self.token {
            None => self.token_chars == 0,
            Some(t) => {
                &&& 1 <= self.token_chars <= self.lexer.at()
                &&& spec_lex(self.text@.skip(self.lexer.at() - self.token_chars)) == Some(
                    (self.token_chars as nat, t.kind),
                )
                &&& t.len == byte_len(
                    self.text@.subrange(self.lexer.at() - self.token_chars, self.lexer.at()),
                )
            },
        }
        &&& self.cur == byte_len(self.text@.take(self.mark()))
    }

    /// The state right after a fetch from delivery index `m`: the shelf is
    /// empty and `token` is exactly what [`spec_fetch`] finds at `m`.
    pub closed spec fn fetched(self, m: nat, token: Option<(Token, usize)>) -> bool {
        match token {
            None => {
                &&& spec_fetch(self.text@, m) is None
                &&& self.mark() == self.text@.len()
                &&& self.token is None
            },
            Some((t, tc)) => {
                &&& 1 <= tc <= self.mark()
                &&& spec_fetch(self.text@, m) == Some(
                    (((self.mark() - tc) as nat), self.mark() as nat, t.kind),
                )
                &&& t.len == byte_len(self.text@.subrange(self.mark() - tc, self.mark()))
                &&& self.token is None
            },
        }
    }

    /// What well-formedness guarantees of the position: the delivery mark
    /// stays within the text.
    pub proof fn lemma_wf_bounds(self)
        requires
            self.wf(),
        ensures
            0 <= self.mark() <= self.src().len(),
    {
    }

    pub fn new(text: &str) -> (p: Parser)
        ensures
            p.wf(),
            p.src() == text@,
            p.mark() == 0,
    {
        let chars = collect_chars(text);
        let lexer = Lexer::new(text);
        let p = Parser { text: chars, cur: 0, lexer, token: None, token_chars: 0 };
        proof {
            p.lexer.lemma_wf_bounds();
            assert(p.text@.take(0) =~= Seq::<char>::empty());
        }
        p
    }

    /// The byte offset of everything consumed so far; a shelved token does
    /// not count until it is delivered again.
    pub fn pos(&self) -> (n: usize)
        requires
            self.wf(),
        ensures
            n == byte_len(self.src().take(self.mark())),
    {
        self.cur
    }

    /// Delivers the next token — from the shelf if one waits, else from the
    /// scanner — together with its length in characters, and counts its
    /// bytes into the running offset.
    fn next_token(&mut self) -> (r: Option<(Token, usize)>)
        requires
            old(self).wf(),
        ensures
            final(self).wf(),
            final(self).src() == old(self).src(),
            final(self).token is None,
            match spec_lex(old(self).src().skip(old(self).mark())) {
                None => r is None && final(self).mark() == old(self).mark(),
                Some((n, k)) => {
                    &&& final(self).mark() == old(self).mark() + n
                    &&& (r matches Some(p) && p.1 == n && p.0.kind == k && p.0.len == byte_len(
                        old(self).src().subrange(old(self).mark(), old(self).mark() + n),
                    ))
                },
            },
    {
        proof {
            self.lexer.lemma_wf_bounds();
        }
        let ghost s = self.text@;
        let ghost m0 = self.mark();
        let shelved = self.token;
        match shelved {
            Some(t) => {
                self.token = None;
                let tc = self.token_chars;
                self.token_chars = 0;
                proof {
                    assert(s.take(m0 + tc) =~= s.take(m0) + s.subrange(m0, m0 + tc));
                    crate::chars::lemma_byte_len_append(s.take(m0), s.subrange(m0, m0 + tc));
                    assert(s.take(m0 + tc) =~= s.subrange(0, m0 + tc));
                    crate::chars::lemma_byte_len_subrange_le(s, 0, m0 + tc);
                }
                self.cur = self.cur + t.len;
                Some((t, tc))
            },
            None => {
                let before = self.lexer.char_pos();
                let t = self.lexer.lex();
                match t {
                    Some(tok) => {
                        let after = self.lexer.char_pos();
                        let tc = after - before;
                        proof {
                            lemma_lex_progress(s.skip(m0));
                            let n = spec_lex(s.skip(m0))->Some_0.0;
                            assert(m0 + n <= s.len());
                            assert(old(self).lexer.rem().take(n as int) =~= s.subrange(
                                m0,
                                m0 + n,
                            ));
                            assert(s.take(m0 + n) =~= s.take(m0) + s.subrange(m0, m0 + n));
                            crate::chars::lemma_byte_len_append(s.take(m0), s.subrange(m0, m0 + n));
                            assert(s.take(m0 + n) =~= s.subrange(0, m0 + n));
                            crate::chars::lemma_byte_len_subrange_le(s, 0, m0 + n);
                            self.lexer.lemma_wf_bounds();
                        }
                        self.cur = self.cur + tok.len;
                        Some((tok, tc))
                    },
                    None => None,
                }
            },
        }
    }

    /// Delivers the next token that is not whitespace, consuming any run of
    /// whitespace tokens before it.
    fn next_proper_token(&mut self) -> (r: Option<(Token, usize)>)
        requires
            old(self).wf(),
        ensures
            final(self).wf(),
            final(self).src() == old(self).src(),
            old(self).mark() <= final(self).mark() <= final(self).src().len(),
            final(self).fetched(old(self).mark() as nat, r),
    {
        let ghost s = self.text@;
        loop
            invariant
                self.wf(),
                s == old(self).src(),
                self.src() == s,
                0 <= old(self).mark(),
                old(self).mark() <= self.mark() <= s.len(),
                spec_fetch(s, old(self).mark() as nat) == spec_fetch(s, self.mark() as nat),
            decreases s.len() - self.mark(),
        {
            let ghost mi = self.mark();
            let t = self.next_token();
            match t {
                None => {
                    proof {
                        assert(s.skip(mi).len() == 0);
                    }
                    return None;
                },
                Some((tok, tc)) => {
                    proof {
                        lemma_lex_progress(s.skip(mi));
                    }
                    if !matches!(tok.kind, TokenKind::Whitespace) {
                        return Some((tok, tc));
                    }
                },
            }
        }
    }

    /// Puts a just-delivered token back on the shelf, subtracting its bytes
    /// from the running offset so it will be delivered again.
    fn shelf_token(&mut self, t: Option<(Token, usize)>)
        requires
            old(self).wf(),
            old(self).token is None,
            match t {
                None => true,
                Some((tok, tc)) => {
                    &&& 1 <= tc <= old(self).mark()
                    &&& spec_lex(old(self).src().skip(old(self).mark() - tc)) == Some(
                        (tc as nat, tok.kind),
                    )
                    &&& tok.len == byte_len(
                        old(self).src().subrange(old(self).mark() - tc, old(self).mark()),
                    )
                },
            },
        ensures
            final(self).wf(),
            final(self).src() == old(self).src(),
            final(self).mark() == old(self).mark() - (match t {
                None => 0int,
                Some((tok, tc)) => tc as int,
            }),
    {
        match t {
            Some((tok, tc)) => {
                let ghost s = self.text@;
                let ghost m0 = self.mark();
                proof {
                    assert(s.take(m0) =~= s.take(m0 - tc) + s.subrange(m0 - tc, m0));
                    crate::chars::lemma_byte_len_append(s.take(m0 - tc), s.subrange(m0 - tc, m0));
                }
                self.token = Some(tok);
                self.token_chars = tc;
                self.cur = self.cur - tok.len;
            },
            None => {},
        }
    }

    /// The binary operator a token stands for; a token of any other kind,
    /// or no token, is simply not one.
    fn get_bin_op(&self, token: Option<&Token>) -> (r: Result<Option<BinOp>, ParseError>)
        ensures
            r == Result::<Option<BinOp>, ParseError>::Ok(
                match token {
                    Some(t) => spec_get_bin_op(t.kind),
                    None => None,
                },
            ),
    {
        Ok(
            match token {
                Some(t) => match t.kind {
                    TokenKind::Op(op) => Some(
                        match op {
                            Op::Plus => BinOp::Add,
                            Op::Minus => BinOp::Sub,
                            Op::Asterisk => BinOp::Mul,
                            Op::Slash => BinOp::Div,
                            Op::Percent => BinOp::Mod,
                        },
                    ),
                    _ => None,
                },
                None => None,
            },
        )
    }

    /// Parses one primary expression: an identifier or numeric token makes
    /// a leaf carrying that token's exact text; end of input is no error;
    /// any other token is shelved and reported as `BadPrim`.
    fn parse_prim_expr(&mut self) -> (r: Result<Option<Expr>, ParseError>)
        requires
            old(self).wf(),
        ensures
            final(self).wf(),
            final(self).src() == old(self).src(),
            ({
                let (p1, r1) = spec_parse_prim(old(self).src(), old(self).mark() as nat);
                final(self).mark() == p1 && res_view(r) == r1
            }),
    {
        let ghost s = self.text@;
        let ghost m0 = self.mark() as nat;
        proof {
            lemma_fetch_bounds(s, m0);
        }
        let t = self.next_proper_token();
        match t {
            Some((tok, tc)) => {
                match tok.kind {
                    TokenKind::Ident => {
                        let b = self.lexer.char_pos();
                        let a = b - tc;
                        let name = chars_to_string(&self.text, a, b);
                        Ok(Some(Expr::Ident(Ident { name })))
                    },
                    TokenKind::Num => {
                        let b = self.lexer.char_pos();
                        let a = b - tc;
                        let value = chars_to_string(&self.text, a, b);
                        Ok(Some(Expr::Num(Num { value })))
                    },
                    _ => {
                        self.shelf_token(Some((tok, tc)));
                        Err(ParseError::BadPrim)
                    },
                }
            },
            None => Ok(None),
        }
    }

    /// The precedence-climbing loop. Starting from `left`, repeatedly takes
    /// an operator of at least `min` precedence, parses its right operand,
    /// lets tighter levels bind it first, and grows the tree leftwards; the
    /// first token that does not continue the expression goes back on the
    /// shelf.
    #[verifier::rlimit(100)]
    pub fn parse_bin_expr(&mut self, left: Option<Expr>, min: Prec) -> (r: Result<
        Option<Expr>,
        ParseError,
    >)
        requires
            old(self).wf(),
        ensures
            final(self).wf(),
            final(self).src() == old(self).src(),
            ({
                let (p1, r1) = spec_parse_bin(
                    old(self).src(),
                    old(self).mark() as nat,
                    opt_view(left),
                    min,
                );
                final(self).mark() == p1 && res_view(r) == r1
            }),
        decreases self.src().len() - self.mark(),
    {
        let ghost s = self.text@;
        let ghost m0 = self.mark() as nat;
        let mut lhs = match left {
            None => {
                return Ok(None);
            },
            Some(l) => l,
        };
        let ghost target = spec_parse_bin(s, m0, Some(lhs.deep()), min);
        let ghost mut m = m0;
        let mut token = self.next_proper_token();
        loop
            invariant
                self.wf(),
                s == old(self).src(),
                self.src() == s,
                m0 == old(self).mark(),
                target == spec_parse_bin(s, m0, opt_view(left), min),
                m0 <= m <= s.len(),
                self.fetched(m, token),
                self.mark() <= s.len(),
                spec_parse_bin(s, m, Some(lhs.deep()), min) == target,
            ensures
                self.wf(),
                self.src() == s,
                m0 <= m <= s.len(),
                self.fetched(m, token),
                spec_parse_bin(s, m, Some(lhs.deep()), min) == target,
                match token {
                    None => true,
                    Some((t, tc)) => {
                        let o = spec_get_bin_op(t.kind);
                        o is None || o->0.spec_prec().rank() < min.rank()
                    },
                },
            decreases s.len() - m,
        {
            proof {
                lemma_parse_bin_unfold(s, m, Some(lhs.deep()), min);
                lemma_fetch_bounds(s, m);
            }
            let tref = match &token {
                Some(p) => Some(&p.0),
                None => None,
            };
            let op = match self.get_bin_op(tref) {
                Ok(Some(op)) => op,
                Ok(None) => {
                    break ;
                },
                Err(e) => {
                    return Err(e);
                },
            };
            let prec = op.prec();
            if prec.lt(&min) {
                break ;
            }
            let ghost b = self.mark() as nat;
            let right = match self.parse_prim_expr() {
                Ok(rr) => rr,
                Err(e) => {
                    return Err(e);
                },
            };
            let ghost p2 = self.mark() as nat;
            let next_min = match op.assoc() {
                Assoc::Left => prec.next(),
                Assoc::Right => prec,
            };
            proof {
                lemma_prim_bounds(s, b);
            }
            let ghost rv = opt_view(right);
            let rexp = match self.parse_bin_expr(right, next_min) {
                Ok(Some(rr)) => rr,
                Ok(None) => {
                    return Err(ParseError::BadBinOp);
                },
                Err(e) => {
                    return Err(e);
                },
            };
            let ghost p3 = self.mark() as nat;
            proof {
                lemma_parse_bin_unfold(s, p2, rv, next_min);
            }
            lhs = Expr::Bin(BinExpr::new(op, lhs, rexp));
            proof {
                m = p3;
            }
            token = self.next_proper_token();
        }
        proof {
            lemma_parse_bin_unfold(s, m, Some(lhs.deep()), min);
            lemma_fetch_bounds(s, m);
        }
        self.shelf_token(token);
        Ok(Some(lhs))
    }

    /// Parses one expression: a primary expression, then every binary
    /// operator that applies, at the loosest threshold. End of input yields
    /// nothing rather than an error.
    pub fn parse_expr(&mut self) -> (r: Result<Option<Expr>, ParseError>)
        requires
            old(self).wf(),
        ensures
            final(self).wf(),
            final(self).src() == old(self).src(),
            ({
                let (p1, r1) = spec_parse_expr(old(self).src(), old(self).mark() as nat);
                final(self).mark() == p1 && res_view(r) == r1
            }),
    {
        let left = match self.parse_prim_expr() {
            Ok(l) => l,
            Err(e) => {
                return Err(e);
            },
        };
        self.parse_bin_expr(left, Prec::Min)
    }
}

} // verus!
