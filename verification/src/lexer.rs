//! The small token scanner that feeds the expression parser.
//!
//! It recognises identifiers, decimal number runs, whitespace runs, the five
//! arithmetic operators, and nothing else; every other character is one
//! `Unknown` token. [`spec_lex`] states, over the remaining characters,
//! exactly what [`Lexer::lex`] produces.

use vstd::prelude::*;

verus! {

use crate::chars::ascii_digit;
use crate::chars::byte_len;
use crate::chars::collect_chars;
use crate::chars::ident_continue;
use crate::chars::ident_start;
use crate::chars::is_ascii_digit;
use crate::chars::is_ident_continue;
use crate::chars::is_ident_start;
use crate::chars::is_white_space;
use crate::chars::lemma_byte_len_split;
use crate::chars::take_while;
use crate::chars::white_space;
use crate::lex::p_ident_continue;
use crate::lex::p_white_space;

/// The operators this scanner knows.
#[derive(Debug, Clone, Copy, PartialEq, Eq, Structural)]
pub enum Op {
    Plus,
    Minus,
    Asterisk,
    Slash,
    Percent,
}

/// The classification of one scanned token.
#[derive(Debug, Clone, Copy, PartialEq, Eq, Structural)]
pub enum TokenKind {
    Unknown,
    Ident,
    Num,
    Whitespace,
    Op(Op),
}

/// One token: the number of source bytes it covers, and what it is.
#[derive(Debug, Clone, Copy, PartialEq, Eq, Structural)]
pub struct Token {
    pub len: usize,
    pub kind: TokenKind,
}

/// The decimal-digit predicate as a function value.
pub open spec fn p_ascii_digit() -> spec_fn(char) -> bool {
    |c: char| is_ascii_digit(c)
}

/// The next token of the remaining input: how many characters it takes and
/// its kind. An operator takes one character, except that `/` also consumes
/// the character after it when there is one.
pub open spec fn spec_lex(s: Seq<char>) -> Option<(nat, TokenKind)> {
    if s.len() == 0 {
        None
    } else {
        let c = s[0];
        if c == '+' {
            Some((1 as nat, TokenKind::Op(Op::Plus)))
        } else if c == '-' {
            Some((1 as nat, TokenKind::Op(Op::Minus)))
        } else if c == '*' {
            Some((1 as nat, TokenKind::Op(Op::Asterisk)))
        } else if c == '%' {
            Some((1 as nat, TokenKind::Op(Op::Percent)))
        } else if c == '/' {
            Some(
                (
                    if s.len() >= 2 {
                        2 as nat
                    } else {
                        1 as nat
                    },
                    TokenKind::Op(Op::Slash),
                ),
            )
        } else if is_ident_start(c) {
            Some(((1 + take_while(s.drop_first(), p_ident_continue())) as nat, TokenKind::Ident))
        } else if is_ascii_digit(c) {
            Some(((1 + take_while(s.drop_first(), p_ascii_digit())) as nat, TokenKind::Num))
        } else if is_white_space(c) {
            Some(((1 + take_while(s.drop_first(), p_white_space())) as nat, TokenKind::Whitespace))
        } else {
            Some((1 as nat, TokenKind::Unknown))
        }
    }
}

/// A token always takes at least one character and never more than remain.
pub proof fn lemma_lex_progress(s: Seq<char>)
    requires
        s.len() > 0,
    ensures
        spec_lex(s) is Some,
        ({
            let (n, k) = spec_lex(s)->Some_0;
            1 <= n <= s.len()
        }),
{
    crate::chars::lemma_take_while_le(s.drop_first(), p_ident_continue());
    crate::chars::lemma_take_while_le(s.drop_first(), p_ascii_digit());
    crate::chars::lemma_take_while_le(s.drop_first(), p_white_space());
}

/// The scanner: a text, a position in it, and the byte count that remains.
pub struct Lexer {
    chars: Vec<char>,
    idx: usize,
    remain: usize,
}

impl Lexer {
    /// The whole text under the scanner.
    pub closed spec fn text(self) -> Seq<char> {
        self.chars@
    }

    /// Index of the next character to scan.
    pub closed spec fn at(self) -> int {
        self.idx as int
    }

    /// The characters not yet scanned.
    pub open spec fn rem(self) -> Seq<char> {
        self.text().skip(self.at())
    }

    /// The position is in bounds and the byte count is honest.
    pub closed spec fn wf(self) -> bool {
        &&& self.idx <= self.chars@.len()
        &&& self.remain == byte_len(self.chars@.skip(self.idx as int))
        &&& byte_len(self.chars@) <= usize::MAX
    }

    pub proof fn lemma_wf_bounds(self)
        requires
            self.wf(),
        ensures
            0 <= self.at() <= self.text().len(),
            byte_len(self.text()) <= usize::MAX,
    {
    }

    pub fn new(text: &str) -> (l: Lexer)
        ensures
            l.wf(),
            l.text() == text@,
            l.at() == 0,
    {
        let chars = collect_chars(text);
        let mut l = Lexer { chars, idx: 0, remain: 0 };
        proof {
            assert(l.chars@.skip(0) =~= l.chars@);
        }
        let n = l.byte_size();
        l.remain = n;
        l
    }

    /// The byte length of the whole text.
    fn byte_size(&self) -> (n: usize)
        requires
            byte_len(self.chars@) <= usize::MAX,
        ensures
            n == byte_len(self.chars@),
    {
        let mut n: usize = 0;
        let mut i: usize = self.chars.len();
        proof {
            assert(self.chars@.skip(i as int) =~= Seq::<char>::empty());
        }
        while i > 0
            invariant
                i <= self.chars@.len(),
                n == byte_len(self.chars@.skip(i as int)),
                byte_len(self.chars@) <= usize::MAX,
            decreases i,
        {
            i = i - 1;
            let c = self.chars[i];
            proof {
                assert(self.chars@.skip(i as int)[0] == self.chars@[i as int]);
                assert(self.chars@.skip(i as int).drop_first() =~= self.chars@.skip(i + 1));
                crate::chars::lemma_byte_len_subrange_le(self.chars@, i as int, self.chars@.len() as int);
                assert(self.chars@.skip(i as int) =~= self.chars@.subrange(
                    i as int,
                    self.chars@.len() as int,
                ));
            }
            n = n + crate::chars::utf8_len(c);
        }
        proof {
            assert(self.chars@.skip(0) =~= self.chars@);
        }
        n
    }

    /// The character position, for callers that track token extents.
    pub(crate) fn char_pos(&self) -> (n: usize)
        ensures
            n == self.at(),
    {
        self.idx
    }

    /// Scans one token, or reports end of input. The token's `len` is the
    /// exact number of source bytes it covers.
    pub fn lex(&mut self) -> (r: Option<Token>)
        requires
            old(self).wf(),
        ensures
            final(self).wf(),
            final(self).text() == old(self).text(),
            match spec_lex(old(self).rem()) {
                None => r is None && final(self).at() == old(self).at(),
                Some((n, k)) => final(self).at() == old(self).at() + n && r == Some(
                    Token { len: byte_len(old(self).rem().take(n as int)) as usize, kind: k },
                ),
            },
    {
        let cur = self.remain;
        let c = match self.peek() {
            Some(c) => c,
            None => {
                return None;
            },
        };
        let kind: TokenKind;
        if c == '+' {
            kind = self.lex_op(Op::Plus);
        } else if c == '-' {
            kind = self.lex_op(Op::Minus);
        } else if c == '*' {
            kind = self.lex_op(Op::Asterisk);
        } else if c == '%' {
            kind = self.lex_op(Op::Percent);
        } else if c == '/' {
            let _ = self.advance();
            kind = self.lex_op(Op::Slash);
        } else if ident_start(c) {
            kind = self.lex_ident();
        } else if ascii_digit(c) {
            kind = self.lex_num();
        } else if white_space(c) {
            kind = self.lex_whitespace();
        } else {
            kind = self.lex_single(TokenKind::Unknown);
        }
        proof {
            let n = spec_lex(old(self).rem())->Some_0.0;
            lemma_byte_len_split(old(self).rem(), n as int);
            assert(old(self).rem().skip(n as int) =~= self.rem());
        }
        let len = cur - self.remain;
        Some(Token { len, kind })
    }

    fn lex_ident(&mut self) -> (k: TokenKind)
        requires
            old(self).wf(),
            old(self).rem().len() > 0,
        ensures
            final(self).wf(),
            final(self).text() == old(self).text(),
            final(self).at() == old(self).at() + 1 + take_while(
                old(self).rem().drop_first(),
                p_ident_continue(),
            ),
            k == TokenKind::Ident,
    {
        let pred = |c: char| -> (r: bool)
            ensures
                r == is_ident_continue(c),
            { ident_continue(c) };
        self.lex_while(TokenKind::Ident, pred, Ghost(p_ident_continue()))
    }

    fn lex_num(&mut self) -> (k: TokenKind)
        requires
            old(self).wf(),
            old(self).rem().len() > 0,
        ensures
            final(self).wf(),
            final(self).text() == old(self).text(),
            final(self).at() == old(self).at() + 1 + take_while(
                old(self).rem().drop_first(),
                p_ascii_digit(),
            ),
            k == TokenKind::Num,
    {
        let pred = |c: char| -> (r: bool)
            ensures
                r == is_ascii_digit(c),
            { ascii_digit(c) };
        self.lex_while(TokenKind::Num, pred, Ghost(p_ascii_digit()))
    }

    fn lex_whitespace(&mut self) -> (k: TokenKind)
        requires
            old(self).wf(),
            old(self).rem().len() > 0,
        ensures
            final(self).wf(),
            final(self).text() == old(self).text(),
            final(self).at() == old(self).at() + 1 + take_while(
                old(self).rem().drop_first(),
                p_white_space(),
            ),
            k == TokenKind::Whitespace,
    {
        let pred = |c: char| -> (r: bool)
            ensures
                r == is_white_space(c),
            { white_space(c) };
        self.lex_while(TokenKind::Whitespace, pred, Ghost(p_white_space()))
    }

    fn lex_op(&mut self, op: Op) -> (k: TokenKind)
        requires
            old(self).wf(),
        ensures
            final(self).wf(),
            final(self).text() == old(self).text(),
            final(self).at() == old(self).at() + if old(self).rem().len() > 0 {
                1int
            } else {
                0int
            },
            k == TokenKind::Op(op),
    {
        self.lex_single(TokenKind::Op(op))
    }

    /// Consumes one character, if any is left, and labels the token.
    fn lex_single(&mut self, kind: TokenKind) -> (k: TokenKind)
        requires
            old(self).wf(),
        ensures
            final(self).wf(),
            final(self).text() == old(self).text(),
            final(self).at() == old(self).at() + if old(self).rem().len() > 0 {
                1int
            } else {
                0int
            },
            k == kind,
    {
        let _ = self.advance();
        kind
    }

    /// Consumes one character, then more while `pred` holds of the next.
    fn lex_while<F: Fn(char) -> bool>(&mut self, kind: TokenKind, pred: F, Ghost(p): Ghost<
        spec_fn(char) -> bool,
    >) -> (k: TokenKind)
        requires
            old(self).wf(),
            old(self).rem().len() > 0,
            forall|c: char| #[trigger] pred.requires((c,)),
            forall|c: char, r: bool| #[trigger] pred.ensures((c,), r) ==> r == p(c),
        ensures
            final(self).wf(),
            final(self).text() == old(self).text(),
            final(self).at() == old(self).at() + 1 + take_while(old(self).rem().drop_first(), p),
            k == kind,
    {
        let _ = self.advance();
        proof {
            assert(old(self).rem().drop_first() =~= self.rem());
        }
        let ghost entry = *self;
        loop
            invariant
                self.wf(),
                self.text() == old(self).text(),
                entry.at() <= self.at(),
                entry.text() == self.text(),
                forall|c: char| #[trigger] pred.requires((c,)),
                forall|c: char, r: bool| #[trigger] pred.ensures((c,), r) ==> r == p(c),
                take_while(entry.rem(), p) == self.at() - entry.at() + take_while(self.rem(), p),
            ensures
                self.wf(),
                self.text() == old(self).text(),
                self.at() == entry.at() + take_while(entry.rem(), p),
            decreases self.text().len() - self.at(),
        {
            let stop = match self.peek() {
                Some(c) => !pred(c),
                None => true,
            };
            if stop {
                break ;
            }
            proof {
                assert(take_while(self.rem(), p) == 1 + take_while(self.rem().drop_first(), p));
            }
            let ghost prev = *self;
            let _ = self.advance();
            proof {
                assert(prev.rem().drop_first() =~= self.rem());
            }
        }
        kind
    }

    /// Consumes and returns the next character, or nothing at end of input.
    fn advance(&mut self) -> (r: Option<char>)
        requires
            old(self).wf(),
        ensures
            final(self).wf(),
            final(self).text() == old(self).text(),
            match r {
                Some(c) => old(self).rem().len() > 0 && c == old(self).rem()[0]
                    && final(self).at() == old(self).at() + 1,
                None => old(self).rem().len() == 0 && final(self).at() == old(self).at(),
            },
    {
        if self.idx < self.chars.len() {
            let c = self.chars[self.idx];
            let n = crate::chars::utf8_len(c);
            proof {
                assert(self.chars@.skip(self.idx as int)[0] == self.chars@[self.idx as int]);
                assert(self.chars@.skip(self.idx as int).drop_first() =~= self.chars@.skip(
                    self.idx + 1,
                ));
            }
            self.idx = self.idx + 1;
            self.remain = self.remain - n;
            Some(c)
        } else {
            None
        }
    }

    /// Looks at the next character without consuming it.
    fn peek(&self) -> (r: Option<char>)
        requires
            self.wf(),
        ensures
            r == if self.rem().len() > 0 {
                Some(self.rem()[0])
            } else {
                Option::<char>::None
            },
    {
        if self.idx < self.chars.len() {
            Some(self.chars[self.idx])
        } else {
            None
        }
    }
}

} // verus!
