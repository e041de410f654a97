//! The character cursor and the tokenizer state machine built on it.
//!
//! [`Cursor`] walks a text forward, one character at a time, and measures in
//! bytes how far it has come since the last [`Cursor::rebase`].
//! [`Cursor::next_token`] classifies the next run of characters as one
//! [`Token`]; the spec functions beside it state, over the remaining
//! character sequence, exactly how many characters each token takes and what
//! kind it gets.

use vstd::prelude::*;

verus! {

use crate::token::Base;
use crate::token::CommentKind;
use crate::token::Delim;
use crate::token::LitKind;
use crate::token::Punc;
use crate::token::Token;
use crate::token::TokenKind;
use crate::chars::ascii_digit;
use crate::chars::binary_digit;
use crate::chars::byte_len;
use crate::chars::chars_to_string;
use crate::chars::hex_digit;
use crate::chars::ident_continue;
use crate::chars::ident_start;
use crate::chars::is_ascii_digit;
use crate::chars::is_binary_digit;
use crate::chars::is_hex_digit;
use crate::chars::is_ident_continue;
use crate::chars::is_ident_start;
use crate::chars::is_newline;
use crate::chars::is_octal_digit;
use crate::chars::is_white_space;
use crate::chars::newline;
use crate::chars::octal_digit;
use crate::chars::white_space;
use crate::chars::lemma_byte_len_push;
use crate::chars::lemma_byte_len_subrange_le;
use crate::chars::take_while;

/// A forward-only scanner over a text, with bounded lookahead and a byte
/// count of what was consumed since the last token boundary.
pub struct Cursor {
    chars: Vec<char>,
    idx: usize,
    base: usize,
    consumed: usize,
}

impl Cursor {
    /// The whole text under the cursor.
    pub closed spec fn text(self) -> Seq<char> {
        self.chars@
    }

    /// Index of the next character to consume.
    pub closed spec fn at(self) -> int {
        self.idx as int
    }

    /// Index where the current token began: the last rebase point.
    pub closed spec fn mark(self) -> int {
        self.base as int
    }

    /// The characters not yet consumed.
    pub open spec fn rem(self) -> Seq<char> {
        self.text().skip(self.at())
    }

    /// Bytes consumed since the last rebase.
    pub open spec fn spec_pos(self) -> nat {
        byte_len(self.text().subrange(self.mark(), self.at()))
    }

    /// The cursor's positions are in bounds and its byte count is honest.
    pub closed spec fn wf(self) -> bool {
        &&& self.base <= self.idx <= self.chars@.len()
        &&& self.consumed == byte_len(self.chars@.subrange(self.base as int, self.idx as int))
        &&& byte_len(self.chars@) <= usize::MAX
    }

    /// What well-formedness guarantees of the positions: the rebase point
    /// never passes the cursor, the cursor never passes the end, and the
    /// text fits in addressable memory.
    pub proof fn lemma_wf_bounds(self)
        requires
            self.wf(),
        ensures
            0 <= self.mark() <= self.at() <= self.text().len(),
            byte_len(self.text()) <= usize::MAX,
    {
    }

    pub fn new(text: &str) -> (c: Cursor)
        ensures
            c.wf(),
            c.text() == text@,
            c.at() == 0,
            c.mark() == 0,
    {
        let chars = crate::chars::collect_chars(text);
        proof {
            assert(chars@.subrange(0, 0) =~= Seq::<char>::empty());
        }
        Cursor { chars, idx: 0, base: 0, consumed: 0 }
    }

    /// The text that remains, as a fresh string.
    pub fn as_str(&self) -> (s: String)
        requires
            self.wf(),
        ensures
            s@ == self.rem(),
    {
        chars_to_string(&self.chars, self.idx, self.chars.len())
    }

    /// Number of bytes consumed since the last rebase.
    pub fn pos(&self) -> (n: usize)
        requires
            self.wf(),
        ensures
            n == self.spec_pos(),
    {
        self.consumed
    }

    /// Makes the current position the new token boundary, so that
    /// [`Cursor::pos`] measures only what comes after it.
    pub fn rebase(&mut self)
        requires
            old(self).wf(),
        ensures
            final(self).wf(),
            final(self).text() == old(self).text(),
            final(self).at() == old(self).at(),
            final(self).mark() == final(self).at(),
    {
        self.base = self.idx;
        self.consumed = 0;
        proof {
            assert(self.chars@.subrange(self.idx as int, self.idx as int) =~= Seq::<
                char,
            >::empty());
        }
    }

    /// Consumes and returns the next character, or nothing at end of input.
    pub fn bump(&mut self) -> (r: Option<char>)
        requires
            old(self).wf(),
        ensures
            final(self).wf(),
            final(self).text() == old(self).text(),
            final(self).mark() == old(self).mark(),
            match r {
                Some(c) => old(self).rem().len() > 0 && c == old(self).rem()[0]
                    && final(self).at() == old(self).at() + 1,
                None => old(self).rem().len() == 0 && final(self).at() == old(self).at(),
            },
    {
        if self.idx < self.chars.len() {
            let c = self.chars[self.idx];
            let n = crate::chars::utf8_len(c);
            proof {
                let pre = self.chars@.subrange(self.base as int, self.idx as int);
                assert(self.chars@.subrange(self.base as int, self.idx + 1) =~= pre.push(
                    self.chars@[self.idx as int],
                ));
                lemma_byte_len_push(pre, self.chars@[self.idx as int]);
                lemma_byte_len_subrange_le(self.chars@, self.base as int, self.idx + 1);
            }
            self.idx = self.idx + 1;
            self.consumed = self.consumed + n;
            Some(c)
        } else {
            None
        }
    }

    /// Consumes `n + 1` characters, returning the last one consumed; at end
    /// of input it consumes what is left and returns nothing.
    pub fn bump_nth(&mut self, n: usize) -> (r: Option<char>)
        requires
            old(self).wf(),
            n < usize::MAX,
        ensures
            final(self).wf(),
            final(self).text() == old(self).text(),
            final(self).mark() == old(self).mark(),
            match r {
                Some(c) => old(self).rem().len() >= n + 1 && c == old(self).rem()[n as int]
                    && final(self).at() == old(self).at() + n + 1,
                None => old(self).rem().len() < n + 1
                    && final(self).at() == old(self).text().len(),
            },
    {
        let mut i: usize = 0;
        let mut last: Option<char> = None;
        loop
            invariant_except_break
                i <= n,
                self.at() == old(self).at() + i,
            invariant
                self.wf(),
                self.text() == old(self).text(),
                self.mark() == old(self).mark(),
            ensures
                self.wf(),
                self.text() == old(self).text(),
                self.mark() == old(self).mark(),
                match last {
                    Some(c) => old(self).rem().len() >= n + 1 && c == old(self).rem()[n as int]
                        && self.at() == old(self).at() + n + 1,
                    None => old(self).rem().len() < n + 1
                        && self.at() == old(self).text().len(),
                },
            decreases n - i,
        {
            match self.bump() {
                Some(c) => {
                    if i == n {
                        last = Some(c);
                        break ;
                    }
                    i = i + 1;
                },
                None => {
                    last = None;
                    break ;
                },
            }
        }
        last
    }

    /// Looks at the next character without consuming it.
    pub fn peek(&self) -> (r: Option<char>)
        requires
            self.wf(),
        ensures
            r == if self.rem().len() > 0 {
                Some(self.rem()[0])
            } else {
                Option::<char>::None
            },
    {
        if self.idx < self.chars.len() {
            Some(self.chars[self.idx])
        } else {
            None
        }
    }

    /// Looks at the character `n` positions ahead without consuming.
    pub fn peek_nth(&self, n: usize) -> (r: Option<char>)
        requires
            self.wf(),
            n < usize::MAX,
        ensures
            r == if self.rem().len() > n {
                Some(self.rem()[n as int])
            } else {
                Option::<char>::None
            },
    {
        if n < self.chars.len() && self.idx < self.chars.len() - n {
            Some(self.chars[self.idx + n])
        } else {
            None
        }
    }

    /// Consumes characters as long as `pred` holds of the next one.
    pub fn bump_while<F: Fn(char) -> bool>(&mut self, pred: F, Ghost(p): Ghost<
        spec_fn(char) -> bool,
    >)
        requires
            old(self).wf(),
            forall|c: char| #[trigger] pred.requires((c,)),
            forall|c: char, r: bool| #[trigger] pred.ensures((c,), r) ==> r == p(c),
        ensures
            final(self).wf(),
            final(self).text() == old(self).text(),
            final(self).mark() == old(self).mark(),
            final(self).at() == old(self).at() + take_while(old(self).rem(), p),
    {
        loop
            invariant
                self.wf(),
                self.text() == old(self).text(),
                self.mark() == old(self).mark(),
                old(self).at() <= self.at(),
                forall|c: char| #[trigger] pred.requires((c,)),
                forall|c: char, r: bool| #[trigger] pred.ensures((c,), r) ==> r == p(c),
                take_while(old(self).rem(), p) == self.at() - old(self).at() + take_while(
                    self.rem(),
                    p,
                ),
            ensures
                self.wf(),
                self.text() == old(self).text(),
                self.mark() == old(self).mark(),
                self.at() == old(self).at() + take_while(old(self).rem(), p),
            decreases self.text().len() - self.at(),
        {
            let stop = match self.peek() {
                Some(c) => !pred(c),
                None => true,
            };
            if stop {
                break ;
            }
            proof {
                assert(take_while(self.rem(), p) == 1 + take_while(self.rem().drop_first(), p));
            }
            let ghost prev = *self;
            let _ = self.bump();
            proof {
                assert(prev.rem().drop_first() =~= self.rem());
            }
        }
    }
}

impl Cursor {
    /// A maximal run of `_` and decimal digits; reports whether it held any
    /// digit at all.
    fn eat_decimal_digits(&mut self) -> (r: bool)
        requires
            old(self).wf(),
        ensures
            final(self).wf(),
            final(self).text() == old(self).text(),
            final(self).mark() == old(self).mark(),
            ({
                let (n, h) = spec_decimal_digits(old(self).rem());
                final(self).at() == old(self).at() + n && r == h
            }),
    {
        let mut has_digits = false;
        loop
            invariant
                self.wf(),
                self.text() == old(self).text(),
                self.mark() == old(self).mark(),
                old(self).at() <= self.at(),
                ({
                    let (n0, h0) = spec_decimal_digits(old(self).rem());
                    let (n1, h1) = spec_decimal_digits(self.rem());
                    n0 == self.at() - old(self).at() + n1 && h0 == (has_digits || h1)
                }),
            ensures
                ({
                    let (n1, h1) = spec_decimal_digits(self.rem());
                    n1 == 0 && h1 == false
                }),
            decreases self.text().len() - self.at(),
        {
            let p = self.peek();
            let is_us = match p {
                Some(c) => c == '_',
                None => false,
            };
            let is_dig = match p {
                Some(c) => ascii_digit(c),
                None => false,
            };
            if is_us || is_dig {
                if is_dig {
                    has_digits = true;
                }
                let ghost prev = *self;
                let _ = self.bump();
                proof {
                    assert(prev.rem().drop_first() =~= self.rem());
                }
            } else {
                break ;
            }
        }
        has_digits
    }

    /// A maximal run of `_` and binary digits.
    fn eat_binary_digits(&mut self) -> (r: bool)
        requires
            old(self).wf(),
        ensures
            final(self).wf(),
            final(self).text() == old(self).text(),
            final(self).mark() == old(self).mark(),
            ({
                let (n, h) = spec_binary_digits(old(self).rem());
                final(self).at() == old(self).at() + n && r == h
            }),
    {
        let mut has_digits = false;
        loop
            invariant
                self.wf(),
                self.text() == old(self).text(),
                self.mark() == old(self).mark(),
                old(self).at() <= self.at(),
                ({
                    let (n0, h0) = spec_binary_digits(old(self).rem());
                    let (n1, h1) = spec_binary_digits(self.rem());
                    n0 == self.at() - old(self).at() + n1 && h0 == (has_digits || h1)
                }),
            ensures
                ({
                    let (n1, h1) = spec_binary_digits(self.rem());
                    n1 == 0 && h1 == false
                }),
            decreases self.text().len() - self.at(),
        {
            let p = self.peek();
            let is_us = match p {
                Some(c) => c == '_',
                None => false,
            };
            let is_dig = match p {
                Some(c) => binary_digit(c),
                None => false,
            };
            if is_us || is_dig {
                if is_dig {
                    has_digits = true;
                }
                let ghost prev = *self;
                let _ = self.bump();
                proof {
                    assert(prev.rem().drop_first() =~= self.rem());
                }
            } else {
                break ;
            }
        }
        has_digits
    }

    /// A maximal run of `_` and octal digits.
    fn eat_octal_digits(&mut self) -> (r: bool)
        requires
            old(self).wf(),
        ensures
            final(self).wf(),
            final(self).text() == old(self).text(),
            final(self).mark() == old(self).mark(),
            ({
                let (n, h) = spec_octal_digits(old(self).rem());
                final(self).at() == old(self).at() + n && r == h
            }),
    {
        let mut has_digits = false;
        loop
            invariant
                self.wf(),
                self.text() == old(self).text(),
                self.mark() == old(self).mark(),
                old(self).at() <= self.at(),
                ({
                    let (n0, h0) = spec_octal_digits(old(self).rem());
                    let (n1, h1) = spec_octal_digits(self.rem());
                    n0 == self.at() - old(self).at() + n1 && h0 == (has_digits || h1)
                }),
            ensures
                ({
                    let (n1, h1) = spec_octal_digits(self.rem());
                    n1 == 0 && h1 == false
                }),
            decreases self.text().len() - self.at(),
        {
            let p = self.peek();
            let is_us = match p {
                Some(c) => c == '_',
                None => false,
            };
            let is_dig = match p {
                Some(c) => octal_digit(c),
                None => false,
            };
            if is_us || is_dig {
                if is_dig {
                    has_digits = true;
                }
                let ghost prev = *self;
                let _ = self.bump();
                proof {
                    assert(prev.rem().drop_first() =~= self.rem());
                }
            } else {
                break ;
            }
        }
        has_digits
    }

    /// A maximal run of `_` and hexadecimal digits.
    fn eat_hexadecimal_digits(&mut self) -> (r: bool)
        requires
            old(self).wf(),
        ensures
            final(self).wf(),
            final(self).text() == old(self).text(),
            final(self).mark() == old(self).mark(),
            ({
                let (n, h) = spec_hex_digits(old(self).rem());
                final(self).at() == old(self).at() + n && r == h
            }),
    {
        let mut has_digits = false;
        loop
            invariant
                self.wf(),
                self.text() == old(self).text(),
                self.mark() == old(self).mark(),
                old(self).at() <= self.at(),
                ({
                    let (n0, h0) = spec_hex_digits(old(self).rem());
                    let (n1, h1) = spec_hex_digits(self.rem());
                    n0 == self.at() - old(self).at() + n1 && h0 == (has_digits || h1)
                }),
            ensures
                ({
                    let (n1, h1) = spec_hex_digits(self.rem());
                    n1 == 0 && h1 == false
                }),
            decreases self.text().len() - self.at(),
        {
            let p = self.peek();
            let is_us = match p {
                Some(c) => c == '_',
                None => false,
            };
            let is_dig = match p {
                Some(c) => hex_digit(c),
                None => false,
            };
            if is_us || is_dig {
                if is_dig {
                    has_digits = true;
                }
                let ghost prev = *self;
                let _ = self.bump();
                proof {
                    assert(prev.rem().drop_first() =~= self.rem());
                }
            } else {
                break ;
            }
        }
        has_digits
    }

    /// An optional sign, then decimal digits; reports whether any digit came.
    fn eat_float_exponent(&mut self) -> (r: bool)
        requires
            old(self).wf(),
        ensures
            final(self).wf(),
            final(self).text() == old(self).text(),
            final(self).mark() == old(self).mark(),
            ({
                let (n, h) = spec_float_exponent(old(self).rem());
                final(self).at() == old(self).at() + n && r == h
            }),
    {
        let p = self.peek();
        let signed = match p {
            Some(c) => c == '-' || c == '+',
            None => false,
        };
        if signed {
            let ghost prev = *self;
            let _ = self.bump();
            proof {
                assert(prev.rem().drop_first() =~= self.rem());
            }
        }
        self.eat_decimal_digits()
    }

    /// An identifier-shaped literal suffix, if one follows.
    fn eat_suffix(&mut self)
        requires
            old(self).wf(),
        ensures
            final(self).wf(),
            final(self).text() == old(self).text(),
            final(self).mark() == old(self).mark(),
            final(self).at() == old(self).at() + spec_suffix(old(self).rem()),
    {
        let p = self.peek();
        let go = match p {
            Some(c) => ident_start(c),
            None => false,
        };
        if go {
            let ghost prev = *self;
            let _ = self.bump();
            proof {
                assert(prev.rem().drop_first() =~= self.rem());
            }
            let pred = |c: char| -> (r: bool)
                ensures
                    r == is_ident_continue(c),
                { ident_continue(c) };
            self.bump_while(pred, Ghost(p_ident_continue()));
        }
    }

    /// The rest of an identifier whose first character was just consumed.
    fn eat_ident(&mut self) -> (k: TokenKind)
        requires
            old(self).wf(),
        ensures
            final(self).wf(),
            final(self).text() == old(self).text(),
            final(self).mark() == old(self).mark(),
            final(self).at() == old(self).at() + take_while(old(self).rem(), p_ident_continue()),
            k == TokenKind::Ident,
    {
        let pred = |c: char| -> (r: bool)
            ensures
                r == is_ident_continue(c),
            { ident_continue(c) };
        self.bump_while(pred, Ghost(p_ident_continue()));
        TokenKind::Ident
    }

    /// The rest of a whitespace token whose first character is `first`.
    fn eat_whitespace(&mut self, first: char) -> (k: TokenKind)
        requires
            old(self).wf(),
        ensures
            final(self).wf(),
            final(self).text() == old(self).text(),
            final(self).mark() == old(self).mark(),
            ({
                let (n, kk) = spec_whitespace(first, old(self).rem());
                final(self).at() == old(self).at() + n && k == kk
            }),
    {
        if first == '\r' {
            let p = self.peek();
            let is_nl = match p {
                Some(c) => c == '\n',
                None => false,
            };
            if is_nl {
                let _ = self.bump();
            }
            TokenKind::Newline
        } else if newline(first) {
            TokenKind::Newline
        } else {
            let pred = |c: char| -> (r: bool)
                ensures
                    r == is_white_space(c),
                { white_space(c) };
            self.bump_while(pred, Ghost(p_white_space()));
            TokenKind::Whitespace
        }
    }

    /// A line comment; the cursor stands after the first `/`, and the second
    /// is the next character.
    fn eat_line_comment(&mut self) -> (k: TokenKind)
        requires
            old(self).wf(),
            old(self).rem().len() > 0,
            old(self).rem()[0] == '/',
        ensures
            final(self).wf(),
            final(self).text() == old(self).text(),
            final(self).mark() == old(self).mark(),
            ({
                let (n, style) = spec_line_comment(old(self).rem().drop_first());
                final(self).at() == old(self).at() + 1 + n && k == TokenKind::LineComment {
                    style,
                }
            }),
    {
        let ghost t = old(self).rem().drop_first();
        let _ = self.bump();
        proof {
            assert(self.rem() =~= t);
        }
        let p = self.peek();
        let is_outer = match p {
            Some(c) => c == '/',
            None => false,
        };
        let is_inner = match p {
            Some(c) => c == '!',
            None => false,
        };
        let style: CommentKind;
        if is_outer {
            let ghost prev = *self;
            let _ = self.bump();
            proof {
                assert(prev.rem().drop_first() =~= self.rem());
            }
            style = CommentKind::OuterDoc;
        } else if is_inner {
            let ghost prev = *self;
            let _ = self.bump();
            proof {
                assert(prev.rem().drop_first() =~= self.rem());
            }
            style = CommentKind::InnerDoc;
        } else {
            style = CommentKind::Normal;
        }
        let pred = |c: char| -> (r: bool)
            ensures
                r == (c != '\n'),
            { c != '\n' };
        self.bump_while(pred, Ghost(p_not_newline()));
        TokenKind::LineComment { style }
    }
}

// ---------------------------------------------------------------------------
// What the tokenizer does, stated over the remaining character sequence.
// Each function returns how many characters the corresponding scanning step
// consumes, together with what it found.
// ---------------------------------------------------------------------------
/// The identifier-continue predicate as a function value.
pub open spec fn p_ident_continue() -> spec_fn(char) -> bool {
    |c: char| is_ident_continue(c)
}

/// The whitespace predicate as a function value.
pub open spec fn p_white_space() -> spec_fn(char) -> bool {
    |c: char| is_white_space(c)
}

/// Holds of characters a line comment runs across.
pub open spec fn p_not_newline() -> spec_fn(char) -> bool {
    |c: char| c != '\n'
}

/// Holds of characters that cannot open or close a block comment.
pub open spec fn p_plain() -> spec_fn(char) -> bool {
    |c: char| c != '*' && c != '/'
}

/// A maximal run of `_` and decimal digits: how many characters it takes,
/// and whether it contains at least one digit.
pub open spec fn spec_decimal_digits(s: Seq<char>) -> (nat, bool)
    decreases s.len(),
{
    if s.len() == 0 {
        (0 as nat, false)
    } else if s[0] == '_' {
        let (n, h) = spec_decimal_digits(s.drop_first());
        ((n + 1) as nat, h)
    } else if is_ascii_digit(s[0]) {
        let (n, h) = spec_decimal_digits(s.drop_first());
        ((n + 1) as nat, true)
    } else {
        (0 as nat, false)
    }
}

/// A maximal run of `_` and binary digits.
pub open spec fn spec_binary_digits(s: Seq<char>) -> (nat, bool)
    decreases s.len(),
{
    if s.len() == 0 {
        (0 as nat, false)
    } else if s[0] == '_' {
        let (n, h) = spec_binary_digits(s.drop_first());
        ((n + 1) as nat, h)
    } else if is_binary_digit(s[0]) {
        let (n, h) = spec_binary_digits(s.drop_first());
        ((n + 1) as nat, true)
    } else {
        (0 as nat, false)
    }
}

/// A maximal run of `_` and octal digits.
pub open spec fn spec_octal_digits(s: Seq<char>) -> (nat, bool)
    decreases s.len(),
{
    if s.len() == 0 {
        (0 as nat, false)
    } else if s[0] == '_' {
        let (n, h) = spec_octal_digits(s.drop_first());
        ((n + 1) as nat, h)
    } else if is_octal_digit(s[0]) {
        let (n, h) = spec_octal_digits(s.drop_first());
        ((n + 1) as nat, true)
    } else {
        (0 as nat, false)
    }
}

/// A maximal run of `_` and hexadecimal digits.
pub open spec fn spec_hex_digits(s: Seq<char>) -> (nat, bool)
    decreases s.len(),
{
    if s.len() == 0 {
        (0 as nat, false)
    } else if s[0] == '_' {
        let (n, h) = spec_hex_digits(s.drop_first());
        ((n + 1) as nat, h)
    } else if is_hex_digit(s[0]) {
        let (n, h) = spec_hex_digits(s.drop_first());
        ((n + 1) as nat, true)
    } else {
        (0 as nat, false)
    }
}

/// An exponent after `e`/`E`: an optional sign, then a digit run; the flag
/// says whether any digit was present.
pub open spec fn spec_float_exponent(s: Seq<char>) -> (nat, bool) {
    if s.len() > 0 && (s[0] == '-' || s[0] == '+') {
        let (n, h) = spec_decimal_digits(s.drop_first());
        ((n + 1) as nat, h)
    } else {
        spec_decimal_digits(s)
    }
}

/// After a numeric body of `body` characters of `t`, the optional fraction
/// and exponent. A `.` is only taken when what follows it is neither another
/// `.` nor an identifier start, so `1..2` and `1.method` are left alone.
pub open spec fn spec_num_tail(base: Base, body: nat, t: Seq<char>) -> (nat, LitKind) {
    let u = t.skip(body as int);
    if u.len() > 1 && u[0] == '.' && !(u[1] == '.' || is_ident_start(u[1])) {
        if is_ascii_digit(u[1]) {
            let (n2, h2) = spec_decimal_digits(u.skip(1));
            let v = u.skip(1 + n2 as int);
            if v.len() > 0 && (v[0] == 'e' || v[0] == 'E') {
                let (n3, has) = spec_float_exponent(v.skip(1));
                ((body + 1 + n2 + 1 + n3) as nat, LitKind::Float { base, exp_empty: !has })
            } else {
                ((body + 1 + n2) as nat, LitKind::Float { base, exp_empty: false })
            }
        } else {
            ((body + 1) as nat, LitKind::Float { base, exp_empty: false })
        }
    } else if u.len() > 0 && (u[0] == 'e' || u[0] == 'E') {
        let (n3, has) = spec_float_exponent(u.skip(1));
        ((body + 1 + n3) as nat, LitKind::Float { base, exp_empty: !has })
    } else {
        (body, LitKind::Int { base, empty: false })
    }
}

/// A numeric literal whose leading digit `first` was already consumed and
/// whose remaining input is `t`: how many further characters the body takes
/// and which literal it is. After a `0b`/`0o`/`0x` prefix the body is a run
/// of digits of that base (with `_`); a prefix whose run holds no digit
/// ends the literal at once as `empty`.
pub open spec fn spec_num_lit(first: char, t: Seq<char>) -> (nat, LitKind) {
    if first == '0' && t.len() > 0 && t[0] == 'b' {
        let (n, has) = spec_binary_digits(t.skip(1));
        if has {
            spec_num_tail(Base::Binary, (1 + n) as nat, t)
        } else {
            ((1 + n) as nat, LitKind::Int { base: Base::Binary, empty: true })
        }
    } else if first == '0' && t.len() > 0 && t[0] == 'o' {
        let (n, has) = spec_octal_digits(t.skip(1));
        if has {
            spec_num_tail(Base::Octal, (1 + n) as nat, t)
        } else {
            ((1 + n) as nat, LitKind::Int { base: Base::Octal, empty: true })
        }
    } else if first == '0' && t.len() > 0 && t[0] == 'x' {
        let (n, has) = spec_hex_digits(t.skip(1));
        if has {
            spec_num_tail(Base::Hexadecimal, (1 + n) as nat, t)
        } else {
            ((1 + n) as nat, LitKind::Int { base: Base::Hexadecimal, empty: true })
        }
    } else if first == '0' && t.len() > 0 && (is_ascii_digit(t[0]) || t[0] == '_') {
        let (n, h) = spec_decimal_digits(t);
        spec_num_tail(Base::Decimal, n, t)
    } else if first == '0' && t.len() > 0 && (t[0] == '.' || t[0] == 'e' || t[0] == 'E') {
        spec_num_tail(Base::Decimal, 0, t)
    } else if first == '0' {
        (0 as nat, LitKind::Int { base: Base::Decimal, empty: false })
    } else {
        let (n, h) = spec_decimal_digits(t);
        spec_num_tail(Base::Decimal, n, t)
    }
}

/// The scan for the closing quote of a char or string literal, after the
/// opening quote: `\` skips the following character whatever it is, a raw
/// newline or the end of input leaves the literal unterminated.
pub open spec fn spec_lit_scan(t: Seq<char>, quote: char) -> (nat, bool)
    decreases t.len(),
{
    if t.len() == 0 {
        (0 as nat, false)
    } else if t[0] == '\\' {
        if t.len() == 1 {
            (1 as nat, false)
        } else {
            let (n, b) = spec_lit_scan(t.skip(2), quote);
            ((2 + n) as nat, b)
        }
    } else if t[0] == '\n' {
        (1 as nat, false)
    } else if t[0] == quote {
        (1 as nat, true)
    } else {
        let (n, b) = spec_lit_scan(t.drop_first(), quote);
        ((1 + n) as nat, b)
    }
}

/// A char literal after its opening `'`: the trivial three-character form
/// `'x'` is taken whole; anything else falls to the quote scan.
pub open spec fn spec_char_lit(t: Seq<char>) -> (nat, bool) {
    if t.len() >= 2 && t[1] == '\'' && t[0] != '\\' {
        (2 as nat, true)
    } else {
        spec_lit_scan(t, '\'')
    }
}

/// The rest of a block comment, from nesting depth `depth`, after its
/// opening and doc-classification characters: consumed characters and
/// whether the comment was closed before the input ran out.
pub open spec fn spec_block_rest(t: Seq<char>, depth: nat) -> (nat, bool)
    decreases t.len(),
{
    if t.len() == 0 {
        (0 as nat, false)
    } else if t[0] != '*' && t[0] != '/' {
        let (n, b) = spec_block_rest(t.drop_first(), depth);
        ((1 + n) as nat, b)
    } else if t.len() == 1 {
        (1 as nat, false)
    } else if t[0] == '/' && t[1] == '*' {
        let (n, b) = spec_block_rest(t.skip(2), (depth + 1) as nat);
        ((2 + n) as nat, b)
    } else if t[0] == '*' && t[1] == '/' {
        if depth <= 1 {
            (2 as nat, true)
        } else {
            let (n, b) = spec_block_rest(t.skip(2), (depth - 1) as nat);
            ((2 + n) as nat, b)
        }
    } else {
        let (n, b) = spec_block_rest(t.drop_first(), depth);
        ((1 + n) as nat, b)
    }
}

/// A block comment after its opening `/*`: the doc style comes from the very
/// next character, except that an immediately closed `/**/` is `Normal`.
pub open spec fn spec_block_comment(t: Seq<char>) -> (nat, CommentKind, bool) {
    if t.len() > 0 && t[0] == '*' {
        if t.len() > 1 && t[1] == '/' {
            (2 as nat, CommentKind::Normal, true)
        } else {
            let (n, term) = spec_block_rest(t.drop_first(), 1);
            ((1 + n) as nat, CommentKind::OuterDoc, term)
        }
    } else if t.len() > 0 && t[0] == '!' {
        let (n, term) = spec_block_rest(t.drop_first(), 1);
        ((1 + n) as nat, CommentKind::InnerDoc, term)
    } else {
        let (n, term) = spec_block_rest(t, 1);
        (n, CommentKind::Normal, term)
    }
}

/// A line comment after its opening `//`: the doc style comes from the next
/// character, which is itself part of the comment, and the comment runs up
/// to but not including the next `\n`.
pub open spec fn spec_line_comment(t: Seq<char>) -> (nat, CommentKind) {
    if t.len() > 0 && t[0] == '/' {
        ((1 + take_while(t.drop_first(), p_not_newline())) as nat, CommentKind::OuterDoc)
    } else if t.len() > 0 && t[0] == '!' {
        ((1 + take_while(t.drop_first(), p_not_newline())) as nat, CommentKind::InnerDoc)
    } else {
        (take_while(t, p_not_newline()), CommentKind::Normal)
    }
}

/// An optional identifier-shaped suffix after a literal body.
pub open spec fn spec_suffix(t: Seq<char>) -> nat {
    if t.len() > 0 && is_ident_start(t[0]) {
        (1 + take_while(t.drop_first(), p_ident_continue())) as nat
    } else {
        0
    }
}

/// A whitespace token whose first character `first` was already consumed:
/// `\r\n` makes one two-character `Newline`, any other newline character
/// stands alone, and remaining whitespace is taken as one maximal run.
pub open spec fn spec_whitespace(first: char, t: Seq<char>) -> (nat, TokenKind) {
    if first == '\r' {
        if t.len() > 0 && t[0] == '\n' {
            (1 as nat, TokenKind::Newline)
        } else {
            (0 as nat, TokenKind::Newline)
        }
    } else if is_newline(first) {
        (0 as nat, TokenKind::Newline)
    } else {
        (take_while(t, p_white_space()), TokenKind::Whitespace)
    }
}

/// The token kind of a single character that starts no longer construct.
pub open spec fn spec_single_kind(c: char) -> TokenKind {
    if c == '+' {
        TokenKind::Punc(Punc::Plus)
    } else if c == '-' {
        TokenKind::Punc(Punc::Minus)
    } else if c == '*' {
        TokenKind::Punc(Punc::Asterisk)
    } else if c == '/' {
        TokenKind::Punc(Punc::Slash)
    } else if c == '%' {
        TokenKind::Punc(Punc::Percent)
    } else if c == '&' {
        TokenKind::Punc(Punc::Amp)
    } else if c == '|' {
        TokenKind::Punc(Punc::Bar)
    } else if c == '^' {
        TokenKind::Punc(Punc::Caret)
    } else if c == '!' {
        TokenKind::Punc(Punc::Bang)
    } else if c == '=' {
        TokenKind::Punc(Punc::Eq)
    } else if c == '<' {
        TokenKind::Punc(Punc::Lt)
    } else if c == '>' {
        TokenKind::Punc(Punc::Gt)
    } else if c == '.' {
        TokenKind::Punc(Punc::Dot)
    } else if c == ',' {
        TokenKind::Punc(Punc::Comma)
    } else if c == ':' {
        TokenKind::Punc(Punc::Colon)
    } else if c == ';' {
        TokenKind::Punc(Punc::Semi)
    } else if c == '(' {
        TokenKind::Open(Delim::Paren)
    } else if c == '[' {
        TokenKind::Open(Delim::Brack)
    } else if c == '{' {
        TokenKind::Open(Delim::Brace)
    } else if c == ')' {
        TokenKind::Close(Delim::Paren)
    } else if c == ']' {
        TokenKind::Close(Delim::Brack)
    } else if c == '}' {
        TokenKind::Close(Delim::Brace)
    } else {
        TokenKind::Unknown
    }
}

/// The next token of the remaining input `s`: how many characters it
/// consumes and what kind it gets; nothing at end of input. Dispatch goes by
/// the first character: whitespace, identifier start, digit, quote, `/`, and
/// otherwise a single-character token.
pub open spec fn spec_next_token(s: Seq<char>) -> Option<(nat, TokenKind)> {
    if s.len() == 0 {
        None
    } else {
        let c = s[0];
        let t = s.drop_first();
        if is_white_space(c) {
            let (n, k) = spec_whitespace(c, t);
            Some(((1 + n) as nat, k))
        } else if is_ident_start(c) {
            Some(((1 + take_while(t, p_ident_continue())) as nat, TokenKind::Ident))
        } else if is_ascii_digit(c) {
            let (n, lk) = spec_num_lit(c, t);
            let body = (1 + n) as nat;
            let m = spec_suffix(s.skip(body as int));
            Some(
                (
                    (body + m) as nat,
                    TokenKind::Lit { kind: lk, suffix_start: spec_suffix_start(s, body) },
                ),
            )
        } else if c == '\'' {
            let (n, term) = spec_char_lit(t);
            let body = (1 + n) as nat;
            let m = spec_suffix(s.skip(body as int));
            Some(
                (
                    (body + m) as nat,
                    TokenKind::Lit {
                        kind: LitKind::Char { terminated: term },
                        suffix_start: spec_suffix_start(s, body),
                    },
                ),
            )
        } else if c == '"' {
            let (n, term) = spec_lit_scan(t, '"');
            let body = (1 + n) as nat;
            let m = spec_suffix(s.skip(body as int));
            Some(
                (
                    (body + m) as nat,
                    TokenKind::Lit {
                        kind: LitKind::Str { terminated: term },
                        suffix_start: spec_suffix_start(s, body),
                    },
                ),
            )
        } else if c == '/' && t.len() > 0 && t[0] == '/' {
            let (n, k) = spec_line_comment(t.drop_first());
            Some(((2 + n) as nat, TokenKind::LineComment { style: k }))
        } else if c == '/' && t.len() > 0 && t[0] == '*' {
            let (n, k, term) = spec_block_comment(t.drop_first());
            Some(((2 + n) as nat, TokenKind::BlockComment { style: k, terminated: term }))
        } else {
            Some((1 as nat, spec_single_kind(c)))
        }
    }
}

/// The recorded start of a literal suffix: the byte length of the literal
/// body, reduced to the `u32` the token stores.
pub open spec fn spec_suffix_start(s: Seq<char>, body: nat) -> u32 {
    byte_len(s.take(body as int)) as u32
}

// ---------------------------------------------------------------------------
// Total coverage: the tokenizer always makes progress, and the tokens of a
// full tokenization cover the input exactly, byte for byte.
// ---------------------------------------------------------------------------
proof fn lemma_decimal_digits_le(s: Seq<char>)
    ensures
        spec_decimal_digits(s).0 <= s.len(),
    decreases s.len(),
{
    if s.len() > 0 {
        lemma_decimal_digits_le(s.drop_first());
    }
}

proof fn lemma_binary_digits_le(s: Seq<char>)
    ensures
        spec_binary_digits(s).0 <= s.len(),
    decreases s.len(),
{
    if s.len() > 0 {
        lemma_binary_digits_le(s.drop_first());
    }
}

proof fn lemma_octal_digits_le(s: Seq<char>)
    ensures
        spec_octal_digits(s).0 <= s.len(),
    decreases s.len(),
{
    if s.len() > 0 {
        lemma_octal_digits_le(s.drop_first());
    }
}

proof fn lemma_hex_digits_le(s: Seq<char>)
    ensures
        spec_hex_digits(s).0 <= s.len(),
    decreases s.len(),
{
    if s.len() > 0 {
        lemma_hex_digits_le(s.drop_first());
    }
}

proof fn lemma_float_exponent_le(s: Seq<char>)
    ensures
        spec_float_exponent(s).0 <= s.len(),
{
    lemma_decimal_digits_le(s);
    if s.len() > 0 {
        lemma_decimal_digits_le(s.drop_first());
    }
}

proof fn lemma_lit_scan_le(t: Seq<char>, quote: char)
    ensures
        spec_lit_scan(t, quote).0 <= t.len(),
    decreases t.len(),
{
    if t.len() > 1 && t[0] == '\\' {
        lemma_lit_scan_le(t.skip(2), quote);
    } else if t.len() > 0 {
        lemma_lit_scan_le(t.drop_first(), quote);
    }
}

proof fn lemma_block_rest_le(t: Seq<char>, depth: nat)
    ensures
        spec_block_rest(t, depth).0 <= t.len(),
    decreases t.len(),
{
    if t.len() == 0 {
    } else if t[0] != '*' && t[0] != '/' {
        lemma_block_rest_le(t.drop_first(), depth);
    } else if t.len() == 1 {
    } else if t[0] == '/' && t[1] == '*' {
        lemma_block_rest_le(t.skip(2), (depth + 1) as nat);
    } else if t[0] == '*' && t[1] == '/' {
        if depth > 1 {
            lemma_block_rest_le(t.skip(2), (depth - 1) as nat);
        }
    } else {
        lemma_block_rest_le(t.drop_first(), depth);
    }
}

proof fn lemma_num_tail_le(base: Base, body: nat, t: Seq<char>)
    requires
        body <= t.len(),
    ensures
        body <= spec_num_tail(base, body, t).0 <= t.len(),
{
    let u = t.skip(body as int);
    if u.len() > 1 && u[0] == '.' && !(u[1] == '.' || is_ident_start(u[1])) {
        if is_ascii_digit(u[1]) {
            lemma_decimal_digits_le(u.skip(1));
            let n2 = spec_decimal_digits(u.skip(1)).0;
            let v = u.skip(1 + n2 as int);
            if v.len() > 0 && (v[0] == 'e' || v[0] == 'E') {
                lemma_float_exponent_le(v.skip(1));
            }
        }
    } else if u.len() > 0 && (u[0] == 'e' || u[0] == 'E') {
        lemma_float_exponent_le(u.skip(1));
    }
}

proof fn lemma_num_lit_le(first: char, t: Seq<char>)
    ensures
        spec_num_lit(first, t).0 <= t.len(),
{
    if first == '0' && t.len() > 0 && t[0] == 'b' {
        lemma_binary_digits_le(t.skip(1));
        let (n, h) = spec_binary_digits(t.skip(1));
        if h {
            lemma_num_tail_le(Base::Binary, (1 + n) as nat, t);
        }
    } else if first == '0' && t.len() > 0 && t[0] == 'o' {
        lemma_octal_digits_le(t.skip(1));
        let (n, h) = spec_octal_digits(t.skip(1));
        if h {
            lemma_num_tail_le(Base::Octal, (1 + n) as nat, t);
        }
    } else if first == '0' && t.len() > 0 && t[0] == 'x' {
        lemma_hex_digits_le(t.skip(1));
        let (n, h) = spec_hex_digits(t.skip(1));
        if h {
            lemma_num_tail_le(Base::Hexadecimal, (1 + n) as nat, t);
        }
    } else if first == '0' && t.len() > 0 && (is_ascii_digit(t[0]) || t[0] == '_') {
        lemma_decimal_digits_le(t);
        lemma_num_tail_le(Base::Decimal, spec_decimal_digits(t).0, t);
    } else if first == '0' && t.len() > 0 && (t[0] == '.' || t[0] == 'e' || t[0] == 'E') {
        lemma_num_tail_le(Base::Decimal, 0, t);
    } else if first == '0' {
    } else {
        lemma_decimal_digits_le(t);
        lemma_num_tail_le(Base::Decimal, spec_decimal_digits(t).0, t);
    }
}

/// While input remains, the tokenizer yields a token, and the token takes at
/// least one character and at least one byte, never more than what remains.
pub proof fn lemma_next_token_progress(s: Seq<char>)
    requires
        s.len() > 0,
    ensures
        spec_next_token(s) is Some,
        ({
            let (n, k) = spec_next_token(s)->Some_0;
            &&& 1 <= n <= s.len()
            &&& 1 <= byte_len(s.take(n as int))
        }),
{
    let c = s[0];
    let t = s.drop_first();
    if is_white_space(c) {
        crate::chars::lemma_take_while_le(t, p_white_space());
    } else if is_ident_start(c) {
        crate::chars::lemma_take_while_le(t, p_ident_continue());
    } else if is_ascii_digit(c) {
        lemma_num_lit_le(c, t);
        let body = (1 + spec_num_lit(c, t).0) as nat;
        crate::chars::lemma_take_while_le(s.skip(body as int).drop_first(), p_ident_continue());
    } else if c == '\'' {
        lemma_lit_scan_le(t, '\'');
        let body = (1 + spec_char_lit(t).0) as nat;
        crate::chars::lemma_take_while_le(s.skip(body as int).drop_first(), p_ident_continue());
    } else if c == '"' {
        lemma_lit_scan_le(t, '"');
        let body = (1 + spec_lit_scan(t, '"').0) as nat;
        crate::chars::lemma_take_while_le(s.skip(body as int).drop_first(), p_ident_continue());
    } else if c == '/' && t.len() > 0 && t[0] == '/' {
        crate::chars::lemma_take_while_le(t.drop_first(), p_not_newline());
        crate::chars::lemma_take_while_le(t.drop_first().drop_first(), p_not_newline());
    } else if c == '/' && t.len() > 0 && t[0] == '*' {
        lemma_block_rest_le(t.drop_first(), 1);
        if t.drop_first().len() > 0 {
            lemma_block_rest_le(t.drop_first().drop_first(), 1);
        }
    }
    let (n, k) = spec_next_token(s)->Some_0;
    crate::chars::lemma_byte_len_ge_len(s.take(n as int));
}

/// The byte lengths of the successive tokens of `s`, to exhaustion.
pub open spec fn spec_token_lens(s: Seq<char>) -> Seq<nat>
    decreases s.len()
        via spec_token_lens_dec
{
    match spec_next_token(s) {
        None => Seq::empty(),
        Some((n, k)) => seq![byte_len(s.take(n as int))] + spec_token_lens(s.skip(n as int)),
    }
}

#[via_fn]
proof fn spec_token_lens_dec(s: Seq<char>) {
    if s.len() > 0 {
        lemma_next_token_progress(s);
    }
}

/// The sum of a sequence of lengths.
pub open spec fn sum_lens(l: Seq<nat>) -> nat
    decreases l.len(),
{
    if l.len() == 0 {
        0
    } else {
        l[0] + sum_lens(l.drop_first())
    }
}

/// Total coverage: tokenizing any text to exhaustion yields tokens whose
/// byte lengths sum to exactly the byte length of the text, with no token
/// empty — there are no gaps, no overlaps, and no stalls.
pub proof fn theorem_total_coverage(s: Seq<char>)
    ensures
        sum_lens(spec_token_lens(s)) == byte_len(s),
        forall|i: int|
            0 <= i < spec_token_lens(s).len() ==> #[trigger] spec_token_lens(s)[i] >= 1,
    decreases s.len(),
{
    if s.len() == 0 {
    } else {
        lemma_next_token_progress(s);
        let (n, k) = spec_next_token(s)->Some_0;
        crate::chars::lemma_byte_len_split(s, n as int);
        crate::chars::lemma_byte_len_ge_len(s.take(n as int));
        theorem_total_coverage(s.skip(n as int));
        let l = spec_token_lens(s);
        let rest = spec_token_lens(s.skip(n as int));
        assert(l == seq![byte_len(s.take(n as int))] + rest);
        assert(l.drop_first() =~= rest);
        assert(forall|i: int| 0 <= i < l.len() ==> #[trigger] l[i] >= 1) by {
            assert(l[0] == byte_len(s.take(n as int)));
            assert(forall|i: int| 1 <= i < l.len() ==> l[i] == rest[i - 1]);
        }
    }
}

/// Skipping a run of characters that open or close nothing leaves a block
/// comment scan where it would have arrived anyway.
proof fn lemma_block_rest_skip(t: Seq<char>, depth: nat)
    ensures
        ({
            let k = take_while(t, p_plain());
            let (n, b) = spec_block_rest(t, depth);
            let (n2, b2) = spec_block_rest(t.skip(k as int), depth);
            n == k + n2 && b == b2
        }),
    decreases t.len(),
{
    let k = take_while(t, p_plain());
    crate::chars::lemma_take_while_le(t, p_plain());
    if t.len() > 0 && p_plain()(t[0]) {
        lemma_block_rest_skip(t.drop_first(), depth);
        assert(t.drop_first().skip((k - 1) as int) =~= t.skip(k as int));
    } else {
        assert(t.skip(0) =~= t);
    }
}

fn single_kind(c: char) -> (k: TokenKind)
    ensures
        k == spec_single_kind(c),
{
    if c == '+' {
        TokenKind::Punc(Punc::Plus)
    } else if c == '-' {
        TokenKind::Punc(Punc::Minus)
    } else if c == '*' {
        TokenKind::Punc(Punc::Asterisk)
    } else if c == '/' {
        TokenKind::Punc(Punc::Slash)
    } else if c == '%' {
        TokenKind::Punc(Punc::Percent)
    } else if c == '&' {
        TokenKind::Punc(Punc::Amp)
    } else if c == '|' {
        TokenKind::Punc(Punc::Bar)
    } else if c == '^' {
        TokenKind::Punc(Punc::Caret)
    } else if c == '!' {
        TokenKind::Punc(Punc::Bang)
    } else if c == '=' {
        TokenKind::Punc(Punc::Eq)
    } else if c == '<' {
        TokenKind::Punc(Punc::Lt)
    } else if c == '>' {
        TokenKind::Punc(Punc::Gt)
    } else if c == '.' {
        TokenKind::Punc(Punc::Dot)
    } else if c == ',' {
        TokenKind::Punc(Punc::Comma)
    } else if c == ':' {
        TokenKind::Punc(Punc::Colon)
    } else if c == ';' {
        TokenKind::Punc(Punc::Semi)
    } else if c == '(' {
        TokenKind::Open(Delim::Paren)
    } else if c == '[' {
        TokenKind::Open(Delim::Brack)
    } else if c == '{' {
        TokenKind::Open(Delim::Brace)
    } else if c == ')' {
        TokenKind::Close(Delim::Paren)
    } else if c == ']' {
        TokenKind::Close(Delim::Brack)
    } else if c == '}' {
        TokenKind::Close(Delim::Brace)
    } else {
        TokenKind::Unknown
    }
}

impl Cursor {
    /// The scan shared by char and string literals, after the opening quote.
    fn eat_quoted(&mut self, quote: char) -> (r: bool)
        requires
            old(self).wf(),
        ensures
            final(self).wf(),
            final(self).text() == old(self).text(),
            final(self).mark() == old(self).mark(),
            ({
                let (n, term) = spec_lit_scan(old(self).rem(), quote);
                final(self).at() == old(self).at() + n && r == term
            }),
    {
        let mut terminated = false;
        loop
            invariant_except_break
                ({
                    let (n0, b0) = spec_lit_scan(old(self).rem(), quote);
                    let (n1, b1) = spec_lit_scan(self.rem(), quote);
                    n0 == self.at() - old(self).at() + n1 && b0 == b1
                }),
            invariant
                self.wf(),
                self.text() == old(self).text(),
                self.mark() == old(self).mark(),
                old(self).at() <= self.at(),
            ensures
                self.wf(),
                self.text() == old(self).text(),
                self.mark() == old(self).mark(),
                old(self).at() <= self.at(),
                ({
                    let (n0, b0) = spec_lit_scan(old(self).rem(), quote);
                    n0 == self.at() - old(self).at() && b0 == terminated
                }),
            decreases self.text().len() - self.at(),
        {
            let ghost prev = *self;
            match self.bump() {
                Some(ch) => {
                    proof {
                        assert(prev.rem().drop_first() =~= self.rem());
                    }
                    if ch == '\\' {
                        let ghost prev2 = *self;
                        let _ = self.bump();
                        proof {
                            if prev2.rem().len() > 0 {
                                assert(prev2.rem().drop_first() =~= self.rem());
                                assert(prev.rem().skip(2) =~= self.rem());
                            }
                        }
                    } else if ch == '\n' {
                        terminated = false;
                        break ;
                    } else if ch == quote {
                        terminated = true;
                        break ;
                    }
                },
                None => {
                    terminated = false;
                    break ;
                },
            }
        }
        terminated
    }

    /// A char literal after its opening `'`; reports whether it was closed.
    fn eat_char_lit(&mut self) -> (r: bool)
        requires
            old(self).wf(),
        ensures
            final(self).wf(),
            final(self).text() == old(self).text(),
            final(self).mark() == old(self).mark(),
            ({
                let (n, term) = spec_char_lit(old(self).rem());
                final(self).at() == old(self).at() + n && r == term
            }),
    {
        let p0 = self.peek();
        let p1 = self.peek_nth(1);
        let closes = match p1 {
            Some(c) => c == '\'',
            None => false,
        };
        let escapes = match p0 {
            Some(c) => c == '\\',
            None => false,
        };
        if closes && !escapes {
            let _ = self.bump_nth(1);
            return true;
        }
        self.eat_quoted('\'')
    }

    /// A string literal after its opening `"`; reports whether it was closed.
    fn eat_str_lit(&mut self) -> (r: bool)
        requires
            old(self).wf(),
        ensures
            final(self).wf(),
            final(self).text() == old(self).text(),
            final(self).mark() == old(self).mark(),
            ({
                let (n, term) = spec_lit_scan(old(self).rem(), '"');
                final(self).at() == old(self).at() + n && r == term
            }),
    {
        self.eat_quoted('"')
    }

    /// A block comment; the cursor stands after the opening `/`, and the `*`
    /// is the next character. Tracks nesting and reports termination.
    fn eat_block_comment(&mut self) -> (k: TokenKind)
        requires
            old(self).wf(),
            old(self).rem().len() > 0,
            old(self).rem()[0] == '*',
        ensures
            final(self).wf(),
            final(self).text() == old(self).text(),
            final(self).mark() == old(self).mark(),
            ({
                let (n, style, term) = spec_block_comment(old(self).rem().drop_first());
                final(self).at() == old(self).at() + 1 + n && k == TokenKind::BlockComment {
                    style,
                    terminated: term,
                }
            }),
    {
        let ghost t = old(self).rem().drop_first();
        let _ = self.bump();
        proof {
            assert(self.rem() =~= t);
        }
        let p = self.peek();
        let is_star = match p {
            Some(c) => c == '*',
            None => false,
        };
        let is_bang = match p {
            Some(c) => c == '!',
            None => false,
        };
        let style: CommentKind;
        if is_star {
            let ghost prev = *self;
            let _ = self.bump();
            proof {
                assert(prev.rem().drop_first() =~= self.rem());
            }
            let p2 = self.peek();
            let closes = match p2 {
                Some(c) => c == '/',
                None => false,
            };
            if closes {
                let _ = self.bump();
                return TokenKind::BlockComment { style: CommentKind::Normal, terminated: true };
            }
            style = CommentKind::OuterDoc;
        } else if is_bang {
            let ghost prev = *self;
            let _ = self.bump();
            proof {
                assert(prev.rem().drop_first() =~= self.rem());
            }
            style = CommentKind::InnerDoc;
        } else {
            style = CommentKind::Normal;
        }
        let ghost start = *self;
        let mut depth: usize = 1;
        let mut terminated = false;
        loop
            invariant_except_break
                1 <= depth,
                2 * depth <= self.at() - start.at() + 2,
                ({
                    let (n0, b0) = spec_block_rest(start.rem(), 1);
                    let (n1, b1) = spec_block_rest(self.rem(), depth as nat);
                    n0 == self.at() - start.at() + n1 && b0 == b1
                }),
            invariant
                self.wf(),
                self.text() == old(self).text(),
                self.mark() == old(self).mark(),
                start.at() <= self.at(),
                start.text() == self.text(),
            ensures
                self.wf(),
                self.text() == old(self).text(),
                self.mark() == old(self).mark(),
                start.at() <= self.at(),
                ({
                    let (n0, b0) = spec_block_rest(start.rem(), 1);
                    n0 == self.at() - start.at() && b0 == terminated
                }),
            decreases self.text().len() - self.at(),
        {
            let pred = |c: char| -> (r: bool)
                ensures
                    r == (c != '*' && c != '/'),
                { c != '*' && c != '/' };
            let ghost before = *self;
            self.bump_while(pred, Ghost(p_plain()));
            proof {
                lemma_block_rest_skip(before.rem(), depth as nat);
                crate::chars::lemma_take_while_stop(before.rem(), p_plain());
                assert(before.rem().skip(take_while(before.rem(), p_plain()) as int)
                    =~= self.rem());
            }
            let ghost prev = *self;
            let b = self.bump();
            let p2 = self.peek();
            match b {
                None => {
                    terminated = false;
                    break ;
                },
                Some(c) => {
                    proof {
                        assert(prev.rem().drop_first() =~= self.rem());
                    }
                    match p2 {
                        None => {
                            terminated = false;
                            break ;
                        },
                        Some(c2) => {
                            if c == '/' && c2 == '*' {
                                let ghost prev2 = *self;
                                let _ = self.bump();
                                proof {
                                    assert(prev2.rem().drop_first() =~= self.rem());
                                    assert(prev.rem().skip(2) =~= self.rem());
                                }
                                depth = depth + 1;
                            } else if c == '*' && c2 == '/' {
                                let ghost prev2 = *self;
                                let _ = self.bump();
                                proof {
                                    assert(prev2.rem().drop_first() =~= self.rem());
                                    assert(prev.rem().skip(2) =~= self.rem());
                                }
                                depth = depth - 1;
                                if depth == 0 {
                                    terminated = true;
                                    break ;
                                }
                            }
                        },
                    }
                },
            }
        }
        TokenKind::BlockComment { style, terminated }
    }

    /// A numeric literal whose leading digit `first` was just consumed:
    /// prefix, integer body, optional fraction and exponent.
    #[verifier::rlimit(100)]
    fn eat_num_lit(&mut self, first: char) -> (k: LitKind)
        requires
            old(self).wf(),
        ensures
            final(self).wf(),
            final(self).text() == old(self).text(),
            final(self).mark() == old(self).mark(),
            ({
                let (n, kk) = spec_num_lit(first, old(self).rem());
                final(self).at() == old(self).at() + n && k == kk
            }),
    {
        let ghost t = old(self).rem();
        let mut base = Base::Decimal;
        if first == '0' {
            let p = self.peek();
            let is_b = match p {
                Some(c) => c == 'b',
                None => false,
            };
            let is_o = match p {
                Some(c) => c == 'o',
                None => false,
            };
            let is_x = match p {
                Some(c) => c == 'x',
                None => false,
            };
            let is_d = match p {
                Some(c) => ascii_digit(c) || c == '_',
                None => false,
            };
            let is_f = match p {
                Some(c) => c == '.' || c == 'e' || c == 'E',
                None => false,
            };
            if is_b || is_o || is_x {
                let ghost prev = *self;
                let _ = self.bump();
                proof {
                    assert(prev.rem().drop_first() =~= self.rem());
                    assert(t.skip(1) =~= self.rem());
                }
                if is_b {
                    base = Base::Binary;
                    if !self.eat_binary_digits() {
                        return LitKind::Int { base: Base::Binary, empty: true };
                    }
                } else if is_o {
                    base = Base::Octal;
                    if !self.eat_octal_digits() {
                        return LitKind::Int { base: Base::Octal, empty: true };
                    }
                } else {
                    base = Base::Hexadecimal;
                    if !self.eat_hexadecimal_digits() {
                        return LitKind::Int { base: Base::Hexadecimal, empty: true };
                    }
                }
            } else if is_d {
                let _ = self.eat_decimal_digits();
            } else if is_f {
            } else {
                return LitKind::Int { base: Base::Decimal, empty: false };
            }
        } else {
            let _ = self.eat_decimal_digits();
        }
        let ghost body = (self.at() - old(self).at()) as nat;
        let ghost u = t.skip(body as int);
        proof {
            assert(u =~= self.rem());
        }
        let p = self.peek();
        let p1 = self.peek_nth(1);
        let dot = (match p {
            Some(c) => c == '.',
            None => false,
        }) && (match p1 {
            Some(c2) => !(c2 == '.' || ident_start(c2)),
            None => false,
        });
        if dot {
            let _ = self.bump();
            proof {
                assert(u.skip(1) =~= self.rem());
            }
            let mut exp_empty = false;
            let pd = self.peek();
            let dig = match pd {
                Some(c) => ascii_digit(c),
                None => false,
            };
            if dig {
                let _ = self.eat_decimal_digits();
                proof {
                    let (n2, h2) = spec_decimal_digits(u.skip(1));
                    assert(u.skip(1 + n2 as int) =~= self.rem());
                }
                let ghost v = u.skip(1 + spec_decimal_digits(u.skip(1)).0 as int);
                let pe = self.peek();
                let is_e = match pe {
                    Some(c) => c == 'e' || c == 'E',
                    None => false,
                };
                if is_e {
                    let _ = self.bump();
                    proof {
                        assert(v.skip(1) =~= self.rem());
                    }
                    let got = self.eat_float_exponent();
                    exp_empty = !got;
                }
            }
            LitKind::Float { base, exp_empty }
        } else {
            let pe = self.peek();
            let is_e = match pe {
                Some(c) => c == 'e' || c == 'E',
                None => false,
            };
            if is_e {
                let _ = self.bump();
                proof {
                    assert(u.skip(1) =~= self.rem());
                }
                let got = self.eat_float_exponent();
                LitKind::Float { base, exp_empty: !got }
            } else {
                LitKind::Int { base, empty: false }
            }
        }
    }

    /// Scans and classifies the next token, or reports end of input. Called
    /// at a token boundary; the returned token's `len` is the exact number
    /// of source bytes it covers, and the cursor rebases past it.
    #[verifier::rlimit(100)]
    pub fn next_token(&mut self) -> (r: Option<Token>)
        requires
            old(self).wf(),
            old(self).mark() == old(self).at(),
        ensures
            final(self).wf(),
            final(self).text() == old(self).text(),
            final(self).mark() == final(self).at(),
            match spec_next_token(old(self).rem()) {
                None => r is None && final(self).at() == old(self).at(),
                Some((n, k)) => final(self).at() == old(self).at() + n && r == Some(
                    Token { len: byte_len(old(self).rem().take(n as int)) as usize, kind: k },
                ),
            },
    {
        let ghost s = old(self).rem();
        let c = match self.bump() {
            Some(c) => c,
            None => {
                return None;
            },
        };
        proof {
            assert(s.drop_first() =~= self.rem());
        }
        let kind: TokenKind;
        if white_space(c) {
            kind = self.eat_whitespace(c);
        } else if ident_start(c) {
            kind = self.eat_ident();
        } else if ascii_digit(c) {
            let lk = self.eat_num_lit(c);
            let ss = #[verifier::truncate] (self.pos() as u32);
            proof {
                assert(old(self).text().subrange(old(self).at(), self.at()) =~= s.take(
                    self.at() - old(self).at(),
                ));
                assert(s.skip(self.at() - old(self).at()) =~= self.rem());
            }
            self.eat_suffix();
            kind = TokenKind::Lit { kind: lk, suffix_start: ss };
        } else if c == '\'' {
            let term = self.eat_char_lit();
            let ss = #[verifier::truncate] (self.pos() as u32);
            proof {
                assert(old(self).text().subrange(old(self).at(), self.at()) =~= s.take(
                    self.at() - old(self).at(),
                ));
                assert(s.skip(self.at() - old(self).at()) =~= self.rem());
            }
            self.eat_suffix();
            kind = TokenKind::Lit { kind: LitKind::Char { terminated: term }, suffix_start: ss };
        } else if c == '"' {
            let term = self.eat_str_lit();
            let ss = #[verifier::truncate] (self.pos() as u32);
            proof {
                assert(old(self).text().subrange(old(self).at(), self.at()) =~= s.take(
                    self.at() - old(self).at(),
                ));
                assert(s.skip(self.at() - old(self).at()) =~= self.rem());
            }
            self.eat_suffix();
            kind = TokenKind::Lit { kind: LitKind::Str { terminated: term }, suffix_start: ss };
        } else if c == '/' {
            let p = self.peek();
            let is_line = match p {
                Some(c2) => c2 == '/',
                None => false,
            };
            let is_block = match p {
                Some(c2) => c2 == '*',
                None => false,
            };
            if is_line {
                kind = self.eat_line_comment();
            } else if is_block {
                kind = self.eat_block_comment();
            } else {
                kind = TokenKind::Punc(Punc::Slash);
            }
        } else {
            kind = single_kind(c);
        }
        let len = self.pos();
        proof {
            assert(old(self).text().subrange(old(self).at(), self.at()) =~= s.take(
                self.at() - old(self).at(),
            ));
        }
        let token = Token { len, kind };
        self.rebase();
        Some(token)
    }
}

} // verus!
