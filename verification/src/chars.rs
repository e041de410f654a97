//! Character classification and UTF-8 byte lengths.
//!
//! The tokenizer decides what a character is (whitespace, newline,
//! identifier start or continuation, digit) through the functions here, and
//! measures tokens in bytes through [`byte_len`].

use vstd::prelude::*;

verus! {

use vstd::std_specs::iter::IteratorSpec;
use vstd::utf8::char_is_scalar;
use vstd::utf8::encode_scalar;
use vstd::utf8::encode_utf8;

broadcast use vstd::string::group_string_axioms, vstd::slice::axiom_spec_len;

/// What `unicode_ident::is_xid_start` returns for a character: membership in
/// the Unicode `XID_Start` class, a table far too large to restate here.
pub uninterp spec fn xid_start(c: char) -> bool;

/// What `unicode_ident::is_xid_continue` returns for a character: membership
/// in the Unicode `XID_Continue` class.
pub uninterp spec fn xid_continue(c: char) -> bool;

/// Relies on `unicode_ident::is_xid_start`, a pure table lookup whose result
/// depends on the character alone.
pub assume_specification[ unicode_ident::is_xid_start ](ch: char) -> (r: bool)
    ensures
        r == xid_start(ch),
;

/// Relies on `unicode_ident::is_xid_continue`, a pure table lookup whose
/// result depends on the character alone.
pub assume_specification[ unicode_ident::is_xid_continue ](ch: char) -> (r: bool)
    ensures
        r == xid_continue(ch),
;

/// A character that may begin an identifier: `_` or any `XID_Start` one.
pub open spec fn is_ident_start(c: char) -> bool {
    c == '_' || xid_start(c)
}

/// A character that may continue an identifier.
pub open spec fn is_ident_continue(c: char) -> bool {
    xid_continue(c)
}

pub fn ident_start(c: char) -> (r: bool)
    ensures
        r == is_ident_start(c),
{
    c == '_' || unicode_ident::is_xid_start(c)
}

pub fn ident_continue(c: char) -> (r: bool)
    ensures
        r == is_ident_continue(c),
{
    unicode_ident::is_xid_continue(c)
}

/// The Unicode `White_Space` characters.
pub open spec fn is_white_space(c: char) -> bool {
    let u = c as u32;
    (0x09 <= u && u <= 0x0d) || u == 0x20 || u == 0x85 || u == 0xa0 || u == 0x1680 || (0x2000
        <= u && u <= 0x200a) || u == 0x2028 || u == 0x2029 || u == 0x202f || u == 0x205f || u
        == 0x3000
}

pub fn white_space(c: char) -> (r: bool)
    ensures
        r == is_white_space(c),
{
    let u = c as u32;
    (0x09 <= u && u <= 0x0d) || u == 0x20 || u == 0x85 || u == 0xa0 || u == 0x1680 || (0x2000
        <= u && u <= 0x200a) || u == 0x2028 || u == 0x2029 || u == 0x202f || u == 0x205f || u
        == 0x3000
}

/// The characters the tokenizer treats as line terminators.
pub open spec fn is_newline(c: char) -> bool {
    c == '\n' || c == '\r' || c == '\u{000b}' || c == '\u{000c}' || c == '\u{0085}' || c
        == '\u{2028}' || c == '\u{2029}'
}

pub fn newline(c: char) -> (r: bool)
    ensures
        r == is_newline(c),
{
    matches!(c, '\n' | '\r' | '\u{000b}' | '\u{000c}' | '\u{0085}' | '\u{2028}' | '\u{2029}')
}

/// An ASCII decimal digit.
pub open spec fn is_ascii_digit(c: char) -> bool {
    0x30 <= c as u32 && c as u32 <= 0x39
}

pub fn ascii_digit(c: char) -> (r: bool)
    ensures
        r == is_ascii_digit(c),
{
    let u = c as u32;
    0x30 <= u && u <= 0x39
}

/// A binary digit: `0` or `1`.
pub open spec fn is_binary_digit(c: char) -> bool {
    c == '0' || c == '1'
}

pub fn binary_digit(c: char) -> (r: bool)
    ensures
        r == is_binary_digit(c),
{
    c == '0' || c == '1'
}

/// An octal digit: `0` through `7`.
pub open spec fn is_octal_digit(c: char) -> bool {
    0x30 <= c as u32 && c as u32 <= 0x37
}

pub fn octal_digit(c: char) -> (r: bool)
    ensures
        r == is_octal_digit(c),
{
    let u = c as u32;
    0x30 <= u && u <= 0x37
}

/// An ASCII hexadecimal digit.
pub open spec fn is_hex_digit(c: char) -> bool {
    let u = c as u32;
    (0x30 <= u && u <= 0x39) || (0x61 <= u && u <= 0x66) || (0x41 <= u && u <= 0x46)
}

pub fn hex_digit(c: char) -> (r: bool)
    ensures
        r == is_hex_digit(c),
{
    let u = c as u32;
    (0x30 <= u && u <= 0x39) || (0x61 <= u && u <= 0x66) || (0x41 <= u && u <= 0x46)
}

/// How many bytes the UTF-8 encoding of a character occupies.
pub open spec fn char_bytes(c: char) -> nat {
    encode_scalar(c as u32).len()
}

/// The total UTF-8 byte length of a character sequence.
pub open spec fn byte_len(s: Seq<char>) -> nat
    decreases s.len(),
{
    if s.len() == 0 {
        0
    } else {
        char_bytes(s[0]) + byte_len(s.drop_first())
    }
}

pub proof fn lemma_char_bytes_range(c: char)
    ensures
        1 <= char_bytes(c) <= 4,
{
    char_is_scalar(c);
}

/// The number of bytes a character occupies in UTF-8.
pub fn utf8_len(c: char) -> (n: usize)
    ensures
        n == char_bytes(c),
{
    proof {
        char_is_scalar(c);
    }
    let u = c as u32;
    if u < 0x80 {
        1
    } else if u < 0x800 {
        2
    } else if u < 0x10000 {
        3
    } else {
        4
    }
}

/// The length of the longest prefix of `s` whose characters all satisfy `p`.
pub open spec fn take_while(s: Seq<char>, p: spec_fn(char) -> bool) -> nat
    decreases s.len(),
{
    if s.len() > 0 && p(s[0]) {
        (1 + take_while(s.drop_first(), p)) as nat
    } else {
        0
    }
}

pub proof fn lemma_take_while_le(s: Seq<char>, p: spec_fn(char) -> bool)
    ensures
        take_while(s, p) <= s.len(),
    decreases s.len(),
{
    if s.len() > 0 && p(s[0]) {
        lemma_take_while_le(s.drop_first(), p);
    }
}

/// The character right after a maximal run, if any, fails the predicate.
pub proof fn lemma_take_while_stop(s: Seq<char>, p: spec_fn(char) -> bool)
    ensures
        take_while(s, p) <= s.len(),
        take_while(s, p) < s.len() ==> !p(s[take_while(s, p) as int]),
    decreases s.len(),
{
    if s.len() > 0 && p(s[0]) {
        lemma_take_while_stop(s.drop_first(), p);
    }
}

/// Collects the characters of a text into a vector. The text's UTF-8 byte
/// length is reported by `str::len` as a `usize`, which bounds the byte
/// length of the collected characters.
pub fn collect_chars(text: &str) -> (v: Vec<char>)
    ensures
        v@ == text@,
        byte_len(v@) <= usize::MAX,
{
    let bytes_len = text.as_bytes().len();
    let mut chars: Vec<char> = Vec::new();
    let mut it = text.chars();
    loop
        invariant
            it.decrease() is Some,
            it.obeys_prophetic_iter_laws(),
            chars@ + it.remaining() == text@,
        ensures
            chars@ == text@,
        decreases it.decrease()->0,
    {
        match it.next() {
            Some(ch) => {
                chars.push(ch);
                proof {
                    assert(chars@ + it.remaining() =~= text@);
                }
            },
            None => {
                proof {
                    assert(chars@ =~= text@);
                }
                break ;
            },
        }
    }
    proof {
        lemma_byte_len_is_encoding_len(text@);
    }
    chars
}

/// Relies on `String::push`: appends the one character to the string.
#[verifier::external_body]
pub(crate) fn push_char(s: &mut String, c: char)
    ensures
        final(s)@ == old(s)@.push(c),
{
    s.push(c)
}

/// Copies the characters `chars[from..to]` into a fresh string.
pub fn chars_to_string(chars: &Vec<char>, from: usize, to: usize) -> (s: String)
    requires
        from <= to <= chars@.len(),
    ensures
        s@ == chars@.subrange(from as int, to as int),
{
    let mut s = String::new();
    let mut i: usize = from;
    while i < to
        invariant
            from <= i <= to <= chars@.len(),
            s@ == chars@.subrange(from as int, i as int),
        decreases to - i,
    {
        push_char(&mut s, chars[i]);
        i = i + 1;
        proof {
            assert(chars@.subrange(from as int, i as int) =~= chars@.subrange(
                from as int,
                i - 1,
            ).push(chars@[i - 1]));
        }
    }
    proof {
        assert(s@ =~= chars@.subrange(from as int, to as int));
    }
    s
}

pub proof fn lemma_byte_len_push(s: Seq<char>, c: char)
    ensures
        byte_len(s.push(c)) == byte_len(s) + char_bytes(c),
    decreases s.len(),
{
    if s.len() == 0 {
        assert(s.push(c)[0] == c);
        assert(s.push(c).drop_first() =~= Seq::<char>::empty());
        assert(byte_len(s.push(c).drop_first()) == 0);
        assert(byte_len(s.push(c)) == char_bytes(c) + byte_len(s.push(c).drop_first()));
    } else {
        assert(s.push(c).drop_first() =~= s.drop_first().push(c));
        lemma_byte_len_push(s.drop_first(), c);
        assert(s.push(c)[0] == s[0]);
        assert(byte_len(s.push(c)) == char_bytes(s[0]) + byte_len(s.push(c).drop_first()));
    }
}

/// The bytes of any slice of a sequence are no more than the whole.
pub proof fn lemma_byte_len_subrange_le(s: Seq<char>, a: int, b: int)
    requires
        0 <= a <= b <= s.len(),
    ensures
        byte_len(s.subrange(a, b)) <= byte_len(s),
{
    lemma_byte_len_split(s, a);
    lemma_byte_len_split(s.skip(a), b - a);
    assert(s.skip(a).take(b - a) =~= s.subrange(a, b));
}

pub proof fn lemma_byte_len_append(s: Seq<char>, t: Seq<char>)
    ensures
        byte_len(s + t) == byte_len(s) + byte_len(t),
    decreases s.len(),
{
    if s.len() == 0 {
        assert(s + t =~= t);
    } else {
        assert((s + t).drop_first() =~= s.drop_first() + t);
        assert((s + t)[0] == s[0]);
        lemma_byte_len_append(s.drop_first(), t);
    }
}

/// Byte lengths add up across any cut of a sequence.
pub proof fn lemma_byte_len_split(s: Seq<char>, i: int)
    requires
        0 <= i <= s.len(),
    ensures
        byte_len(s) == byte_len(s.take(i)) + byte_len(s.skip(i)),
{
    assert(s =~= s.take(i) + s.skip(i));
    lemma_byte_len_append(s.take(i), s.skip(i));
}

/// A sequence occupies at least one byte per character.
pub proof fn lemma_byte_len_ge_len(s: Seq<char>)
    ensures
        byte_len(s) >= s.len(),
    decreases s.len(),
{
    if s.len() > 0 {
        lemma_char_bytes_range(s[0]);
        lemma_byte_len_ge_len(s.drop_first());
    }
}

/// [`byte_len`] agrees with the length of the UTF-8 encoding that vstd
/// ascribes to `str`, so it measures exactly what `str::len` reports.
pub proof fn lemma_byte_len_is_encoding_len(s: Seq<char>)
    ensures
        byte_len(s) == encode_utf8(s).len(),
    decreases s.len(),
{
    if s.len() > 0 {
        lemma_byte_len_is_encoding_len(s.drop_first());
    }
}

} // verus!
