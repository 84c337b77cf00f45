use vstd::prelude::*;

use crate::algebra::{Number, NumberV};
use crate::strings::push_char;

verus! {

// Byte values of the characters that the PDF syntax gives a meaning to.
pub const NUL: u8 = 0;
pub const TAB: u8 = 9;
pub const LF: u8 = 10;
pub const FF: u8 = 12;
pub const CR: u8 = 13;
pub const SPACE: u8 = 32;
pub const PERCENT: u8 = 37;
pub const LPAREN: u8 = 40;
pub const RPAREN: u8 = 41;
pub const PLUS: u8 = 43;
pub const MINUS: u8 = 45;
pub const DOT: u8 = 46;
pub const SLASH: u8 = 47;
pub const LT: u8 = 60;
pub const GT: u8 = 62;
pub const LBRACKET: u8 = 91;
pub const BACKSLASH: u8 = 92;
pub const RBRACKET: u8 = 93;
pub const LBRACE: u8 = 123;
pub const RBRACE: u8 = 125;

// ---------------------------------------------------------------------------
// Character classes (PDF reference, section 3.1)
// ---------------------------------------------------------------------------

pub open spec fn is_whitespace(b: u8) -> bool {
    b == NUL || b == TAB || b == LF || b == FF || b == CR || b == SPACE
}

pub open spec fn is_delimiter(b: u8) -> bool {
    b == LPAREN || b == RPAREN || b == LT || b == GT || b == LBRACKET || b == RBRACKET
        || b == LBRACE || b == RBRACE || b == SLASH || b == PERCENT
}

pub open spec fn is_regular(b: u8) -> bool {
    !is_whitespace(b) && !is_delimiter(b)
}

pub open spec fn is_digit(b: u8) -> bool {
    48 <= b <= 57
}

pub open spec fn is_hex_digit(b: u8) -> bool {
    is_digit(b) || 65 <= b <= 70 || 97 <= b <= 102
}

pub open spec fn hex_value(b: u8) -> int {
    if is_digit(b) {
        b - 48
    } else if 65 <= b <= 70 {
        b - 55
    } else {
        b - 87
    }
}

#[derive(Debug)]
pub enum WhiteSpace {
    Null,
    Tab,
    LineFeed,
    FormFeed,
    CarriageReturn,
    Space,
}

impl WhiteSpace {
    pub fn new(char: u8) -> (r: WhiteSpace)
        requires
            is_whitespace(char),
        ensures
            char == NUL <==> r is Null,
            char == TAB <==> r is Tab,
            char == LF <==> r is LineFeed,
            char == FF <==> r is FormFeed,
            char == CR <==> r is CarriageReturn,
            char == SPACE <==> r is Space,
    {
        if char == NUL {
            WhiteSpace::Null
        } else if char == TAB {
            WhiteSpace::Tab
        } else if char == LF {
            WhiteSpace::LineFeed
        } else if char == FF {
            WhiteSpace::FormFeed
        } else if char == CR {
            WhiteSpace::CarriageReturn
        } else {
            WhiteSpace::Space
        }
    }
}

#[derive(Debug)]
pub enum Delimiter {
    String,
    Array,
    Name,
    Comment,
}

impl Delimiter {
    pub fn new(char: u8) -> (r: Delimiter)
        requires
            is_delimiter(char),
        ensures
            (char == LPAREN || char == RPAREN) <==> r is String,
            (char == LT || char == GT || char == LBRACKET || char == RBRACKET || char == LBRACE
                || char == RBRACE) <==> r is Array,
            char == SLASH <==> r is Name,
            char == PERCENT <==> r is Comment,
    {
        if char == LPAREN || char == RPAREN {
            Delimiter::String
        } else if char == SLASH {
            Delimiter::Name
        } else if char == PERCENT {
            Delimiter::Comment
        } else {
            Delimiter::Array
        }
    }
}

#[derive(Debug)]
pub enum CharacterSet {
    Regular(u8),
    Delimiter(Delimiter),
    WhiteSpace(WhiteSpace),
}

impl CharacterSet {
    /// Class of a byte of a PDF file.
    pub fn from(char: &u8) -> (r: CharacterSet)
        ensures
            is_whitespace(*char) <==> r is WhiteSpace,
            is_delimiter(*char) <==> r is Delimiter,
            is_regular(*char) <==> r == CharacterSet::Regular(*char),
    {
        let c = *char;
        if c == NUL || c == TAB || c == LF || c == FF || c == CR || c == SPACE {
            CharacterSet::WhiteSpace(WhiteSpace::new(c))
        } else if c == LPAREN || c == RPAREN || c == LT || c == GT || c == LBRACKET || c
            == RBRACKET || c == LBRACE || c == RBRACE || c == SLASH || c == PERCENT {
            CharacterSet::Delimiter(Delimiter::new(c))
        } else {
            CharacterSet::Regular(c)
        }
    }
}

fn byte_is_whitespace(c: u8) -> (r: bool)
    ensures
        r == is_whitespace(c),
{
    c == NUL || c == TAB || c == LF || c == FF || c == CR || c == SPACE
}

fn byte_is_regular(c: u8) -> (r: bool)
    ensures
        r == is_regular(c),
{
    !(c == NUL || c == TAB || c == LF || c == FF || c == CR || c == SPACE || c == LPAREN || c
        == RPAREN || c == LT || c == GT || c == LBRACKET || c == RBRACKET || c == LBRACE || c
        == RBRACE || c == SLASH || c == PERCENT)
}

fn byte_is_hex_digit(c: u8) -> (r: bool)
    ensures
        r == is_hex_digit(c),
{
    (48 <= c && c <= 57) || (65 <= c && c <= 70) || (97 <= c && c <= 102)
}

fn byte_hex_value(c: u8) -> (r: u8)
    requires
        is_hex_digit(c),
    ensures
        r == hex_value(c),
        r < 16,
{
    if 48 <= c && c <= 57 {
        c - 48
    } else if 65 <= c && c <= 70 {
        c - 55
    } else {
        c - 87
    }
}

// ---------------------------------------------------------------------------
// Tokens
// ---------------------------------------------------------------------------

#[derive(Debug, PartialEq)]
pub enum Token {
    Numeric(Number),
    String(Vec<u8>),
    LitteralString(Vec<u8>),
    HexString(Vec<u8>),
    Name(String),
    Comment(Vec<u8>),
    IndirectRef(i32, i32),
    DictBegin,
    DictEnd,
    ArrayBegin,
    ArrayEnd,
    StreamBegin,
    StreamEnd,
    ObjBegin,
    ObjEnd,
}

/// Mathematical model of a [`Token`].
pub enum TokenV {
    Numeric(NumberV),
    String(Seq<u8>),
    LitteralString(Seq<u8>),
    HexString(Seq<u8>),
    Name(Seq<char>),
    Comment(Seq<u8>),
    IndirectRef(i32, i32),
    DictBegin,
    DictEnd,
    ArrayBegin,
    ArrayEnd,
    StreamBegin,
    StreamEnd,
    ObjBegin,
    ObjEnd,
}

impl View for Token {
    type V = TokenV;

    open spec fn view(&self) -> TokenV {
        match self {
            Token::Numeric(n) => TokenV::Numeric(n@),
            Token::String(s) => TokenV::String(s@),
            Token::LitteralString(s) => TokenV::LitteralString(s@),
            Token::HexString(s) => TokenV::HexString(s@),
            Token::Name(s) => TokenV::Name(s@),
            Token::Comment(s) => TokenV::Comment(s@),
            Token::IndirectRef(a, b) => TokenV::IndirectRef(*a, *b),
            Token::DictBegin => TokenV::DictBegin,
            Token::DictEnd => TokenV::DictEnd,
            Token::ArrayBegin => TokenV::ArrayBegin,
            Token::ArrayEnd => TokenV::ArrayEnd,
            Token::StreamBegin => TokenV::StreamBegin,
            Token::StreamEnd => TokenV::StreamEnd,
            Token::ObjBegin => TokenV::ObjBegin,
            Token::ObjEnd => TokenV::ObjEnd,
        }
    }
}

// ---------------------------------------------------------------------------
// Lexical grammar
// ---------------------------------------------------------------------------

/// Outcome of reading one token.
pub enum Lexed {
    /// A token and the position just after it.
    Tok(TokenV, int),
    /// Only white space is left.
    End,
    /// The bytes do not form a token.
    Fail,
}

/// Bytes read as characters one for one (ISO 8859-1).
pub open spec fn latin1(s: Seq<u8>) -> Seq<char> {
    s.map_values(|b: u8| b as char)
}

/// First position at or after `q` that does not hold a regular character.
pub open spec fn regular_end(s: Seq<u8>, q: int) -> int
    decreases s.len() - q,
{
    if q >= s.len() || !is_regular(s[q]) {
        q
    } else {
        regular_end(s, q + 1)
    }
}

/// First position at or after `q` that holds a line feed or a carriage return.
pub open spec fn comment_end(s: Seq<u8>, q: int) -> int
    decreases s.len() - q,
{
    if q >= s.len() || s[q] == LF || s[q] == CR {
        q
    } else {
        comment_end(s, q + 1)
    }
}

/// First position at or after `q` that holds `>`, if any.
pub open spec fn hex_close(s: Seq<u8>, q: int) -> Option<int>
    decreases s.len() - q,
{
    if q >= s.len() {
        None
    } else if s[q] == GT {
        Some(q)
    } else {
        hex_close(s, q + 1)
    }
}

/// Value of two characters read as a base-16 byte (a `+` sign may lead).
pub open spec fn hex_pair(a: u8, b: u8) -> Option<u8> {
    if is_hex_digit(a) && is_hex_digit(b) {
        Some((hex_value(a) * 16 + hex_value(b)) as u8)
    } else if a == PLUS && is_hex_digit(b) {
        Some(hex_value(b) as u8)
    } else {
        None
    }
}

/// Bytes of a hexadecimal string body (of even length), two characters each.
pub open spec fn hex_decode(h: Seq<u8>) -> Option<Seq<u8>>
    decreases h.len(),
{
    if h.len() < 2 {
        Some(Seq::empty())
    } else {
        match (hex_pair(h[0], h[1]), hex_decode(h.subrange(2, h.len() as int))) {
            (Some(b), Some(rest)) => Some(seq![b] + rest),
            _ => None,
        }
    }
}

/// A hexadecimal string body, with a `0` added when its length is odd.
pub open spec fn hex_padded(h: Seq<u8>) -> Seq<u8> {
    if h.len() % 2 == 1 {
        h.push(48)
    } else {
        h
    }
}

/// What follows `<` at position `q`.
pub open spec fn lex_lt(s: Seq<u8>, q: int) -> Lexed {
    if q >= s.len() {
        Lexed::Fail
    } else if s[q] == LT {
        Lexed::Tok(TokenV::DictBegin, q + 1)
    } else if is_hex_digit(s[q]) {
        match hex_close(s, q) {
            None => Lexed::End,
            Some(k) => match hex_decode(hex_padded(s.subrange(q, k))) {
                Some(v) => Lexed::Tok(TokenV::HexString(v), k + 1),
                None => Lexed::Fail,
            },
        }
    } else {
        Lexed::Fail
    }
}

/// Byte that an escape `\e` stands for (octal escapes apart).
pub open spec fn escaped(e: u8) -> u8 {
    if e == 110 {
        LF
    } else if e == 114 {
        CR
    } else if e == 116 {
        TAB
    } else if e == 98 {
        8
    } else if e == 102 {
        FF
    } else {
        e
    }
}

/// Body of a literal string from position `q`, with `o` parentheses opened and
/// `c` closed so far and `acc` read. An escape of three digits `\ddd` stands
/// for the byte of octal code `ddd` (kept modulo 256).
pub open spec fn lex_literal(s: Seq<u8>, q: int, o: int, c: int, acc: Seq<u8>) -> Lexed
    decreases s.len() - q,
{
    if q >= s.len() || q < 0 {
        Lexed::Tok(TokenV::LitteralString(acc), s.len() as int)
    } else {
        let b = s[q];
        let o2 = if b == LPAREN {
            o + 1
        } else {
            o
        };
        let c2 = if b == RPAREN {
            c + 1
        } else {
            c
        };
        if o2 > 255 {
            Lexed::Fail
        } else if o2 == c2 {
            Lexed::Tok(TokenV::LitteralString(acc), q + 1)
        } else if b == BACKSLASH {
            if q + 1 >= s.len() {
                Lexed::Tok(TokenV::LitteralString(acc), s.len() as int)
            } else {
                let e = s[q + 1];
                if is_digit(e) {
                    if q + 3 >= s.len() || !is_digit(s[q + 2]) || !is_digit(s[q + 3]) {
                        Lexed::Fail
                    } else {
                        let v = ((e - 48) * 64 + (s[q + 2] - 48) * 8 + (s[q + 3] - 48)) as u8;
                        lex_literal(s, q + 4, o2, c2, acc.push(v))
                    }
                } else {
                    lex_literal(s, q + 2, o2, c2, acc.push(escaped(e)))
                }
            }
        } else {
            lex_literal(s, q + 1, o2, c2, acc.push(b))
        }
    }
}

/// Decimal value of a sequence of digits.
pub open spec fn digits_value(d: Seq<u8>) -> nat
    decreases d.len(),
{
    if d.len() == 0 {
        0
    } else {
        digits_value(d.drop_last()) * 10 + (d.last() - 48) as nat
    }
}

pub open spec fn all_digits(d: Seq<u8>) -> bool {
    forall|i: int| 0 <= i < d.len() ==> is_digit(#[trigger] d[i])
}

/// The value of `w` read as a 32-bit signed decimal integer, if it is one.
pub open spec fn parse_i32(w: Seq<u8>) -> Option<i32> {
    if w.len() == 0 {
        None
    } else {
        let signed = w[0] == PLUS || w[0] == MINUS;
        let d = if signed {
            w.subrange(1, w.len() as int)
        } else {
            w
        };
        if d.len() == 0 || !all_digits(d) {
            None
        } else if w[0] == MINUS {
            if digits_value(d) <= 0x8000_0000 {
                Some((-digits_value(d)) as i32)
            } else {
                None
            }
        } else if digits_value(d) <= 0x7fff_ffff {
            Some(digits_value(d) as i32)
        } else {
            None
        }
    }
}

/// `w` spells a decimal real number: an optional sign, then digits with at
/// most one decimal point, and at least one digit.
/// `w` without its leading sign, if any.
pub open spec fn unsigned_part(w: Seq<u8>) -> Seq<u8> {
    if w.len() > 0 && (w[0] == PLUS || w[0] == MINUS) {
        w.subrange(1, w.len() as int)
    } else {
        w
    }
}

pub open spec fn is_real_text(w: Seq<u8>) -> bool {
    w.len() > 0 && {
        let d = unsigned_part(w);
        &&& forall|i: int| 0 <= i < d.len() ==> is_digit(#[trigger] d[i]) || d[i] == DOT
        &&& forall|i: int, j: int| #![trigger d[i], d[j]] 0 <= i < j < d.len() && d[i] == DOT ==> d[j] != DOT
        &&& exists|i: int| 0 <= i < d.len() && is_digit(#[trigger] d[i])
    }
}

pub open spec fn kw_stream() -> Seq<u8> {
    seq![115u8, 116, 114, 101, 97, 109]
}

pub open spec fn kw_endstream() -> Seq<u8> {
    seq![101u8, 110, 100, 115, 116, 114, 101, 97, 109]
}

pub open spec fn kw_endobj() -> Seq<u8> {
    seq![101u8, 110, 100, 111, 98, 106]
}

pub open spec fn kw_obj() -> Seq<u8> {
    seq![111u8, 98, 106]
}

pub open spec fn kw_r() -> Seq<u8> {
    seq![82u8]
}

/// All bytes after the first are digits or decimal points.
pub open spec fn numeric_shape(w: Seq<u8>) -> bool {
    forall|i: int| 1 <= i < w.len() ==> is_digit(#[trigger] w[i]) || w[i] == DOT
}

/// Token spelled by a run `w` of regular characters.
pub open spec fn regular_token(w: Seq<u8>) -> Option<TokenV> {
    if numeric_shape(w) && w[0] >= 128 {
        None
    } else if numeric_shape(w) && parse_i32(w) is Some {
        Some(TokenV::Numeric(NumberV::Integer(parse_i32(w).unwrap())))
    } else if numeric_shape(w) && is_real_text(w) {
        Some(TokenV::Numeric(NumberV::Real(w)))
    } else if w == kw_stream() {
        Some(TokenV::StreamBegin)
    } else if w == kw_endstream() {
        Some(TokenV::StreamEnd)
    } else if w == kw_endobj() {
        Some(TokenV::ObjEnd)
    } else {
        Some(TokenV::String(w))
    }
}

/// The next token of `s` from position `p`.
pub closed spec fn lex(s: Seq<u8>, p: int) -> Lexed
    decreases s.len() - p,
{
    if p < 0 || p >= s.len() {
        Lexed::End
    } else {
        let c = s[p];
        if is_whitespace(c) {
            lex(s, p + 1)
        } else if c == PERCENT {
            let e = comment_end(s, p + 1);
            Lexed::Tok(TokenV::Comment(s.subrange(p + 1, e)), e)
        } else if c == LT {
            lex_lt(s, p + 1)
        } else if c == GT {
            if p + 1 >= s.len() {
                Lexed::Fail
            } else if s[p + 1] == GT {
                Lexed::Tok(TokenV::DictEnd, p + 2)
            } else {
                lex(s, p + 1)
            }
        } else if c == LBRACKET {
            Lexed::Tok(TokenV::ArrayBegin, p + 1)
        } else if c == RBRACKET {
            Lexed::Tok(TokenV::ArrayEnd, p + 1)
        } else if c == LBRACE || c == RBRACE {
            Lexed::Fail
        } else if c == SLASH {
            let e = regular_end(s, p + 1);
            Lexed::Tok(TokenV::Name(latin1(s.subrange(p + 1, e))), e)
        } else if c == LPAREN || c == RPAREN {
            lex_literal(s, p + 1, 1, 0, Seq::empty())
        } else {
            let e = regular_end(s, p + 1);
            match regular_token(s.subrange(p, e)) {
                Some(t) => Lexed::Tok(t, e),
                None => Lexed::Fail,
            }
        }
    }
}

/// One step of [`lex`], written out: what [`lex`] gives at `p`, in terms of
/// [`lex`] further on. [`lemma_lex_unfold`] states that the two agree.
pub open spec fn lex_unfolded(s: Seq<u8>, p: int) -> Lexed {
    if p < 0 || p >= s.len() {
        Lexed::End
    } else {
        let c = s[p];
        if is_whitespace(c) {
            lex(s, p + 1)
        } else if c == PERCENT {
            let e = comment_end(s, p + 1);
            Lexed::Tok(TokenV::Comment(s.subrange(p + 1, e)), e)
        } else if c == LT {
            lex_lt(s, p + 1)
        } else if c == GT {
            if p + 1 >= s.len() {
                Lexed::Fail
            } else if s[p + 1] == GT {
                Lexed::Tok(TokenV::DictEnd, p + 2)
            } else {
                lex(s, p + 1)
            }
        } else if c == LBRACKET {
            Lexed::Tok(TokenV::ArrayBegin, p + 1)
        } else if c == RBRACKET {
            Lexed::Tok(TokenV::ArrayEnd, p + 1)
        } else if c == LBRACE || c == RBRACE {
            Lexed::Fail
        } else if c == SLASH {
            let e = regular_end(s, p + 1);
            Lexed::Tok(TokenV::Name(latin1(s.subrange(p + 1, e))), e)
        } else if c == LPAREN || c == RPAREN {
            lex_literal(s, p + 1, 1, 0, Seq::empty())
        } else {
            let e = regular_end(s, p + 1);
            match regular_token(s.subrange(p, e)) {
                Some(t) => Lexed::Tok(t, e),
                None => Lexed::Fail,
            }
        }
    }}

/// [`lex`] is what [`lex_unfolded`] writes out.
pub proof fn lemma_lex_unfold(s: Seq<u8>, p: int)
    ensures
        lex(s, p) == lex_unfolded(s, p),
{
}

// ---------------------------------------------------------------------------
// Facts about the grammar
// ---------------------------------------------------------------------------

pub proof fn lemma_regular_end(s: Seq<u8>, q: int)
    requires
        0 <= q <= s.len(),
    ensures
        q <= regular_end(s, q) <= s.len(),
        forall|i: int| q <= i < regular_end(s, q) ==> is_regular(#[trigger] s[i]),
        regular_end(s, q) < s.len() ==> !is_regular(s[regular_end(s, q)]),
    decreases s.len() - q,
{
    if q < s.len() && is_regular(s[q]) {
        lemma_regular_end(s, q + 1);
    }
}

pub proof fn lemma_comment_end(s: Seq<u8>, q: int)
    requires
        0 <= q <= s.len(),
    ensures
        q <= comment_end(s, q) <= s.len(),
    decreases s.len() - q,
{
    if q < s.len() && s[q] != LF && s[q] != CR {
        lemma_comment_end(s, q + 1);
    }
}

pub proof fn lemma_hex_close(s: Seq<u8>, q: int)
    requires
        0 <= q <= s.len(),
    ensures
        hex_close(s, q) matches Some(k) ==> q <= k < s.len() && s[k] == GT,
    decreases s.len() - q,
{
    if q < s.len() && s[q] != GT {
        lemma_hex_close(s, q + 1);
    }
}

pub proof fn lemma_lex_literal_advances(s: Seq<u8>, q: int, o: int, c: int, acc: Seq<u8>)
    requires
        0 <= q,
    ensures
        lex_literal(s, q, o, c, acc) matches Lexed::Tok(_, k) ==> q < k <= s.len() || (q
            >= s.len() && k == s.len()),
    decreases s.len() - q,
{
    if q < s.len() {
        let b = s[q];
        let o2 = if b == LPAREN {
            o + 1
        } else {
            o
        };
        let c2 = if b == RPAREN {
            c + 1
        } else {
            c
        };
        if o2 <= 255 && o2 != c2 && b == BACKSLASH && q + 1 < s.len() {
            let e = s[q + 1];
            if is_digit(e) {
                if !(q + 3 >= s.len() || !is_digit(s[q + 2]) || !is_digit(s[q + 3])) {
                    let v = ((e - 48) * 64 + (s[q + 2] - 48) * 8 + (s[q + 3] - 48)) as u8;
                    lemma_lex_literal_advances(s, q + 4, o2, c2, acc.push(v));
                }
            } else {
                lemma_lex_literal_advances(s, q + 2, o2, c2, acc.push(escaped(e)));
            }
        } else if o2 <= 255 && o2 != c2 {
            lemma_lex_literal_advances(s, q + 1, o2, c2, acc.push(b));
        }
    }
}

/// A token read from position `p` ends after `p`, inside the input.
/// A run of regular characters from `q` to `n`, followed by a byte that is
/// not regular or by the end, ends at `n`.
pub proof fn lemma_regular_end_at(s: Seq<u8>, q: int, n: int)
    requires
        0 <= q <= n <= s.len(),
        forall|i: int| q <= i < n ==> is_regular(#[trigger] s[i]),
        n == s.len() || !is_regular(s[n]),
    ensures
        regular_end(s, q) == n,
    decreases n - q,
{
    if q < n {
        lemma_regular_end_at(s, q + 1, n);
    }
}

/// White space is passed over before a token.
pub proof fn lemma_lex_skips_whitespace(s: Seq<u8>, p: int, q: int)
    requires
        0 <= p <= q <= s.len(),
        forall|i: int| p <= i < q ==> is_whitespace(#[trigger] s[i]),
    ensures
        lex(s, p) == lex(s, q),
    decreases q - p,
{
    if p < q {
        lemma_lex_skips_whitespace(s, p + 1, q);
    }
}

/// A run of regular characters from `p` to `n`, followed by a byte that is
/// not regular or by the end, is read as one token.
pub proof fn lemma_lex_regular_run(s: Seq<u8>, p: int, n: int)
    requires
        0 <= p < n <= s.len(),
        forall|i: int| p <= i < n ==> is_regular(#[trigger] s[i]),
        n == s.len() || !is_regular(s[n]),
        regular_token(s.subrange(p, n)) is Some,
    ensures
        lex(s, p) == Lexed::Tok(regular_token(s.subrange(p, n)).unwrap(), n),
{
    assert(is_regular(s[p]));
    lemma_regular_end_at(s, p + 1, n);
}

/// A literal string `(\e)` holding one escape is read as the byte of PDF
/// reference table 3.2: `\n` a line feed, `\r` a carriage return, `\t` a
/// tab, `\b` a backspace, `\f` a form feed, and `\\`, `\(`, `\)` the
/// character itself.
pub proof fn law_literal_escapes(s: Seq<u8>, p: int)
    requires
        0 <= p,
        p + 4 <= s.len(),
        s[p] == 40,
        s[p + 1] == 92,
        s[p + 3] == 41,
    ensures
        s[p + 2] == 110 ==> lex(s, p) == Lexed::Tok(TokenV::LitteralString(seq![10u8]), p + 4),
        s[p + 2] == 114 ==> lex(s, p) == Lexed::Tok(TokenV::LitteralString(seq![13u8]), p + 4),
        s[p + 2] == 116 ==> lex(s, p) == Lexed::Tok(TokenV::LitteralString(seq![9u8]), p + 4),
        s[p + 2] == 98 ==> lex(s, p) == Lexed::Tok(TokenV::LitteralString(seq![8u8]), p + 4),
        s[p + 2] == 102 ==> lex(s, p) == Lexed::Tok(TokenV::LitteralString(seq![12u8]), p + 4),
        s[p + 2] == 92 ==> lex(s, p) == Lexed::Tok(TokenV::LitteralString(seq![92u8]), p + 4),
        s[p + 2] == 40 ==> lex(s, p) == Lexed::Tok(TokenV::LitteralString(seq![40u8]), p + 4),
        s[p + 2] == 41 ==> lex(s, p) == Lexed::Tok(TokenV::LitteralString(seq![41u8]), p + 4),
{
    let e = s[p + 2];
    assert(lex_literal(s, p + 3, 1, 0, seq![escaped(e)]) == Lexed::Tok(
        TokenV::LitteralString(seq![escaped(e)]),
        p + 4,
    ));
    assert(Seq::<u8>::empty().push(escaped(e)) =~= seq![escaped(e)]);
}

/// `r` with its position moved `d` bytes on.
pub open spec fn shifted(r: Lexed, d: int) -> Lexed {
    match r {
        Lexed::Tok(t, q) => Lexed::Tok(t, q + d),
        other => other,
    }
}

proof fn lemma_regular_end_shift(s: Seq<u8>, p: int, k: int)
    requires
        0 <= p <= k <= s.len(),
    ensures
        regular_end(s, k) == regular_end(s.subrange(p, s.len() as int), k - p) + p,
    decreases s.len() - k,
{
    let u = s.subrange(p, s.len() as int);
    if k < s.len() {
        assert(u[k - p] == s[k]);
        if is_regular(s[k]) {
            lemma_regular_end_shift(s, p, k + 1);
        }
    }
}

proof fn lemma_comment_end_shift(s: Seq<u8>, p: int, k: int)
    requires
        0 <= p <= k <= s.len(),
    ensures
        comment_end(s, k) == comment_end(s.subrange(p, s.len() as int), k - p) + p,
    decreases s.len() - k,
{
    let u = s.subrange(p, s.len() as int);
    if k < s.len() {
        assert(u[k - p] == s[k]);
        if !(s[k] == LF || s[k] == CR) {
            lemma_comment_end_shift(s, p, k + 1);
        }
    }
}

proof fn lemma_hex_close_shift(s: Seq<u8>, p: int, k: int)
    requires
        0 <= p <= k <= s.len(),
    ensures
        match hex_close(s.subrange(p, s.len() as int), k - p) {
            Some(j) => hex_close(s, k) == Some(j + p),
            None => hex_close(s, k) is None,
        },
    decreases s.len() - k,
{
    let u = s.subrange(p, s.len() as int);
    if k < s.len() {
        assert(u[k - p] == s[k]);
        if s[k] != GT {
            lemma_hex_close_shift(s, p, k + 1);
        }
    }
}

proof fn lemma_lex_literal_shift(s: Seq<u8>, p: int, k: int, o: int, c: int, acc: Seq<u8>)
    requires
        0 <= p <= k <= s.len(),
    ensures
        lex_literal(s, k, o, c, acc) == shifted(lex_literal(s.subrange(p, s.len() as int), k - p, o, c, acc), p),
    decreases s.len() - k,
{
    let u = s.subrange(p, s.len() as int);
    if k < s.len() {
        let b = s[k];
        assert(u[k - p] == b);
        let o2 = if b == LPAREN {
            o + 1
        } else {
            o
        };
        let c2 = if b == RPAREN {
            c + 1
        } else {
            c
        };
        if k + 1 < s.len() {
            assert(u[k + 1 - p] == s[k + 1]);
        }
        if k + 2 < s.len() {
            assert(u[k + 2 - p] == s[k + 2]);
        }
        if k + 3 < s.len() {
            assert(u[k + 3 - p] == s[k + 3]);
        }
        if o2 <= 255 && o2 != c2 {
            if b == BACKSLASH {
                if k + 1 < s.len() {
                    let e = s[k + 1];
                    if is_digit(e) {
                        if !(k + 3 >= s.len() || !is_digit(s[k + 2]) || !is_digit(s[k + 3])) {
                            let v = ((e - 48) * 64 + (s[k + 2] - 48) * 8 + (s[k + 3] - 48)) as u8;
                            lemma_lex_literal_shift(s, p, k + 4, o2, c2, acc.push(v));
                        }
                    } else {
                        lemma_lex_literal_shift(s, p, k + 2, o2, c2, acc.push(escaped(e)));
                    }
                }
            } else {
                lemma_lex_literal_shift(s, p, k + 1, o2, c2, acc.push(b));
            }
        }
    }
}

proof fn lemma_lex_lt_shift(s: Seq<u8>, p: int, k: int)
    requires
        0 <= p <= k <= s.len(),
    ensures
        lex_lt(s, k) == shifted(lex_lt(s.subrange(p, s.len() as int), k - p), p),
{
    let u = s.subrange(p, s.len() as int);
    if k < s.len() {
        assert(u[k - p] == s[k]);
        if s[k] != LT && is_hex_digit(s[k]) {
            lemma_hex_close_shift(s, p, k);
            lemma_hex_close(s, k);
            match hex_close(s, k) {
                Some(j) => {
                    assert(s.subrange(k, j) =~= u.subrange(k - p, j - p));
                },
                None => {},
            }
        }
    }
}

/// Reading a token does not depend on the bytes before where it starts: on
/// the bytes from `p` on, the same token is read, at positions `p` bytes
/// earlier. A tokenizer started at `p` thus reads the same tokens as one
/// started at the beginning of those bytes.
pub proof fn law_lex_from_offset(s: Seq<u8>, p: int, k: int)
    requires
        0 <= p <= k <= s.len(),
    ensures
        lex(s, k) == shifted(lex(s.subrange(p, s.len() as int), k - p), p),
    decreases s.len() - k,
{
    let u = s.subrange(p, s.len() as int);
    if k < s.len() {
        let c = s[k];
        assert(u[k - p] == c);
        if k + 1 < s.len() {
            assert(u[k + 1 - p] == s[k + 1]);
        }
        if is_whitespace(c) {
            law_lex_from_offset(s, p, k + 1);
        } else if c == PERCENT {
            lemma_comment_end_shift(s, p, k + 1);
            let e = comment_end(s, k + 1);
            lemma_comment_end(s, k + 1);
            assert(s.subrange(k + 1, e) =~= u.subrange(k + 1 - p, e - p));
        } else if c == LT {
            lemma_lex_lt_shift(s, p, k + 1);
        } else if c == GT {
            if k + 1 < s.len() && s[k + 1] != GT {
                law_lex_from_offset(s, p, k + 1);
            }
        } else if c == SLASH {
            lemma_regular_end_shift(s, p, k + 1);
            let e = regular_end(s, k + 1);
            lemma_regular_end(s, k + 1);
            assert(s.subrange(k + 1, e) =~= u.subrange(k + 1 - p, e - p));
        } else if c == LPAREN || c == RPAREN {
            lemma_lex_literal_shift(s, p, k + 1, 1, 0, Seq::empty());
        } else if c == LBRACKET || c == RBRACKET || c == LBRACE || c == RBRACE {
        } else {
            lemma_regular_end_shift(s, p, k + 1);
            let e = regular_end(s, k + 1);
            lemma_regular_end(s, k + 1);
            assert(s.subrange(k, e) =~= u.subrange(k - p, e - p));
        }
    }
}

/// No token is read from past the end of the input.
pub proof fn lemma_lex_past_end(s: Seq<u8>, p: int)
    requires
        p >= s.len(),
    ensures
        lex(s, p) is End,
{
}

pub proof fn lemma_lex_advances(s: Seq<u8>, p: int)
    requires
        0 <= p,
    ensures
        lex(s, p) matches Lexed::Tok(_, q) ==> p < q <= s.len(),
    decreases s.len() - p,
{
    if p < s.len() {
        let c = s[p];
        if is_whitespace(c) {
            lemma_lex_advances(s, p + 1);
        } else if c == PERCENT {
            lemma_comment_end(s, p + 1);
        } else if c == LT {
            if p + 1 < s.len() && s[p + 1] != LT && is_hex_digit(s[p + 1]) {
                lemma_hex_close(s, p + 1);
            }
        } else if c == GT {
            if p + 1 < s.len() && s[p + 1] != GT {
                lemma_lex_advances(s, p + 1);
            }
        } else if c == SLASH {
            lemma_regular_end(s, p + 1);
        } else if c == LPAREN || c == RPAREN {
            lemma_lex_literal_advances(s, p + 1, 1, 0, Seq::empty());
        } else {
            lemma_regular_end(s, p + 1);
        }
    }
}

proof fn lemma_digits_value_prefix(d: Seq<u8>, k: int)
    requires
        0 <= k <= d.len(),
    ensures
        digits_value(d.subrange(0, k)) <= digits_value(d),
    decreases d.len(),
{
    if k < d.len() {
        lemma_digits_value_prefix(d.drop_last(), k);
        assert(d.drop_last().subrange(0, k) =~= d.subrange(0, k));
    } else {
        assert(d.subrange(0, k) =~= d);
    }
}

// ---------------------------------------------------------------------------
// Executable helpers on byte slices
// ---------------------------------------------------------------------------

/// `a` and `b` hold the same bytes.
pub fn bytes_eq(a: &[u8], b: &[u8]) -> (r: bool)
    ensures
        r == (a@ == b@),
{
    if a.len() != b.len() {
        return false;
    }
    let mut i: usize = 0;
    while i < a.len()
        invariant
            a@.len() == b@.len(),
            i <= a@.len(),
            forall|j: int| 0 <= j < i ==> a@[j] == b@[j],
        decreases a@.len() - i,
    {
        if a[i] != b[i] {
            return false;
        }
        i = i + 1;
    }
    assert(a@ =~= b@);
    true
}

pub fn slice_to_vec(s: &[u8], from: usize, to: usize) -> (r: Vec<u8>)
    requires
        from <= to <= s@.len(),
    ensures
        r@ == s@.subrange(from as int, to as int),
{
    let mut v: Vec<u8> = Vec::new();
    let mut i = from;
    while i < to
        invariant
            from <= i <= to <= s@.len(),
            v@ == s@.subrange(from as int, i as int),
        decreases to - i,
    {
        v.push(s[i]);
        assert(v@ =~= s@.subrange(from as int, i + 1));
        i = i + 1;
    }
    v
}

pub fn is_keyword_stream(w: &[u8]) -> (r: bool)
    ensures
        r == (w@ == kw_stream()),
{
    let k: [u8; 6] = [115, 116, 114, 101, 97, 109];
    assert(k@ =~= kw_stream());
    bytes_eq(w, &k)
}

pub fn is_keyword_endstream(w: &[u8]) -> (r: bool)
    ensures
        r == (w@ == kw_endstream()),
{
    let k: [u8; 9] = [101, 110, 100, 115, 116, 114, 101, 97, 109];
    assert(k@ =~= kw_endstream());
    bytes_eq(w, &k)
}

pub fn is_keyword_endobj(w: &[u8]) -> (r: bool)
    ensures
        r == (w@ == kw_endobj()),
{
    let k: [u8; 6] = [101, 110, 100, 111, 98, 106];
    assert(k@ =~= kw_endobj());
    bytes_eq(w, &k)
}

pub fn is_keyword_obj(w: &[u8]) -> (r: bool)
    ensures
        r == (w@ == kw_obj()),
{
    let k: [u8; 3] = [111, 98, 106];
    assert(k@ =~= kw_obj());
    bytes_eq(w, &k)
}

pub fn is_keyword_r(w: &[u8]) -> (r: bool)
    ensures
        r == (w@ == kw_r()),
{
    let k: [u8; 1] = [82];
    assert(k@ =~= kw_r());
    bytes_eq(w, &k)
}

/// Reads `w` as a 32-bit signed decimal integer.
pub fn decimal_i32(w: &[u8]) -> (r: Option<i32>)
    ensures
        r == parse_i32(w@),
{
    if w.len() == 0 {
        return None;
    }
    let signed = w[0] == PLUS || w[0] == MINUS;
    let start: usize = if signed {
        1
    } else {
        0
    };
    let ghost d = if signed {
        w@.subrange(1, w@.len() as int)
    } else {
        w@
    };
    if start == w.len() {
        return None;
    }
    let mut acc: u64 = 0;
    let mut i = start;
    while i < w.len()
        invariant
            start <= i <= w@.len(),
            w@.len() > 0,
            start == (if w@[0] == PLUS || w@[0] == MINUS {
                1int
            } else {
                0int
            }),
            d == w@.subrange(start as int, w@.len() as int),
            all_digits(d.subrange(0, i - start)),
            acc == digits_value(d.subrange(0, i - start)),
            acc <= 0x8000_0000,
        decreases w@.len() - i,
    {
        let b = w[i];
        if !(48 <= b && b <= 57) {
            assert(!all_digits(d)) by {
                assert(d[i - start] == b);
            }
            return None;
        }
        let ghost pre = d.subrange(0, i - start);
        let ghost nxt = d.subrange(0, i + 1 - start);
        assert(nxt.drop_last() =~= pre);
        assert(nxt.last() == b);
        let next = acc * 10 + (b - 48) as u64;
        if next > 0x8000_0000 {
            proof {
                assert(w@.subrange(0, w@.len() as int) =~= w@);
                lemma_digits_value_prefix(d, i + 1 - start);
                assert(digits_value(nxt) == next);
                assert(digits_value(d) > 0x8000_0000);
                assert(parse_i32(w@) is None);
            }
            if w[0] == MINUS {
                return None;
            } else {
                return None;
            }
        }
        acc = next;
        i = i + 1;
    }
    assert(d.subrange(0, (w@.len() - start) as int) =~= d);
    if w[0] == MINUS {
        if acc <= 0x8000_0000 {
            let r: i64 = -(acc as i64);
            Some(r as i32)
        } else {
            None
        }
    } else if acc <= 0x7fff_ffff {
        Some(acc as i32)
    } else {
        None
    }
}

/// Whether `w` spells a decimal real number (see [`is_real_text`]).
pub fn decimal_real(w: &[u8]) -> (r: bool)
    ensures
        r == is_real_text(w@),
{
    if w.len() == 0 {
        return false;
    }
    let start: usize = if w[0] == PLUS || w[0] == MINUS {
        1
    } else {
        0
    };
    let ghost d = unsigned_part(w@);
    assert(d =~= w@.subrange(start as int, w@.len() as int));
    let mut seen_dot = false;
    let mut seen_digit = false;
    let mut i = start;
    while i < w.len()
        invariant
            start <= i <= w@.len(),
            w@.len() > 0,
            start == (if w@[0] == PLUS || w@[0] == MINUS {
                1int
            } else {
                0int
            }),
            d == w@.subrange(start as int, w@.len() as int),
            forall|j: int| 0 <= j < i - start ==> is_digit(#[trigger] d[j]) || d[j] == DOT,
            forall|j: int, k: int|
                #![trigger d[j], d[k]]
                0 <= j < k < i - start && d[j] == DOT ==> d[k] != DOT,
            seen_dot <==> exists|j: int| 0 <= j < i - start && #[trigger] d[j] == DOT,
            seen_digit <==> exists|j: int| 0 <= j < i - start && is_digit(#[trigger] d[j]),
        decreases w@.len() - i,
    {
        let b = w[i];
        assert(d[i - start] == b);
        if 48 <= b && b <= 57 {
            seen_digit = true;
        } else if b == DOT {
            if seen_dot {
                let ghost j = choose|j: int| 0 <= j < i - start && #[trigger] d[j] == DOT;
                assert(d[j] == DOT && d[i - start] == DOT);
                return false;
            }
            seen_dot = true;
        } else {
            assert(w@.subrange(0, w@.len() as int) =~= w@);
            assert(!(is_digit(d[i - start]) || d[i - start] == DOT));
            assert(!is_real_text(w@));
            return false;
        }
        i = i + 1;
    }
    assert(d.len() == i - start);
    assert(w@.subrange(0, w@.len() as int) =~= w@);
    seen_digit
}

// ---------------------------------------------------------------------------
// Tokenizer
// ---------------------------------------------------------------------------

/// The bytes do not form a token.
#[derive(Debug, PartialEq)]
pub enum TokenError {
    Malformed,
}

/// Reads the tokens of a PDF byte stream, one at a time, from a position.
#[derive(Clone, Copy)]
pub struct Tokenizer<'a> {
    bytes: &'a [u8],
    pos: usize,
}

impl<'a> Tokenizer<'a> {
    /// The whole byte stream.
    pub closed spec fn input(&self) -> Seq<u8> {
        self.bytes@
    }

    /// Position of the next byte to read.
    pub closed spec fn position(&self) -> int {
        self.pos as int
    }

    pub open spec fn wf(&self) -> bool {
        0 <= self.position() <= self.input().len() <= usize::MAX
    }

    /// A tokenizer over `bytes` that starts at `curr_idx`.
    pub fn new(bytes: &'a [u8], curr_idx: usize) -> (r: Tokenizer<'a>)
        requires
            curr_idx <= bytes@.len(),
        ensures
            r.input() == bytes@,
            r.position() == curr_idx,
            r.wf(),
    {
        let n = bytes.len();
        Tokenizer { bytes, pos: curr_idx }
    }

    /// The byte stream this tokenizer reads.
    pub fn bytes(&self) -> (r: &'a [u8])
        ensures
            r@ == self.input(),
    {
        self.bytes
    }

    /// Position of the next byte to read.
    pub fn pos(&self) -> (r: usize)
        ensures
            r == self.position(),
    {
        self.pos
    }

    /// Skips white space, then returns (without consuming them) the next
    /// `length` bytes, or those that are left if fewer. `None` when only white
    /// space is left.
    pub fn next_n(&mut self, length: usize) -> (r: Option<Vec<u8>>)
        requires
            old(self).wf(),
        ensures
            final(self).wf(),
            final(self).input() == old(self).input(),
            ({
                let s = old(self).input();
                let q = skip_whitespace(s, old(self).position());
                &&& final(self).position() == q
                &&& q < s.len() <==> r is Some
                &&& r matches Some(v) ==> v@ == s.subrange(
                    q,
                    if q + length <= s.len() {
                        q + length
                    } else {
                        s.len() as int
                    },
                )
            }),
    {
        let bytes = self.bytes;
        let n = bytes.len();
        let pos = skip_ws_at(bytes, self.pos);
        self.pos = pos;
        if pos >= n {
            return None;
        }
        let end = if length <= n - pos {
            pos + length
        } else {
            n
        };
        Some(slice_to_vec(bytes, pos, end))
    }

    /// Returns the next token without consuming it (see [`Tokenizer::try_next`]).
    pub fn try_peek(&self) -> (r: Result<Option<Token>, TokenError>)
        requires
            self.wf(),
        ensures
            match lex(self.input(), self.position()) {
                Lexed::Tok(t, _) => r matches Ok(Some(tok)) && tok@ == t,
                Lexed::End => r matches Ok(None),
                _ => r is Err,
            },
    {
        let mut copy = *self;
        copy.try_next()
    }

    /// Returns the next token without consuming it (see [`Tokenizer::next`]);
    /// the bytes there must form a token or be white space to the end.
    pub fn peek(&self) -> (r: Option<Token>)
        requires
            self.wf(),
            !(lex(self.input(), self.position()) is Fail),
        ensures
            match lex(self.input(), self.position()) {
                Lexed::Tok(t, _) => r is Some && r.unwrap()@ == t,
                _ => r is None,
            },
    {
        let mut copy = *self;
        copy.next_token()
    }

    /// Reads the next token: `Ok(None)` when no token is left, an error
    /// where the bytes do not form a token. Either way the tokenizer then
    /// stands at the end.
    pub fn try_next(&mut self) -> (r: Result<Option<Token>, TokenError>)
        requires
            old(self).wf(),
        ensures
            final(self).wf(),
            final(self).input() == old(self).input(),
            match lex(old(self).input(), old(self).position()) {
                Lexed::Tok(t, q) => r matches Ok(Some(tok)) && tok@ == t && final(self).position() == q,
                Lexed::End => r matches Ok(None) && final(self).position() == final(self).input().len(),
                _ => r is Err && final(self).position() == final(self).input().len(),
            },
    {
        let (r, q) = scan_token(self.bytes, self.pos);
        self.pos = q;
        r
    }

    /// Reads the next token, `None` at the end of the stream; the bytes there
    /// must form a token or be white space to the end.
    pub fn next(&mut self) -> (r: Option<Token>)
        requires
            old(self).wf(),
            !(lex(old(self).input(), old(self).position()) is Fail),
        ensures
            final(self).wf(),
            final(self).input() == old(self).input(),
            match lex(old(self).input(), old(self).position()) {
                Lexed::Tok(t, q) => r is Some && r.unwrap()@ == t && final(self).position() == q,
                _ => r is None && final(self).position() == final(self).input().len(),
            },
    {
        self.next_token()
    }

    /// Reads the next token. `None` at the end of the stream, or where the
    /// bytes do not form a token (the tokenizer then stands at the end).
    pub fn next_token(&mut self) -> (r: Option<Token>)
        requires
            old(self).wf(),
        ensures
            final(self).wf(),
            final(self).input() == old(self).input(),
            match lex(old(self).input(), old(self).position()) {
                Lexed::Tok(t, q) => r is Some && r.unwrap()@ == t && final(self).position() == q,
                _ => r is None && final(self).position() == final(self).input().len(),
            },
    {
        match self.try_next() {
            Ok(t) => t,
            Err(_) => None,
        }
    }
}

/// Reads the token that starts after the white space at `p`.
fn scan_token(bytes: &[u8], p: usize) -> (res: (Result<Option<Token>, TokenError>, usize))
    requires
        p <= bytes@.len(),
    ensures
        res.1 <= bytes@.len(),
        match lex(bytes@, p as int) {
            Lexed::Tok(t, q) => res.0 matches Ok(Some(tok)) && tok@ == t && res.1 == q,
            Lexed::End => res.0 matches Ok(None) && res.1 == bytes@.len(),
            _ => res.0 is Err && res.1 == bytes@.len(),
        },
{
    let n = bytes.len();
    let mut pos = p;
    loop
        invariant
            pos <= n == bytes@.len(),
            lex(bytes@, p as int) == lex(bytes@, pos as int),
        decreases n - pos,
    {
        if pos >= n {
            return (Ok(None), n);
        }
        let c = bytes[pos];
        if byte_is_whitespace(c) {
            pos = pos + 1;
        } else if c == GT && pos + 1 < n && bytes[pos + 1] != GT {
            pos = pos + 1;
        } else {
            return lex_at(bytes, pos);
        }
    }
}

fn skip_ws_at(bytes: &[u8], p: usize) -> (q: usize)
    requires
        p <= bytes@.len(),
    ensures
        q == skip_whitespace(bytes@, p as int),
        p <= q <= bytes@.len(),
{
    let n = bytes.len();
    let mut pos = p;
    while pos < n && byte_is_whitespace(bytes[pos])
        invariant
            p <= pos <= n == bytes@.len(),
            skip_whitespace(bytes@, p as int) == skip_whitespace(bytes@, pos as int),
        decreases n - pos,
    {
        pos = pos + 1;
    }
    pos
}

/// First position at or after `p` that does not hold white space.
pub open spec fn skip_whitespace(s: Seq<u8>, p: int) -> int
    decreases s.len() - p,
{
    if p < 0 || p >= s.len() || !is_whitespace(s[p]) {
        p
    } else {
        skip_whitespace(s, p + 1)
    }
}

/// Reads the token that starts at `p`, where `s[p]` is no white space and no
/// lone `>`.
fn lex_at(s: &[u8], p: usize) -> (res: (Result<Option<Token>, TokenError>, usize))
    requires
        p < s@.len(),
        !is_whitespace(s@[p as int]),
        !(s@[p as int] == GT && p + 1 < s@.len() && s@[p + 1] != GT),
    ensures
        res.1 <= s@.len(),
        match lex(s@, p as int) {
            Lexed::Tok(t, q) => res.0 matches Ok(Some(tok)) && tok@ == t && res.1 == q,
            Lexed::End => res.0 matches Ok(None) && res.1 == s@.len(),
            _ => res.0 is Err && res.1 == s@.len(),
        },
{
    let n = s.len();
    let c = s[p];
    if c == PERCENT {
        let mut e = p + 1;
        while e < s.len() && s[e] != LF && s[e] != CR
            invariant
                p + 1 <= e <= s@.len(),
                comment_end(s@, p + 1) == comment_end(s@, e as int),
            decreases s@.len() - e,
        {
            e = e + 1;
        }
        (Ok(Some(Token::Comment(slice_to_vec(s, p + 1, e)))), e)
    } else if c == LT {
        lex_lt_at(s, p + 1)
    } else if c == GT {
        if p + 1 >= s.len() {
            (Err(TokenError::Malformed), s.len())
        } else {
            (Ok(Some(Token::DictEnd)), p + 2)
        }
    } else if c == LBRACKET {
        (Ok(Some(Token::ArrayBegin)), p + 1)
    } else if c == RBRACKET {
        (Ok(Some(Token::ArrayEnd)), p + 1)
    } else if c == LBRACE || c == RBRACE {
        (Err(TokenError::Malformed), s.len())
    } else if c == SLASH {
        let mut name = String::new();
        let mut e = p + 1;
        while e < s.len() && byte_is_regular(s[e])
            invariant
                p + 1 <= e <= s@.len(),
                regular_end(s@, p + 1) == regular_end(s@, e as int),
                name@ == latin1(s@.subrange(p + 1, e as int)),
            decreases s@.len() - e,
        {
            let b = s[e];
            push_char(&mut name, b as char);
            assert(latin1(s@.subrange(p + 1, e + 1)) =~= latin1(s@.subrange(p + 1, e as int)).push(
                b as char,
            ));
            e = e + 1;
        }
        (Ok(Some(Token::Name(name))), e)
    } else if c == LPAREN || c == RPAREN {
        lex_literal_at(s, p + 1)
    } else {
        lex_regular_at(s, p)
    }
}

/// Reads what follows `<` at position `q`.
fn lex_lt_at(s: &[u8], q: usize) -> (res: (Result<Option<Token>, TokenError>, usize))
    requires
        q <= s@.len(),
    ensures
        res.1 <= s@.len(),
        match lex_lt(s@, q as int) {
            Lexed::Tok(t, k) => res.0 matches Ok(Some(tok)) && tok@ == t && res.1 == k,
            Lexed::End => res.0 matches Ok(None) && res.1 == s@.len(),
            _ => res.0 is Err && res.1 == s@.len(),
        },
{
    if q >= s.len() {
        return (Err(TokenError::Malformed), s.len());
    }
    if s[q] == LT {
        return (Ok(Some(Token::DictBegin)), q + 1);
    }
    if !byte_is_hex_digit(s[q]) {
        return (Err(TokenError::Malformed), s.len());
    }
    let mut k = q;
    while k < s.len() && s[k] != GT
        invariant
            q <= k <= s@.len(),
            hex_close(s@, q as int) == hex_close(s@, k as int),
        decreases s@.len() - k,
    {
        k = k + 1;
    }
    if k >= s.len() {
        return (Ok(None), s.len());
    }
    let mut body = slice_to_vec(s, q, k);
    if body.len() % 2 == 1 {
        body.push(48);
    }
    assert(body@ == hex_padded(s@.subrange(q as int, k as int)));
    match decode_hex_pairs(&body) {
        Some(v) => (Ok(Some(Token::HexString(v))), k + 1),
        None => (Err(TokenError::Malformed), s.len()),
    }
}

/// Decodes a hexadecimal string body of even length.
pub fn decode_hex_pairs(h: &Vec<u8>) -> (r: Option<Vec<u8>>)
    ensures
        r matches Some(v) ==> hex_decode(h@) == Some(v@),
        r is None ==> hex_decode(h@) is None,
{
    let mut out: Vec<u8> = Vec::new();
    let mut i: usize = 0;
    assert(h@.subrange(0, h@.len() as int) =~= h@);
    proof {
        match hex_decode(h@) {
            Some(rest) => {
                assert(out@ + rest =~= rest);
            },
            None => {},
        }
    }
    while i + 1 < h.len()
        invariant
            i <= h@.len(),
            i % 2 == 0,
            hex_decode(h@) == match hex_decode(h@.subrange(i as int, h@.len() as int)) {
                Some(rest) => Some(out@ + rest),
                None => None::<Seq<u8>>,
            },
        decreases h@.len() - i,
    {
        let a = h[i];
        let b = h[i + 1];
        let ghost t = h@.subrange(i as int, h@.len() as int);
        assert(t.subrange(2, t.len() as int) =~= h@.subrange(i + 2, h@.len() as int));
        let v: u8;
        if byte_is_hex_digit(a) && byte_is_hex_digit(b) {
            v = byte_hex_value(a) * 16 + byte_hex_value(b);
        } else if a == PLUS && byte_is_hex_digit(b) {
            v = byte_hex_value(b);
        } else {
            return None;
        }
        assert(hex_pair(a, b) == Some(v));
        let ghost old_out = out@;
        out.push(v);
        proof {
            match hex_decode(h@.subrange(i + 2, h@.len() as int)) {
                Some(rest) => {
                    assert(old_out + (seq![v] + rest) =~= out@ + rest);
                },
                None => {},
            }
        }
        i = i + 2;
    }
    assert(h@.subrange(i as int, h@.len() as int).len() < 2);
    assert(out@ + Seq::<u8>::empty() =~= out@);
    Some(out)
}

/// Reads the body of a literal string, from just after its first parenthesis.
fn lex_literal_at(s: &[u8], q0: usize) -> (res: (Result<Option<Token>, TokenError>, usize))
    requires
        q0 <= s@.len(),
    ensures
        res.1 <= s@.len(),
        match lex_literal(s@, q0 as int, 1, 0, Seq::empty()) {
            Lexed::Tok(t, k) => res.0 matches Ok(Some(tok)) && tok@ == t && res.1 == k,
            Lexed::End => res.0 matches Ok(None) && res.1 == s@.len(),
            _ => res.0 is Err && res.1 == s@.len(),
        },
{
    let mut buf: Vec<u8> = Vec::new();
    let mut opened: u8 = 1;
    let mut closed: u8 = 0;
    let mut q = q0;
    while q < s.len()
        invariant
            q0 <= q <= s@.len(),
            closed < opened,
            lex_literal(s@, q0 as int, 1, 0, Seq::empty()) == lex_literal(
                s@,
                q as int,
                opened as int,
                closed as int,
                buf@,
            ),
        decreases s@.len() - q,
    {
        let b = s[q];
        if b == LPAREN {
            if opened == 255 {
                return (Err(TokenError::Malformed), s.len());
            }
            opened = opened + 1;
        }
        if b == RPAREN {
            closed = closed + 1;
        }
        if opened == closed {
            return (Ok(Some(Token::LitteralString(buf))), q + 1);
        }
        if b == BACKSLASH {
            if q + 1 >= s.len() {
                return (Ok(Some(Token::LitteralString(buf))), s.len());
            }
            let e = s[q + 1];
            if 48 <= e && e <= 57 {
                if s.len() - q <= 3 {
                    return (Err(TokenError::Malformed), s.len());
                }
                let d = s[q + 2];
                let f = s[q + 3];
                if !(48 <= d && d <= 57) || !(48 <= f && f <= 57) {
                    return (Err(TokenError::Malformed), s.len());
                }
                let v: u32 = (e - 48) as u32 * 64 + (d - 48) as u32 * 8 + (f - 48) as u32;
                buf.push(#[verifier::truncate] (v as u8));
                q = q + 4;
            } else {
                let v = if e == 110 {
                    LF
                } else if e == 114 {
                    CR
                } else if e == 116 {
                    TAB
                } else if e == 98 {
                    8
                } else if e == 102 {
                    FF
                } else {
                    e
                };
                buf.push(v);
                q = q + 2;
            }
        } else {
            buf.push(b);
            q = q + 1;
        }
    }
    (Ok(Some(Token::LitteralString(buf))), s.len())
}

/// Reads a run of regular characters that starts at `p`.
fn lex_regular_at(s: &[u8], p: usize) -> (res: (Result<Option<Token>, TokenError>, usize))
    requires
        p < s@.len(),
        is_regular(s@[p as int]),
    ensures
        res.1 <= s@.len(),
        ({
            let e = regular_end(s@, p + 1);
            match regular_token(s@.subrange(p as int, e)) {
                Some(t) => res.0 matches Ok(Some(tok)) && tok@ == t && res.1 == e,
                None => res.0 is Err && res.1 == s@.len(),
            }
        }),
{
    let n = s.len();
    let mut e = p + 1;
    let mut numeric = true;
    while e < s.len() && byte_is_regular(s[e])
        invariant
            p + 1 <= e <= s@.len(),
            regular_end(s@, p + 1) == regular_end(s@, e as int),
            numeric == numeric_shape(s@.subrange(p as int, e as int)),
        decreases s@.len() - e,
    {
        let b = s[e];
        let ghost w1 = s@.subrange(p as int, e + 1);
        assert(w1[e - p] == b);
        assert forall|i: int| 1 <= i < e - p implies #[trigger] w1[i] == s@.subrange(
            p as int,
            e as int,
        )[i] by {}
        if !(48 <= b && b <= 57) && b != DOT {
            numeric = false;
        }
        e = e + 1;
    }
    let w = slice_to_vec(s, p, e);
    assert(w@ == s@.subrange(p as int, e as int));
    if numeric {
        if w[0] >= 128 {
            return (Err(TokenError::Malformed), s.len());
        }
        match decimal_i32(w.as_slice()) {
            Some(n) => {
                return (Ok(Some(Token::Numeric(Number::Integer(n)))), e);
            },
            None => {},
        }
        if decimal_real(w.as_slice()) {
            return (Ok(Some(Token::Numeric(Number::Real(w)))), e);
        }
    }
    if is_keyword_stream(w.as_slice()) {
        (Ok(Some(Token::StreamBegin)), e)
    } else if is_keyword_endstream(w.as_slice()) {
        (Ok(Some(Token::StreamEnd)), e)
    } else if is_keyword_endobj(w.as_slice()) {
        (Ok(Some(Token::ObjEnd)), e)
    } else {
        (Ok(Some(Token::String(w))), e)
    }
}

} // verus!
