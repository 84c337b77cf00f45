use vstd::prelude::*;

use crate::algebra::{Number, NumberV};
use crate::tokenizer::{
    is_keyword_obj, is_keyword_r, kw_obj, kw_r, lemma_lex_advances, lex, skip_whitespace, Lexed,
    Token, TokenError, TokenV, Tokenizer,
};

verus! {

/// The next token of `s` from position `p`, with comments skipped, an
/// indirect reference `a b R` read as one token and an object header `a b obj`
/// read as [`TokenV::ObjBegin`]. An integer that does not start either is read
/// as itself. Bytes that form no token, also where they are only looked ahead
/// at, fail the read.
pub open spec fn lem(s: Seq<u8>, p: int) -> Lexed
    decreases s.len() - p,
{
    match lex(s, p) {
        Lexed::Tok(TokenV::Numeric(NumberV::Integer(a)), q1) => match lex(s, q1) {
            Lexed::Tok(TokenV::Numeric(NumberV::Integer(b)), q2) => match lex(s, q2) {
                Lexed::Tok(TokenV::String(w), q3) => if w == kw_r() {
                    Lexed::Tok(TokenV::IndirectRef(a, b), q3)
                } else if w == kw_obj() {
                    Lexed::Tok(TokenV::ObjBegin, q3)
                } else {
                    Lexed::Tok(TokenV::Numeric(NumberV::Integer(a)), q1)
                },
                Lexed::Fail => Lexed::Fail,
                _ => Lexed::Tok(TokenV::Numeric(NumberV::Integer(a)), q1),
            },
            Lexed::Fail => Lexed::Fail,
            _ => Lexed::Tok(TokenV::Numeric(NumberV::Integer(a)), q1),
        },
        Lexed::Tok(TokenV::Comment(_), q1) => if p < q1 <= s.len() {
            lem(s, q1)
        } else {
            Lexed::Fail
        },
        r => r,
    }
}

/// `a b R` is read as a reference to object `a` of generation `b`, and
/// `a b obj` as the opening of an object; two integers followed by another
/// word give the first integer.
pub proof fn law_reference_and_object_header(s: Seq<u8>, p: int, a: i32, b: i32, w: Seq<u8>, q1: int, q2: int, q3: int)
    requires
        lex(s, p) == Lexed::Tok(TokenV::Numeric(NumberV::Integer(a)), q1),
        lex(s, q1) == Lexed::Tok(TokenV::Numeric(NumberV::Integer(b)), q2),
        lex(s, q2) == Lexed::Tok(TokenV::String(w), q3),
    ensures
        w == seq![82u8] ==> lem(s, p) == Lexed::Tok(TokenV::IndirectRef(a, b), q3),
        w == seq![111u8, 98, 106] ==> lem(s, p) == Lexed::Tok(TokenV::ObjBegin, q3),
        w != seq![82u8] && w != seq![111u8, 98, 106] ==> lem(s, p) == Lexed::Tok(
            TokenV::Numeric(NumberV::Integer(a)),
            q1,
        ),
{
}

/// A token read by [`lem`] from `p` ends after `p`, inside the input.
pub proof fn lemma_lem_advances(s: Seq<u8>, p: int)
    requires
        0 <= p,
    ensures
        lem(s, p) matches Lexed::Tok(_, q) ==> p < q <= s.len(),
    decreases s.len() - p,
{
    lemma_lex_advances(s, p);
    match lex(s, p) {
        Lexed::Tok(TokenV::Numeric(NumberV::Integer(a)), q1) => {
            lemma_lex_advances(s, q1);
            match lex(s, q1) {
                Lexed::Tok(TokenV::Numeric(NumberV::Integer(b)), q2) => {
                    lemma_lex_advances(s, q2);
                },
                _ => {},
            }
        },
        Lexed::Tok(TokenV::Comment(_), q1) => {
            lemma_lem_advances(s, q1);
        },
        _ => {},
    }
}


/// Reads PDF tokens as the object syntax sees them: comments are skipped,
/// `a b R` is one indirect reference and `a b obj` opens an object.
pub struct Lemmatizer<'a> {
    tokenizer: Tokenizer<'a>,
}

impl<'a> Lemmatizer<'a> {
    pub closed spec fn input(&self) -> Seq<u8> {
        self.tokenizer.input()
    }

    pub closed spec fn position(&self) -> int {
        self.tokenizer.position()
    }

    pub open spec fn wf(&self) -> bool {
        0 <= self.position() <= self.input().len() <= usize::MAX
    }

    pub fn new(bytes: &'a [u8], curr_idx: usize) -> (r: Lemmatizer<'a>)
        requires
            curr_idx <= bytes@.len(),
        ensures
            r.input() == bytes@,
            r.position() == curr_idx,
            r.wf(),
    {
        Lemmatizer { tokenizer: Tokenizer::new(bytes, curr_idx) }
    }

    /// See [`Tokenizer::next_n`].
    pub fn next_n(&mut self, length: usize) -> (r: Option<Vec<u8>>)
        requires
            old(self).wf(),
        ensures
            final(self).wf(),
            final(self).input() == old(self).input(),
            ({
                let s = old(self).input();
                let q = skip_whitespace(s, old(self).position());
                &&& final(self).position() == q
                &&& q < s.len() <==> r is Some
                &&& r matches Some(v) ==> v@ == s.subrange(
                    q,
                    if q + length <= s.len() {
                        q + length
                    } else {
                        s.len() as int
                    },
                )
            }),
    {
        self.tokenizer.next_n(length)
    }

    /// Reads the next token (see [`lem`]): `Ok(None)` at the end of the
    /// stream, an error where it fails. At the end of the stream and on failure
    /// the lemmatizer then stands at the end.
    pub fn try_next(&mut self) -> (r: Result<Option<Token>, TokenError>)
        requires
            old(self).wf(),
        ensures
            final(self).wf(),
            final(self).input() == old(self).input(),
            match lem(old(self).input(), old(self).position()) {
                Lexed::Tok(t, q) => r matches Ok(Some(tok)) && tok@ == t && final(self).position() == q,
                Lexed::End => r matches Ok(None) && final(self).position() == final(self).input().len(),
                Lexed::Fail => r is Err && final(self).position() == final(self).input().len(),
            },
    {
        let (r, t) = lemmatize(self.tokenizer);
        self.tokenizer = t;
        r
    }

    /// Reads the next token (see [`lem`]), `None` at the end of the stream;
    /// the bytes there, and those looked ahead at, must form tokens.
    pub fn next(&mut self) -> (r: Option<Token>)
        requires
            old(self).wf(),
            !(lem(old(self).input(), old(self).position()) is Fail),
        ensures
            final(self).wf(),
            final(self).input() == old(self).input(),
            match lem(old(self).input(), old(self).position()) {
                Lexed::Tok(t, q) => r is Some && r.unwrap()@ == t && final(self).position() == q,
                _ => r is None && final(self).position() == final(self).input().len(),
            },
    {
        self.next_token()
    }

    /// Reads the next token (see [`lem`]); `None` at the end of the stream or
    /// where the read fails.
    pub fn next_token(&mut self) -> (r: Option<Token>)
        requires
            old(self).wf(),
        ensures
            final(self).wf(),
            final(self).input() == old(self).input(),
            match lem(old(self).input(), old(self).position()) {
                Lexed::Tok(t, q) => r is Some && r.unwrap()@ == t && final(self).position() == q,
                _ => r is None && final(self).position() == final(self).input().len(),
            },
    {
        match self.try_next() {
            Ok(t) => t,
            Err(_) => None,
        }
    }
}

/// 1 for the string `R`, 2 for the string `obj`, 3 for another string, 0 for
/// anything else.
fn third_token_kind(t: &Option<Token>) -> (k: u8)
    ensures
        k == (match t {
            Some(Token::String(w)) => if w@ == kw_r() {
                1u8
            } else if w@ == kw_obj() {
                2u8
            } else {
                3u8
            },
            _ => 0u8,
        }),
{
    match t {
        Some(Token::String(w)) => {
            if is_keyword_r(w.as_slice()) {
                1
            } else if is_keyword_obj(w.as_slice()) {
                2
            } else {
                3
            }
        },
        _ => 0,
    }
}

fn lemmatize<'a>(start: Tokenizer<'a>) -> (res: (Result<Option<Token>, TokenError>, Tokenizer<'a>))
    requires
        start.wf(),
    ensures
        res.1.wf(),
        res.1.input() == start.input(),
        match lem(start.input(), start.position()) {
            Lexed::Tok(t, q) => res.0 matches Ok(Some(tok)) && tok@ == t && res.1.position() == q,
            Lexed::End => res.0 matches Ok(None) && res.1.position() == res.1.input().len(),
            Lexed::Fail => res.0 is Err && res.1.position() == res.1.input().len(),
        },
{
    let mut tok = start;
    let ghost s = start.input();
    loop
        invariant
            tok.wf(),
            s == start.input(),
            tok.input() == s,
            lem(s, start.position()) == lem(s, tok.position()),
        decreases s.len() - tok.position(),
    {
        let ghost p = tok.position();
        proof {
            lemma_lex_advances(s, p);
        }
        let t = tok.try_next();
        match t {
            Ok(Some(Token::Numeric(Number::Integer(a)))) => {
                let mut look = Tokenizer::new(tok.bytes(), tok.pos());
                proof {
                    lemma_lex_advances(s, look.position());
                }
                let t2 = look.try_next();
                match t2 {
                    Ok(Some(Token::Numeric(Number::Integer(b)))) => {
                        proof {
                            lemma_lex_advances(s, look.position());
                        }
                        let t3 = look.try_next();
                        match t3 {
                            Err(e) => {
                                return (Err(e), look);
                            },
                            Ok(t3) => {
                                let k = third_token_kind(&t3);
                                if k == 1 {
                                    return (Ok(Some(Token::IndirectRef(a, b))), look);
                                } else if k == 2 {
                                    return (Ok(Some(Token::ObjBegin)), look);
                                } else {
                                    return (Ok(Some(Token::Numeric(Number::Integer(a)))), tok);
                                }
                            },
                        }
                    },
                    Err(e) => {
                        return (Err(e), look);
                    },
                    _ => {
                        return (Ok(Some(Token::Numeric(Number::Integer(a)))), tok);
                    },
                }
            },
            Ok(Some(Token::Comment(_))) => {},
            other => {
                return (other, tok);
            },
        }
    }
}

} // verus!
