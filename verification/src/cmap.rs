use vstd::prelude::*;

use crate::strings::char_from_u32;
use crate::tokenizer::{slice_to_vec, bytes_eq, lemma_lex_advances, lex, Lexed, Token, TokenV, Tokenizer};
use std::collections::HashMap;

verus! {

broadcast use vstd::std_specs::hash::group_hash_axioms;

/// A ToUnicode CMap (PDF reference, section 5.9.2): the Unicode character of
/// each character code of a font.
#[derive(Debug, PartialEq, Clone)]
pub struct ToUnicodeCMap {
    pub begin_code_space_range: Vec<u8>,
    pub end_code_space_range: Vec<u8>,
    /// Character codes are two bytes long (else one).
    pub is_two_bytes: bool,
    pub cmap: HashMap<usize, char>,
}

/// What a ToUnicode CMap is used for in reading text: whether codes are two
/// bytes long, and the character of each code.
pub open spec fn cmap_codes(c: ToUnicodeCMap) -> (bool, Map<usize, char>) {
    (c.is_two_bytes, c.cmap@)
}

impl ToUnicodeCMap {
    /// A copy of this CMap.
    pub fn duplicate(&self) -> (r: ToUnicodeCMap)
        ensures
            r.begin_code_space_range@ == self.begin_code_space_range@,
            r.end_code_space_range@ == self.end_code_space_range@,
            r.is_two_bytes == self.is_two_bytes,
            r.cmap@ == self.cmap@,
    {
        ToUnicodeCMap {
            begin_code_space_range: slice_to_vec(
                self.begin_code_space_range.as_slice(),
                0,
                self.begin_code_space_range.len(),
            ),
            end_code_space_range: slice_to_vec(
                self.end_code_space_range.as_slice(),
                0,
                self.end_code_space_range.len(),
            ),
            is_two_bytes: self.is_two_bytes,
            cmap: self.cmap.clone(),
        }
    }
}

/// The CMap text does not have the shape that is read.
#[derive(Debug, PartialEq)]
pub enum CMapError {
    Malformed,
}

// ---------------------------------------------------------------------------
// Grammar
// ---------------------------------------------------------------------------

pub open spec fn kw_begincodespacerange() -> Seq<u8> {
    seq![98u8, 101, 103, 105, 110, 99, 111, 100, 101, 115, 112, 97, 99, 101, 114, 97, 110, 103, 101]
}

pub open spec fn kw_beginbfchar() -> Seq<u8> {
    seq![98u8, 101, 103, 105, 110, 98, 102, 99, 104, 97, 114]
}

pub open spec fn kw_endbfchar() -> Seq<u8> {
    seq![101u8, 110, 100, 98, 102, 99, 104, 97, 114]
}

pub open spec fn kw_beginbfrange() -> Seq<u8> {
    seq![98u8, 101, 103, 105, 110, 98, 102, 114, 97, 110, 103, 101]
}

pub open spec fn kw_endbfrange() -> Seq<u8> {
    seq![101u8, 110, 100, 98, 102, 114, 97, 110, 103, 101]
}

/// Position just after the first `begincodespacerange` at or after `p`.
pub open spec fn find_codespace(s: Seq<u8>, p: int) -> Option<int>
    decreases s.len() - p,
{
    match lex(s, p) {
        Lexed::Tok(TokenV::String(w), q) => if w == kw_begincodespacerange() {
            Some(q)
        } else if p < q <= s.len() {
            find_codespace(s, q)
        } else {
            None
        },
        Lexed::Tok(_, q) => if p < q <= s.len() {
            find_codespace(s, q)
        } else {
            None
        },
        _ => None,
    }
}

/// A source character code: one or two bytes, high byte first.
pub open spec fn code_key(x: Seq<u8>) -> Option<usize> {
    if x.len() == 2 {
        Some((x[0] * 256 + x[1]) as usize)
    } else if x.len() == 1 {
        Some(x[0] as usize)
    } else {
        None
    }
}

/// A destination UTF-16 code unit: the first two bytes, high byte first.
pub open spec fn code_unit(x: Seq<u8>) -> Option<int> {
    if x.len() >= 2 {
        Some(x[0] * 256 + x[1])
    } else {
        None
    }
}

/// The character that one UTF-16 code unit encodes; surrogates encode none.
pub open spec fn utf16_char(c: int) -> Option<char> {
    if 0 <= c <= 0xFFFF && !(0xD800 <= c <= 0xDFFF) {
        Some(c as char)
    } else {
        None
    }
}

/// Mappings of a `beginbfchar` section from `p`, up to `endbfchar` (which
/// is not consumed).
pub open spec fn bfchar_entries(s: Seq<u8>, p: int, m: Map<usize, char>) -> Option<(Map<usize, char>, int)>
    decreases s.len() - p,
{
    match lex(s, p) {
        Lexed::Tok(TokenV::String(w), _) if w == kw_endbfchar() => Some((m, p)),
        Lexed::Tok(TokenV::HexString(x), q1) => match (code_key(x), lex(s, q1)) {
            (Some(k), Lexed::Tok(TokenV::HexString(y), q2)) => match code_unit(y) {
                Some(u) => match utf16_char(u) {
                    Some(c) => if p < q2 <= s.len() {
                        bfchar_entries(s, q2, m.insert(k, c))
                    } else {
                        None
                    },
                    None => None,
                },
                None => None,
            },
            _ => None,
        },
        _ => None,
    }
}

/// Codes `lo..=hi` mapped to consecutive code units from `d`.
pub open spec fn range_insert(m: Map<usize, char>, lo: int, hi: int, d: int) -> Option<Map<usize, char>>
    decreases hi + 1 - lo,
{
    if lo > hi {
        Some(m)
    } else {
        match utf16_char(d) {
            Some(c) => if d + 1 > 0xFFFF {
                None
            } else {
                range_insert(m.insert(lo as usize, c), lo + 1, hi, d + 1)
            },
            None => None,
        }
    }
}

/// Codes from `base + idx` mapped to the code units of an array, up to `]`.
pub open spec fn array_codes(s: Seq<u8>, p: int, base: usize, idx: int, m: Map<usize, char>) -> Option<
    (Map<usize, char>, int),
>
    decreases s.len() - p,
{
    match lex(s, p) {
        Lexed::Tok(TokenV::ArrayEnd, q) => Some((m, q)),
        Lexed::Tok(TokenV::HexString(y), q) => match code_unit(y) {
            Some(u) => match utf16_char(u) {
                Some(c) => if p < q <= s.len() && base + idx <= usize::MAX {
                    array_codes(s, q, base, idx + 1, m.insert((base + idx) as usize, c))
                } else {
                    None
                },
                None => None,
            },
            None => None,
        },
        _ => None,
    }
}

/// Mappings of a `beginbfrange` section from `p`, up to `endbfrange`.
pub open spec fn bfrange_entries(s: Seq<u8>, p: int, m: Map<usize, char>) -> Option<(Map<usize, char>, int)>
    decreases s.len() - p,
{
    match lex(s, p) {
        Lexed::Tok(TokenV::String(w), _) if w == kw_endbfrange() => Some((m, p)),
        Lexed::Tok(TokenV::HexString(x1), q1) => match (code_key(x1), lex(s, q1)) {
            (Some(lo), Lexed::Tok(TokenV::HexString(x2), q2)) => match (code_key(x2), lex(s, q2)) {
                (Some(hi), Lexed::Tok(TokenV::HexString(y), q3)) => match code_unit(y) {
                    Some(d) => match range_insert(m, lo as int, hi as int, d) {
                        Some(m2) => if p < q3 <= s.len() {
                            bfrange_entries(s, q3, m2)
                        } else {
                            None
                        },
                        None => None,
                    },
                    None => None,
                },
                (Some(_), Lexed::Tok(TokenV::ArrayBegin, q3)) => match array_codes(s, q3, lo, 0, m) {
                    Some((m2, q4)) => if p < q4 <= s.len() {
                        bfrange_entries(s, q4, m2)
                    } else {
                        None
                    },
                    None => None,
                },
                _ => None,
            },
            _ => None,
        },
        _ => None,
    }
}

/// All mappings from `p` to the end of the text.
pub open spec fn cmap_sections(s: Seq<u8>, p: int, m: Map<usize, char>) -> Option<Map<usize, char>>
    decreases s.len() - p,
{
    match lex(s, p) {
        Lexed::Tok(t, q) => if p < q <= s.len() {
            if t == TokenV::String(kw_beginbfchar()) {
                match bfchar_entries(s, q, m) {
                    Some((m2, q2)) => if p < q2 <= s.len() {
                        cmap_sections(s, q2, m2)
                    } else {
                        None
                    },
                    None => None,
                }
            } else if t == TokenV::String(kw_beginbfrange()) {
                match bfrange_entries(s, q, m) {
                    Some((m2, q2)) => if p < q2 <= s.len() {
                        cmap_sections(s, q2, m2)
                    } else {
                        None
                    },
                    None => None,
                }
            } else {
                cmap_sections(s, q, m)
            }
        } else {
            None
        },
        Lexed::End => Some(m),
        _ => None,
    }
}

/// A CMap text: the code space range (its first bound gives the length of
/// codes), then the `bfchar` and `bfrange` sections.
pub open spec fn cmap_of(s: Seq<u8>) -> Option<(Seq<u8>, Seq<u8>, Map<usize, char>)> {
    match find_codespace(s, 0) {
        Some(q) => match lex(s, q) {
            Lexed::Tok(TokenV::HexString(b), q1) => match lex(s, q1) {
                Lexed::Tok(TokenV::HexString(e), q2) => if b.len() == 1 || b.len() == 2 {
                    match cmap_sections(s, q2, Map::empty()) {
                        Some(m) => Some((b, e, m)),
                        None => None,
                    }
                } else {
                    None
                },
                _ => None,
            },
            _ => None,
        },
        None => None,
    }
}

pub proof fn lemma_bfchar_advances(s: Seq<u8>, p: int, m: Map<usize, char>)
    requires
        0 <= p <= s.len(),
    ensures
        bfchar_entries(s, p, m) matches Some((_, q)) ==> p <= q <= s.len(),
    decreases s.len() - p,
{
    match lex(s, p) {
        Lexed::Tok(TokenV::String(w), _) if w == kw_endbfchar() => {},
        Lexed::Tok(TokenV::HexString(x), q1) => match (code_key(x), lex(s, q1)) {
            (Some(k), Lexed::Tok(TokenV::HexString(y), q2)) => match code_unit(y) {
                Some(u) => match utf16_char(u) {
                    Some(c) => if p < q2 <= s.len() {
                        lemma_bfchar_advances(s, q2, m.insert(k, c));
                    },
                    None => {},
                },
                None => {},
            },
            _ => {},
        },
        _ => {},
    }
}

pub proof fn lemma_array_codes_advances(s: Seq<u8>, p: int, base: usize, idx: int, m: Map<usize, char>)
    requires
        0 <= p <= s.len(),
    ensures
        array_codes(s, p, base, idx, m) matches Some((_, q)) ==> p < q <= s.len(),
    decreases s.len() - p,
{
    lemma_lex_advances(s, p);
    match lex(s, p) {
        Lexed::Tok(TokenV::HexString(y), q) => match code_unit(y) {
            Some(u) => match utf16_char(u) {
                Some(c) => if p < q <= s.len() && base + idx <= usize::MAX {
                    lemma_array_codes_advances(s, q, base, idx + 1, m.insert((base + idx) as usize, c));
                },
                None => {},
            },
            None => {},
        },
        _ => {},
    }
}

pub proof fn lemma_bfrange_advances(s: Seq<u8>, p: int, m: Map<usize, char>)
    requires
        0 <= p <= s.len(),
    ensures
        bfrange_entries(s, p, m) matches Some((_, q)) ==> p <= q <= s.len(),
    decreases s.len() - p,
{
    match lex(s, p) {
        Lexed::Tok(TokenV::String(w), _) if w == kw_endbfrange() => {},
        Lexed::Tok(TokenV::HexString(x1), q1) => match (code_key(x1), lex(s, q1)) {
            (Some(lo), Lexed::Tok(TokenV::HexString(x2), q2)) => match (code_key(x2), lex(s, q2)) {
                (Some(hi), Lexed::Tok(TokenV::HexString(y), q3)) => match code_unit(y) {
                    Some(d) => match range_insert(m, lo as int, hi as int, d) {
                        Some(m2) => if p < q3 <= s.len() {
                            lemma_bfrange_advances(s, q3, m2);
                        },
                        None => {},
                    },
                    None => {},
                },
                (Some(_), Lexed::Tok(TokenV::ArrayBegin, q3)) => match array_codes(s, q3, lo, 0, m) {
                    Some((m2, q4)) => if p < q4 <= s.len() {
                        lemma_bfrange_advances(s, q4, m2);
                    },
                    None => {},
                },
                _ => {},
            },
            _ => {},
        },
        _ => {},
    }
}

} // verus!

verus! {

fn is_kw(w: &Vec<u8>, k: &[u8]) -> (r: bool)
    ensures
        r == (w@ == k@),
{
    bytes_eq(w.as_slice(), k)
}

fn code_key_of(x: &Vec<u8>) -> (r: Option<usize>)
    ensures
        r == code_key(x@),
{
    if x.len() == 2 {
        Some(x[0] as usize * 256 + x[1] as usize)
    } else if x.len() == 1 {
        Some(x[0] as usize)
    } else {
        None
    }
}

fn code_unit_of(x: &Vec<u8>) -> (r: Option<u16>)
    ensures
        match code_unit(x@) {
            Some(u) => r == Some(u as u16) && u == r.unwrap() as int,
            None => r is None,
        },
{
    if x.len() >= 2 {
        Some(x[0] as u16 * 256 + x[1] as u16)
    } else {
        None
    }
}

fn utf16_char_of(c: u16) -> (r: Option<char>)
    ensures
        r == utf16_char(c as int),
{
    if 0xD800 <= c && c <= 0xDFFF {
        None
    } else {
        char_from_u32(c as u32)
    }
}

/// Reads to just after the first `begincodespacerange`.
fn skip_to_codespace(tok: &mut Tokenizer) -> (r: bool)
    requires
        old(tok).wf(),
    ensures
        final(tok).wf(),
        final(tok).input() == old(tok).input(),
        match find_codespace(old(tok).input(), old(tok).position()) {
            Some(q) => r && final(tok).position() == q,
            None => !r,
        },
{
    let ghost s = tok.input();
    let ghost p0 = tok.position();
    let k: [u8; 19] = [98, 101, 103, 105, 110, 99, 111, 100, 101, 115, 112, 97, 99, 101, 114, 97, 110, 103, 101];
    assert(k@ =~= kw_begincodespacerange());
    loop
        invariant
            tok.wf(),
            tok.input() == s,
            s == old(tok).input(),
            p0 == old(tok).position(),
            k@ == kw_begincodespacerange(),
            find_codespace(s, p0) == find_codespace(s, tok.position()),
        decreases s.len() - tok.position(),
    {
        let ghost p = tok.position();
        proof {
            lemma_lex_advances(s, p);
        }
        match tok.try_next() {
            Ok(Some(Token::String(w))) => {
                if is_kw(&w, &k) {
                    return true;
                }
            },
            Ok(Some(_)) => {},
            _ => {
                return false;
            },
        }
    }
}

/// Reads a `beginbfchar` section (see [`bfchar_entries`]).
fn read_bfchar(tok: &mut Tokenizer, cmap: &mut HashMap<usize, char>) -> (r: Result<(), CMapError>)
    requires
        old(tok).wf(),
    ensures
        final(tok).wf(),
        final(tok).input() == old(tok).input(),
        match bfchar_entries(old(tok).input(), old(tok).position(), old(cmap)@) {
            Some((m, q)) => r is Ok && final(cmap)@ == m && final(tok).position() == q,
            None => r is Err,
        },
{
    let ghost s = tok.input();
    let ghost p0 = tok.position();
    let ghost m0 = cmap@;
    let end: [u8; 9] = [101, 110, 100, 98, 102, 99, 104, 97, 114];
    assert(end@ =~= kw_endbfchar());
    loop
        invariant
            tok.wf(),
            tok.input() == s,
            s == old(tok).input(),
            p0 == old(tok).position(),
            m0 == old(cmap)@,
            end@ == kw_endbfchar(),
            bfchar_entries(s, p0, m0) == bfchar_entries(s, tok.position(), cmap@),
        decreases s.len() - tok.position(),
    {
        let ghost p = tok.position();
        proof {
            lemma_lex_advances(s, p);
        }
        match tok.try_peek() {
            Ok(Some(Token::String(w))) => {
                if is_kw(&w, &end) {
                    return Ok(());
                }
            },
            _ => {},
        }
        let key = match tok.try_next() {
            Ok(Some(Token::HexString(x))) => match code_key_of(&x) {
                Some(k) => k,
                None => {
                    return Err(CMapError::Malformed);
                },
            },
            _ => {
                return Err(CMapError::Malformed);
            },
        };
        let ghost q1 = tok.position();
        proof {
            lemma_lex_advances(s, q1);
        }
        let val = match tok.try_next() {
            Ok(Some(Token::HexString(x))) => match code_unit_of(&x) {
                Some(u) => match utf16_char_of(u) {
                    Some(c) => c,
                    None => {
                        return Err(CMapError::Malformed);
                    },
                },
                None => {
                    return Err(CMapError::Malformed);
                },
            },
            _ => {
                return Err(CMapError::Malformed);
            },
        };
        cmap.insert(key, val);
    }
}

/// Codes below `lo` keep what they mapped to before a range is added.
proof fn lemma_range_insert_keeps(m: Map<usize, char>, lo: int, hi: int, d: int, m2: Map<usize, char>, key: usize)
    requires
        0 <= lo,
        hi < usize::MAX,
        (key as int) < lo,
        range_insert(m, lo, hi, d) == Some(m2),
    ensures
        m2.contains_key(key) == m.contains_key(key),
        m.contains_key(key) ==> m2[key] == m[key],
    decreases hi + 1 - lo,
{
    if lo <= hi {
        let c = utf16_char(d).unwrap();
        lemma_range_insert_keeps(m.insert(lo as usize, c), lo + 1, hi, d + 1, m2, key);
    }
}

/// A range of codes `lo..=hi` added with destination `d` maps each code
/// `lo + k` to the character of code point `d + k`: consecutive codes get
/// consecutive characters.
pub proof fn law_range_maps_consecutive_chars(m: Map<usize, char>, lo: int, hi: int, d: int, m2: Map<usize, char>)
    requires
        0 <= lo,
        hi < usize::MAX,
        range_insert(m, lo, hi, d) == Some(m2),
    ensures
        forall|k: int|
            0 <= k <= hi - lo ==> #[trigger] m2.contains_key((lo + k) as usize) && m2[(lo + k) as usize] as int
                == d + k,
    decreases hi + 1 - lo,
{
    if lo <= hi {
        let c = utf16_char(d).unwrap();
        let m1 = m.insert(lo as usize, c);
        assert(range_insert(m1, lo + 1, hi, d + 1) == Some(m2));
        law_range_maps_consecutive_chars(m1, lo + 1, hi, d + 1, m2);
        lemma_range_insert_keeps(m1, lo + 1, hi, d + 1, m2, lo as usize);
        assert(c as int == d);
        assert forall|k: int| 0 <= k <= hi - lo implies #[trigger] m2.contains_key((lo + k) as usize)
            && m2[(lo + k) as usize] as int == d + k by {
            if k > 0 {
                let k1 = k - 1;
                assert(((lo + 1) + k1) == lo + k);
                assert(m2.contains_key(((lo + 1) + k1) as usize));
            } else {
                assert((lo + k) as usize == lo as usize);
            }
        }
    }
}

/// Maps the codes `lo..=hi` to consecutive code units from `d`.
fn insert_range(cmap: &mut HashMap<usize, char>, lo: usize, hi: usize, d: u16) -> (r: Result<(), CMapError>)
    requires
        hi <= 0xFFFF,
    ensures
        match range_insert(old(cmap)@, lo as int, hi as int, d as int) {
            Some(m) => r is Ok && final(cmap)@ == m,
            None => r is Err,
        },
{
    let ghost m0 = cmap@;
    let mut idx = lo;
    let mut dst = d;
    while idx < hi + 1
        invariant
            lo <= idx || hi + 1 <= lo,
            hi < usize::MAX,
            m0 == old(cmap)@,
            range_insert(m0, lo as int, hi as int, d as int) == range_insert(
                cmap@,
                idx as int,
                hi as int,
                dst as int,
            ),
        decreases hi + 1 - idx,
    {
        let c = match utf16_char_of(dst) {
            Some(c) => c,
            None => {
                return Err(CMapError::Malformed);
            },
        };
        cmap.insert(idx, c);
        if dst == 0xFFFF {
            return Err(CMapError::Malformed);
        }
        dst = dst + 1;
        idx = idx + 1;
    }
    Ok(())
}

/// Reads the code units of an array, up to `]` (see [`array_codes`]).
fn read_code_array(tok: &mut Tokenizer, cmap: &mut HashMap<usize, char>, base: usize) -> (r: Result<(), CMapError>)
    requires
        old(tok).wf(),
    ensures
        final(tok).wf(),
        final(tok).input() == old(tok).input(),
        match array_codes(old(tok).input(), old(tok).position(), base, 0, old(cmap)@) {
            Some((m, q)) => r is Ok && final(cmap)@ == m && final(tok).position() == q,
            None => r is Err,
        },
{
    let ghost s = tok.input();
    let ghost p0 = tok.position();
    let ghost m0 = cmap@;
    let mut idx: usize = 0;
    loop
        invariant
            tok.wf(),
            tok.input() == s,
            s == old(tok).input(),
            p0 == old(tok).position(),
            m0 == old(cmap)@,
            idx <= tok.position(),
            array_codes(s, p0, base, 0, m0) == array_codes(s, tok.position(), base, idx as int, cmap@),
        decreases s.len() - tok.position(),
    {
        let ghost p = tok.position();
        proof {
            lemma_lex_advances(s, p);
        }
        match tok.try_next() {
            Ok(Some(Token::ArrayEnd)) => {
                return Ok(());
            },
            Ok(Some(Token::HexString(x))) => {
                let c = match code_unit_of(&x) {
                    Some(u) => match utf16_char_of(u) {
                        Some(c) => c,
                        None => {
                            return Err(CMapError::Malformed);
                        },
                    },
                    None => {
                        return Err(CMapError::Malformed);
                    },
                };
                let key = match base.checked_add(idx) {
                    Some(k) => k,
                    None => {
                        return Err(CMapError::Malformed);
                    },
                };
                cmap.insert(key, c);
                idx = idx + 1;
            },
            _ => {
                return Err(CMapError::Malformed);
            },
        }
    }
}

/// Reads a `beginbfrange` section (see [`bfrange_entries`]).
fn read_bfrange(tok: &mut Tokenizer, cmap: &mut HashMap<usize, char>) -> (r: Result<(), CMapError>)
    requires
        old(tok).wf(),
    ensures
        final(tok).wf(),
        final(tok).input() == old(tok).input(),
        match bfrange_entries(old(tok).input(), old(tok).position(), old(cmap)@) {
            Some((m, q)) => r is Ok && final(cmap)@ == m && final(tok).position() == q,
            None => r is Err,
        },
{
    let ghost s = tok.input();
    let ghost p0 = tok.position();
    let ghost m0 = cmap@;
    let end: [u8; 10] = [101, 110, 100, 98, 102, 114, 97, 110, 103, 101];
    assert(end@ =~= kw_endbfrange());
    loop
        invariant
            tok.wf(),
            tok.input() == s,
            s == old(tok).input(),
            p0 == old(tok).position(),
            m0 == old(cmap)@,
            end@ == kw_endbfrange(),
            bfrange_entries(s, p0, m0) == bfrange_entries(s, tok.position(), cmap@),
        decreases s.len() - tok.position(),
    {
        let ghost p = tok.position();
        proof {
            lemma_lex_advances(s, p);
        }
        match tok.try_peek() {
            Ok(Some(Token::String(w))) => {
                if is_kw(&w, &end) {
                    return Ok(());
                }
            },
            _ => {},
        }
        let lo = match tok.try_next() {
            Ok(Some(Token::HexString(x))) => match code_key_of(&x) {
                Some(k) => k,
                None => {
                    return Err(CMapError::Malformed);
                },
            },
            _ => {
                return Err(CMapError::Malformed);
            },
        };
        let ghost q1 = tok.position();
        proof {
            lemma_lex_advances(s, q1);
        }
        let hi = match tok.try_next() {
            Ok(Some(Token::HexString(x))) => match code_key_of(&x) {
                Some(k) => k,
                None => {
                    return Err(CMapError::Malformed);
                },
            },
            _ => {
                return Err(CMapError::Malformed);
            },
        };
        let ghost q2 = tok.position();
        proof {
            lemma_lex_advances(s, q2);
        }
        match tok.try_next() {
            Ok(Some(Token::HexString(y))) => {
                let d = match code_unit_of(&y) {
                    Some(d) => d,
                    None => {
                        return Err(CMapError::Malformed);
                    },
                };
                insert_range(cmap, lo, hi, d)?;
            },
            Ok(Some(Token::ArrayBegin)) => {
                let ghost q3 = tok.position();
                proof {
                    lemma_array_codes_advances(s, q3, lo, 0, cmap@);
                }
                read_code_array(tok, cmap, lo)?;
            },
            _ => {
                return Err(CMapError::Malformed);
            },
        }
    }
}

impl ToUnicodeCMap {
    /// Reads a CMap from its text, which must have the shape that is read
    /// (see [`cmap_of`]).
    pub fn from(value: String) -> (r: ToUnicodeCMap)
        requires
            cmap_of(vstd::utf8::encode_utf8(value@)) is Some,
        ensures
            ({
                let (b, e, m) = cmap_of(vstd::utf8::encode_utf8(value@)).unwrap();
                &&& r.begin_code_space_range@ == b
                &&& r.end_code_space_range@ == e
                &&& r.is_two_bytes == (b.len() == 2)
                &&& r.cmap@ == m
            }),
    {
        match ToUnicodeCMap::try_from(value) {
            Ok(c) => c,
            Err(_) => unreached(),
        }
    }

    /// Reads a CMap from its text, or says that it does not have the shape
    /// that is read (see [`cmap_of`]).
    pub fn try_from(value: String) -> (r: Result<ToUnicodeCMap, CMapError>)
        ensures
            match cmap_of(vstd::utf8::encode_utf8(value@)) {
                Some((b, e, m)) => r is Ok && r.unwrap().begin_code_space_range@ == b
                    && r.unwrap().end_code_space_range@ == e && r.unwrap().is_two_bytes == (b.len()
                    == 2) && r.unwrap().cmap@ == m,
                None => r is Err,
            },
    {
        let bytes = value.as_str().as_bytes();
        let ghost s = bytes@;
        let mut tokenizer = Tokenizer::new(bytes, 0);
        if !skip_to_codespace(&mut tokenizer) {
            return Err(CMapError::Malformed);
        }
        let begin_code_space_range = match tokenizer.try_next() {
            Ok(Some(Token::HexString(v))) => v,
            _ => {
                return Err(CMapError::Malformed);
            },
        };
        let end_code_space_range = match tokenizer.try_next() {
            Ok(Some(Token::HexString(v))) => v,
            _ => {
                return Err(CMapError::Malformed);
            },
        };
        let is_two_bytes = if begin_code_space_range.len() == 1 {
            false
        } else if begin_code_space_range.len() == 2 {
            true
        } else {
            return Err(CMapError::Malformed);
        };
        let mut cmap: HashMap<usize, char> = HashMap::new();
        let bfchar: [u8; 11] = [98, 101, 103, 105, 110, 98, 102, 99, 104, 97, 114];
        let bfrange: [u8; 12] = [98, 101, 103, 105, 110, 98, 102, 114, 97, 110, 103, 101];
        assert(bfchar@ =~= kw_beginbfchar());
        assert(bfrange@ =~= kw_beginbfrange());
        let ghost p0 = tokenizer.position();
        assert(s == vstd::utf8::encode_utf8(value@));
        assert(cmap_of(s) == match cmap_sections(s, p0, Map::empty()) {
            Some(m) => Some((begin_code_space_range@, end_code_space_range@, m)),
            None => None,
        });
        loop
            invariant
                tokenizer.wf(),
                tokenizer.input() == s,
                s == vstd::utf8::encode_utf8(value@),
                is_two_bytes == (begin_code_space_range@.len() == 2),
                cmap_of(s) == match cmap_sections(s, p0, Map::empty()) {
                    Some(m) => Some((begin_code_space_range@, end_code_space_range@, m)),
                    None => None,
                },
                bfchar@ == kw_beginbfchar(),
                bfrange@ == kw_beginbfrange(),
                cmap_sections(s, p0, Map::empty()) == cmap_sections(s, tokenizer.position(), cmap@),
            decreases s.len() - tokenizer.position(),
        {
            let ghost p = tokenizer.position();
            proof {
                lemma_lex_advances(s, p);
            }
            match tokenizer.try_next() {
                Ok(Some(Token::String(w))) => {
                    let ghost q = tokenizer.position();
                    if is_kw(&w, &bfchar) {
                        proof {
                            lemma_bfchar_advances(s, q, cmap@);
                        }
                        read_bfchar(&mut tokenizer, &mut cmap)?;
                    } else if is_kw(&w, &bfrange) {
                        proof {
                            lemma_bfrange_advances(s, q, cmap@);
                        }
                        read_bfrange(&mut tokenizer, &mut cmap)?;
                    }
                },
                Ok(Some(_)) => {},
                Ok(None) => {
                    return Ok(
                        ToUnicodeCMap {
                            begin_code_space_range,
                            end_code_space_range,
                            is_two_bytes,
                            cmap,
                        },
                    );
                },
                Err(_) => {
                    return Err(CMapError::Malformed);
                },
            }
        }
    }
}

} // verus!
