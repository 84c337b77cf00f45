use vstd::prelude::*;

use crate::algebra::{Number, NumberV};
use crate::filters::{decode_buffer, flate_decode, zlib_read};
use crate::lemmatizer::Lemmatizer;
use crate::object::{
    lemma_array_view, parse_object, IndirectObject, Object, ObjectV, Stream,
};
use crate::lemmatizer::lem;
use crate::tokenizer::{
    all_digits, digits_value, is_digit, is_regular, kw_endobj, kw_endstream, kw_obj, kw_stream,
    lemma_lex_regular_run, lemma_lex_skips_whitespace, numeric_shape, parse_i32, regular_token, DOT,
    MINUS, bytes_eq, is_keyword_r, kw_r, lex, Lexed, Token, TokenV, Tokenizer,
};

verus! {

/// The cross-reference data could not be read or used.
#[derive(Debug, PartialEq)]
pub enum XRefError {
    /// The entry of the object marks it as free.
    FreedObject,
    /// The object header was found neither at its recorded offset nor
    /// anywhere else in the file.
    ObjectNotFound,
    /// The bytes do not hold the cross-reference data that was expected.
    Malformed,
}

// ---------------------------------------------------------------------------
// Decimal text and byte patterns
// ---------------------------------------------------------------------------

/// Decimal digits of `n`, without leading zeros.
pub open spec fn nat_digits(n: nat) -> Seq<u8>
    decreases n,
{
    if n < 10 {
        seq![(48 + n) as u8]
    } else {
        nat_digits(n / 10).push((48 + n % 10) as u8)
    }
}

/// `n` as `{}` formats it.
pub open spec fn i32_text(n: i32) -> Seq<u8> {
    if n < 0 {
        seq![45u8] + nat_digits((-n) as nat)
    } else {
        nat_digits(n as nat)
    }
}

/// Header of an indirect object: `obj gen obj`.
pub open spec fn object_header(key: IndirectObject) -> Seq<u8> {
    i32_text(key.0) + seq![32u8] + i32_text(key.1) + seq![32u8, 111, 98, 106]
}

/// `pat` occurs in `s` at position `i`.
pub open spec fn matches_at(s: Seq<u8>, pat: Seq<u8>, i: int) -> bool {
    0 <= i && i + pat.len() <= s.len() && s.subrange(i, i + pat.len()) == pat
}

/// First position at or after `i` where `pat` occurs in `s`.
pub open spec fn first_match(s: Seq<u8>, pat: Seq<u8>, i: int) -> Option<int>
    decreases s.len() + 1 - i,
{
    if i < 0 || i + pat.len() > s.len() {
        None
    } else if matches_at(s, pat, i) {
        Some(i)
    } else {
        first_match(s, pat, i + 1)
    }
}

pub proof fn lemma_first_match(s: Seq<u8>, pat: Seq<u8>, i: int)
    requires
        0 <= i,
    ensures
        first_match(s, pat, i) matches Some(k) ==> i <= k && matches_at(s, pat, k),
        first_match(s, pat, i) matches Some(k) ==> forall|j: int|
            i <= j < k ==> !matches_at(s, pat, j),
        first_match(s, pat, i) is None ==> forall|j: int| i <= j ==> !matches_at(s, pat, j),
    decreases s.len() + 1 - i,
{
    if i + pat.len() <= s.len() && !matches_at(s, pat, i) {
        lemma_first_match(s, pat, i + 1);
    }
}

fn digits_of(n: u32) -> (r: Vec<u8>)
    ensures
        r@ == nat_digits(n as nat),
    decreases n,
{
    if n < 10 {
        let mut v: Vec<u8> = Vec::new();
        v.push((48 + n) as u8);
        assert(v@ =~= nat_digits(n as nat));
        v
    } else {
        let mut v = digits_of(n / 10);
        v.push((48 + n % 10) as u8);
        v
    }
}

/// `n` as `{}` formats it.
pub fn i32_to_text(n: i32) -> (r: Vec<u8>)
    ensures
        r@ == i32_text(n),
{
    if n < 0 {
        let m: u32 = if n == i32::MIN {
            0x8000_0000u32
        } else {
            (-n) as u32
        };
        let d = digits_of(m);
        let mut v: Vec<u8> = Vec::new();
        v.push(45);
        let mut i: usize = 0;
        while i < d.len()
            invariant
                i <= d@.len(),
                v@ == seq![45u8] + d@.subrange(0, i as int),
            decreases d@.len() - i,
        {
            v.push(d[i]);
            assert(v@ =~= seq![45u8] + d@.subrange(0, i + 1));
            i = i + 1;
        }
        assert(d@.subrange(0, d@.len() as int) =~= d@);
        v
    } else {
        digits_of(n as u32)
    }
}

fn append(v: &mut Vec<u8>, w: &[u8])
    ensures
        final(v)@ == old(v)@ + w@,
{
    let ghost v0 = v@;
    let mut i: usize = 0;
    while i < w.len()
        invariant
            i <= w@.len(),
            v@ == v0 + w@.subrange(0, i as int),
            v0 == old(v)@,
        decreases w@.len() - i,
    {
        v.push(w[i]);
        assert(v@ =~= v0 + w@.subrange(0, i + 1));
        i = i + 1;
    }
    assert(w@.subrange(0, w@.len() as int) =~= w@);
}

/// The header `obj gen obj` of the indirect object `key`.
pub fn object_header_bytes(key: &IndirectObject) -> (r: Vec<u8>)
    ensures
        r@ == object_header(*key),
{
    let mut v = i32_to_text(key.0);
    v.push(32);
    let g = i32_to_text(key.1);
    append(&mut v, g.as_slice());
    let tail: [u8; 4] = [32, 111, 98, 106];
    append(&mut v, &tail);
    assert(v@ =~= object_header(*key));
    v
}

/// `pat` occurs in `s` at position `i`.
pub fn match_at(s: &[u8], pat: &[u8], i: usize) -> (r: bool)
    ensures
        r == matches_at(s@, pat@, i as int),
{
    let n = s.len();
    if i > s.len() || pat.len() > s.len() - i {
        return false;
    }
    let mut j: usize = 0;
    while j < pat.len()
        invariant
            n == s@.len(),
            i + pat@.len() <= s@.len(),
            j <= pat@.len(),
            forall|k: int| 0 <= k < j ==> s@[i + k] == pat@[k],
        decreases pat@.len() - j,
    {
        if s[i + j] != pat[j] {
            assert(s@.subrange(i as int, i + pat@.len())[j as int] != pat@[j as int]);
            return false;
        }
        j = j + 1;
    }
    assert(s@.subrange(i as int, i + pat@.len()) =~= pat@);
    true
}

/// First position at or after `from` where `pat` occurs in `s`.
pub fn find_from(s: &[u8], pat: &[u8], from: usize) -> (r: Option<usize>)
    ensures
        r matches Some(k) ==> first_match(s@, pat@, from as int) == Some(k as int),
        r is None ==> first_match(s@, pat@, from as int) is None,
{
    let mut i = from;
    loop
        invariant
            from <= i,
            first_match(s@, pat@, from as int) == first_match(s@, pat@, i as int),
        decreases s@.len() + 1 - i,
    {
        if i > s.len() || pat.len() > s.len() - i {
            return None;
        }
        if match_at(s, pat, i) {
            return Some(i);
        }
        if pat.len() == 0 {
            assert(s@.subrange(i as int, i as int) =~= pat@);
            return None;
        }
        i = i + 1;
    }
}

// ---------------------------------------------------------------------------
// Cross-reference table
// ---------------------------------------------------------------------------

/// Entries of a cross-reference table: for each object, its byte offset and
/// whether it is in use.
#[derive(Debug)]
pub struct XRefTable {
    entries: Vec<(IndirectObject, (usize, bool))>,
}

pub open spec fn table_view(es: Seq<(IndirectObject, (usize, bool))>) -> Map<
    IndirectObject,
    (usize, bool),
>
    decreases es.len(),
{
    if es.len() == 0 {
        Map::empty()
    } else {
        table_view(es.drop_last()).insert(es.last().0, es.last().1)
    }
}

pub open spec fn distinct_keys(es: Seq<(IndirectObject, (usize, bool))>) -> bool {
    forall|i: int, j: int| 0 <= i < j < es.len() ==> #[trigger] es[i].0 != #[trigger] es[j].0
}

proof fn lemma_table_view(es: Seq<(IndirectObject, (usize, bool))>)
    requires
        distinct_keys(es),
    ensures
        table_view(es).dom().finite(),
        table_view(es).len() == es.len(),
        forall|i: int|
            0 <= i < es.len() ==> table_view(es).contains_key(#[trigger] es[i].0)
                && table_view(es)[es[i].0] == es[i].1,
        forall|k: IndirectObject|
            table_view(es).contains_key(k) ==> exists|i: int|
                0 <= i < es.len() && #[trigger] es[i].0 == k,
    decreases es.len(),
{
    if es.len() > 0 {
        let pre = es.drop_last();
        assert forall|i: int, j: int| 0 <= i < j < pre.len() implies #[trigger] pre[i].0
            != #[trigger] pre[j].0 by {
            assert(pre[i] == es[i] && pre[j] == es[j]);
        }
        lemma_table_view(pre);
        assert(!table_view(pre).contains_key(es.last().0)) by {
            if table_view(pre).contains_key(es.last().0) {
                let i = choose|i: int| 0 <= i < pre.len() && #[trigger] pre[i].0 == es.last().0;
                assert(es[i].0 == es[es.len() - 1].0);
            }
        }
        assert forall|i: int| 0 <= i < es.len() implies table_view(es).contains_key(
            #[trigger] es[i].0,
        ) && table_view(es)[es[i].0] == es[i].1 by {
            if i < es.len() - 1 {
                assert(pre[i] == es[i]);
            }
        }
        assert forall|k: IndirectObject| table_view(es).contains_key(k) implies exists|i: int|
            0 <= i < es.len() && #[trigger] es[i].0 == k by {
            if k != es.last().0 {
                let i = choose|i: int| 0 <= i < pre.len() && #[trigger] pre[i].0 == k;
                assert(es[i] == pre[i]);
            } else {
                assert(es[es.len() - 1].0 == k);
            }
        }
    }
}

impl View for XRefTable {
    type V = Map<IndirectObject, (usize, bool)>;

    closed spec fn view(&self) -> Map<IndirectObject, (usize, bool)> {
        table_view(self.entries@)
    }
}

impl XRefTable {
    #[verifier::type_invariant]
    spec fn inv(self) -> bool {
        distinct_keys(self.entries@)
    }

    pub fn new() -> (r: XRefTable)
        ensures
            r@ == Map::<IndirectObject, (usize, bool)>::empty(),
    {
        XRefTable { entries: Vec::new() }
    }
}

impl Default for XRefTable {
    /// An empty table.
    fn default() -> (r: XRefTable)
        ensures
            r@ == Map::<IndirectObject, (usize, bool)>::empty(),
    {
        XRefTable::new()
    }
}

impl XRefTable {
    /// Records the entry of `key`, replacing the one it had.
    pub fn insert(&mut self, key: IndirectObject, value: (usize, bool))
        ensures
            final(self)@ == old(self)@.insert(key, value),
    {
        proof {
            use_type_invariant(&*self);
        }
        let mut entries: Vec<(IndirectObject, (usize, bool))> = Vec::new();
        std::mem::swap(&mut entries, &mut self.entries);
        let ghost es = entries@;
        match position_of(&entries, &key) {
            Some(i) => {
                entries.set(i, (key, value));
                proof {
                    assert forall|x: int| 0 <= x < es.len() implies #[trigger] entries@[x].0 == es[x].0 by {}
                    assert forall|a: int, b: int| 0 <= a < b < entries@.len() implies #[trigger] entries@[a].0
                        != #[trigger] entries@[b].0 by {
                        assert(entries@[a].0 == es[a].0 && entries@[b].0 == es[b].0);
                    }
                    lemma_table_view(es);
                    lemma_table_view(entries@);
                    assert forall|k: IndirectObject| table_view(entries@).contains_key(k)
                        implies table_view(es).insert(key, value).contains_key(k) by {
                        let j = choose|j: int| 0 <= j < entries@.len() && #[trigger] entries@[j].0 == k;
                        assert(entries@[j].0 == es[j].0);
                    }
                    assert forall|k: IndirectObject| table_view(es).insert(key, value).contains_key(k)
                        implies table_view(entries@).contains_key(k) && table_view(entries@)[k]
                        == table_view(es).insert(key, value)[k] by {
                        if k == key {
                            assert(entries@[i as int].0 == key);
                        } else {
                            let j = choose|j: int| 0 <= j < es.len() && #[trigger] es[j].0 == k;
                            assert(entries@[j].0 == es[j].0);
                            assert(entries@[j] == es[j]);
                        }
                    }
                    assert forall|k: IndirectObject| #[trigger] table_view(entries@).dom().contains(k)
                        <==> table_view(es).insert(key, value).dom().contains(k) by {
                        if table_view(entries@).contains_key(k) {
                            assert(table_view(es).insert(key, value).contains_key(k));
                        }
                        if table_view(es).insert(key, value).contains_key(k) {
                            if k == key {
                                assert(entries@[i as int].0 == key);
                            } else {
                                let j = choose|j: int| 0 <= j < es.len() && #[trigger] es[j].0 == k;
                                assert(entries@[j].0 == es[j].0);
                            }
                            assert(table_view(entries@).contains_key(k));
                        }
                    }
                    assert(table_view(entries@).dom() =~= table_view(es).insert(key, value).dom());
                    assert(table_view(entries@) =~= table_view(es).insert(key, value));
                }
            },
            None => {
                entries.push((key, value));
                proof {
                    assert(entries@.drop_last() =~= es);
                    assert forall|a: int, b: int| 0 <= a < b < entries@.len() implies #[trigger] entries@[a].0
                        != #[trigger] entries@[b].0 by {
                        if b < es.len() {
                            assert(es[a] == entries@[a] && es[b] == entries@[b]);
                        } else {
                            assert(es[a] == entries@[a]);
                        }
                    }
                }
            },
        }
        self.entries = entries;
    }

    /// Byte offset of the object `key`, whose entry, where it has one, must
    /// mark it as in use.
    pub fn get(&self, key: &IndirectObject) -> (r: Option<&usize>)
        requires
            self@.contains_key(*key) ==> self@[*key].1,
        ensures
            !self@.contains_key(*key) ==> r is None,
            self@.contains_key(*key) ==> r == Some(&self@[*key].0),
    {
        match self.try_get(key) {
            Ok(o) => o,
            Err(_) => unreached(),
        }
    }

    /// Byte offset of the object `key`. An entry that marks the object as
    /// free is refused.
    pub fn try_get(&self, key: &IndirectObject) -> (r: Result<Option<&usize>, XRefError>)
        ensures
            !self@.contains_key(*key) ==> r == Ok::<Option<&usize>, XRefError>(None),
            self@.contains_key(*key) && self@[*key].1 ==> r == Ok::<Option<&usize>, XRefError>(
                Some(&self@[*key].0),
            ),
            self@.contains_key(*key) && !self@[*key].1 ==> r == Err::<Option<&usize>, XRefError>(
                XRefError::FreedObject,
            ),
    {
        proof {
            use_type_invariant(self);
            lemma_table_view(self.entries@);
        }
        match position_of(&self.entries, key) {
            Some(i) => {
                let e = &self.entries[i];
                if e.1.1 {
                    Ok(Some(&e.1.0))
                } else {
                    Err(XRefError::FreedObject)
                }
            },
            None => {
                assert(!self@.contains_key(*key)) by {
                    if self@.contains_key(*key) {
                        let j = choose|j: int| 0 <= j < self.entries@.len() && #[trigger] self.entries@[j].0 == *key;
                    }
                }
                Ok(None)
            },
        }
    }

    /// Offset of the object `key`, checked against the file (see
    /// [`fixed_offset`]): its entry, where it has one, must mark it as in use,
    /// hold an offset inside the file, and its header must be found.
    pub fn get_and_fix(&self, key: &IndirectObject, bytes: &[u8]) -> (r: Option<usize>)
        requires
            fixed_offset(self@, *key, bytes@) is Ok,
        ensures
            Ok::<Option<usize>, XRefError>(r) == fixed_offset(self@, *key, bytes@),
    {
        match self.try_get_and_fix(key, bytes) {
            Ok(o) => o,
            Err(_) => unreached(),
        }
    }

    /// Offset of the object `key`, checked against the file: where the
    /// recorded offset does not start with the object's header, the header is
    /// looked for (after a line feed) from the start of the file.
    pub fn try_get_and_fix(&self, key: &IndirectObject, bytes: &[u8]) -> (r: Result<Option<usize>, XRefError>)
        ensures
            r == fixed_offset(self@, *key, bytes@),
    {
        match self.try_get(key) {
            Err(e) => Err(e),
            Ok(None) => Ok(None),
            Ok(Some(offset)) => {
                let offset = *offset;
                let pattern = object_header_bytes(key);
                if offset > bytes.len() {
                    return Err(XRefError::ObjectNotFound);
                }
                if match_at(bytes, pattern.as_slice(), offset) {
                    Ok(Some(offset))
                } else {
                    let mut nl: Vec<u8> = Vec::new();
                    nl.push(10);
                    append(&mut nl, pattern.as_slice());
                    proof {
                        lemma_first_match(bytes@, nl@, 0);
                    }
                    match find_from(bytes, nl.as_slice(), 0) {
                        Some(k) => Ok(Some(k + 1)),
                        None => Err(XRefError::ObjectNotFound),
                    }
                }
            },
        }
    }

    /// Number of objects with an entry.
    pub fn len(&self) -> (r: usize)
        ensures
            r == self@.len(),
    {
        proof {
            use_type_invariant(self);
            lemma_table_view(self.entries@);
        }
        self.entries.len()
    }

    pub fn is_empty(&self) -> (r: bool)
        ensures
            r == (self@.len() == 0),
    {
        proof {
            use_type_invariant(self);
            lemma_table_view(self.entries@);
        }
        self.entries.len() == 0
    }
}

fn position_of(es: &Vec<(IndirectObject, (usize, bool))>, key: &IndirectObject) -> (r: Option<usize>)
    ensures
        r matches Some(i) ==> i < es@.len() && es@[i as int].0 == *key,
        r is None ==> forall|j: int| 0 <= j < es@.len() ==> #[trigger] es@[j].0 != *key,
{
    let n = es.len();
    let mut i: usize = 0;
    while i < n
        invariant
            n == es@.len(),
            i <= n,
            forall|j: int| 0 <= j < i ==> #[trigger] es@[j].0 != *key,
        decreases n - i,
    {
        if es[i].0.0 == key.0 && es[i].0.1 == key.1 {
            return Some(i);
        }
        i = i + 1;
    }
    None
}

proof fn lemma_nat_digits(n: nat)
    ensures
        nat_digits(n).len() >= 1,
        all_digits(nat_digits(n)),
        digits_value(nat_digits(n)) == n,
        is_digit(nat_digits(n)[0]),
    decreases n,
{
    if n < 10 {
        let d = nat_digits(n);
        assert(d.drop_last() =~= Seq::<u8>::empty());
        assert(is_digit(d[0]));
        assert(all_digits(d));
        assert(digits_value(d) == digits_value(d.drop_last()) * 10 + (d.last() - 48) as nat);
    } else {
        lemma_nat_digits(n / 10);
        let d = nat_digits(n);
        assert(d.drop_last() =~= nat_digits(n / 10));
        assert(d[0] == nat_digits(n / 10)[0]);
        assert((n / 10) * 10 + n % 10 == n) by (nonlinear_arith);
        assert(d.last() == (48 + n % 10) as u8);
        assert((d.last() - 48) as nat == n % 10);
        assert(digits_value(d) == digits_value(d.drop_last()) * 10 + (d.last() - 48) as nat);
        assert(digits_value(d) == (n / 10) * 10 + n % 10);
        assert forall|i: int| 0 <= i < d.len() implies is_digit(#[trigger] d[i]) by {
            if i < d.len() - 1 {
                assert(d[i] == nat_digits(n / 10)[i]);
            }
        }
    }
}

/// The decimal text written for a number (as in an object header) reads
/// back as that number.
pub proof fn law_i32_text_read_back(n: i32)
    ensures
        parse_i32(i32_text(n)) == Some(n),
{
    if n < 0 {
        let m = (-n) as nat;
        lemma_nat_digits(m);
        let w = i32_text(n);
        assert(w.subrange(1, w.len() as int) =~= nat_digits(m));
        assert(w[0] == MINUS);
    } else {
        lemma_nat_digits(n as nat);
    }
}

/// The decimal text of a number is a run of regular characters that is
/// read as that number.
proof fn lemma_i32_text_token(n: i32)
    ensures
        i32_text(n).len() >= 1,
        forall|i: int| 0 <= i < i32_text(n).len() ==> is_regular(#[trigger] i32_text(n)[i]),
        regular_token(i32_text(n)) == Some(TokenV::Numeric(NumberV::Integer(n))),
{
    law_i32_text_read_back(n);
    let t = i32_text(n);
    if n < 0 {
        let d = nat_digits((-n) as nat);
        lemma_nat_digits((-n) as nat);
        assert forall|i: int| 0 <= i < t.len() implies is_regular(#[trigger] t[i]) by {
            if i > 0 {
                assert(t[i] == d[i - 1]);
                assert(is_digit(d[i - 1]));
            }
        }
        assert forall|i: int| 1 <= i < t.len() implies is_digit(#[trigger] t[i]) || t[i] == DOT by {
            assert(t[i] == d[i - 1]);
            assert(is_digit(d[i - 1]));
        }
    } else {
        lemma_nat_digits(n as nat);
        assert forall|i: int| 0 <= i < t.len() implies is_regular(#[trigger] t[i]) by {
            assert(is_digit(t[i]));
        }
        assert forall|i: int| 1 <= i < t.len() implies is_digit(#[trigger] t[i]) || t[i] == DOT by {
            assert(is_digit(t[i]));
        }
    }
    assert(numeric_shape(t));
}

/// The decimal text of `n` at `p`, followed by a space, is read as `n`.
proof fn lemma_number_at(s: Seq<u8>, p: int, n: i32)
    requires
        0 <= p,
        p + i32_text(n).len() < s.len(),
        s.subrange(p, p + i32_text(n).len()) == i32_text(n),
        s[p + i32_text(n).len()] == 32u8,
    ensures
        lex(s, p) == Lexed::Tok(TokenV::Numeric(NumberV::Integer(n)), p + i32_text(n).len()),
{
    let t = i32_text(n);
    lemma_i32_text_token(n);
    assert forall|i: int| p <= i < p + t.len() implies is_regular(#[trigger] s[i]) by {
        assert(s.subrange(p, p + t.len())[i - p] == s[i]);
    }
    lemma_lex_regular_run(s, p, p + t.len());
}

/// The keyword `obj` at `q`, followed by a byte that is not regular or by the
/// end, is read as that string.
proof fn lemma_obj_at(s: Seq<u8>, q: int)
    requires
        0 <= q,
        q + 3 <= s.len(),
        s.subrange(q, q + 3) == kw_obj(),
        q + 3 == s.len() || !is_regular(s[q + 3]),
    ensures
        lex(s, q) == Lexed::Tok(TokenV::String(kw_obj()), q + 3),
{
    let w = s.subrange(q, q + 3);
    assert forall|i: int| q <= i < q + 3 implies is_regular(#[trigger] s[i]) by {
        assert(w[i - q] == s[i]);
    }
    assert(!numeric_shape(w)) by {
        assert(!is_digit(w[1]) && w[1] != DOT);
    }
    assert(w.len() != kw_stream().len());
    assert(w.len() != kw_endstream().len());
    assert(w.len() != kw_endobj().len());
    lemma_lex_regular_run(s, q, q + 3);
}

/// The bytes of an object header, followed by a byte that is not a regular
/// character or by the end, open an object for the lemmatizer, and the
/// object read there is the one that follows the header.
pub proof fn law_object_header_opens_object(s: Seq<u8>, p: int, key: IndirectObject)
    requires
        0 <= p,
        p + object_header(key).len() <= s.len(),
        s.subrange(p, p + object_header(key).len()) == object_header(key),
        p + object_header(key).len() == s.len() || !is_regular(s[p + object_header(key).len()]),
    ensures
        lem(s, p) == Lexed::Tok(TokenV::ObjBegin, p + object_header(key).len()),
        parse_object(s, p) == parse_object(s, p + object_header(key).len()),
{
    let h = object_header(key);
    let ta = i32_text(key.0);
    let tb = i32_text(key.1);
    let la = ta.len() as int;
    let lb = tb.len() as int;
    let lh = h.len() as int;
    let p1 = p + la;
    let p2 = p1 + 1 + lb;
    let p3 = p + lh;
    let sh = s.subrange(p, p3);
    assert(lh == la + 1 + lb + 4);
    assert(h.subrange(0, la) =~= ta);
    assert(h.subrange(la + 1, la + 1 + lb) =~= tb);
    assert(h.subrange(la + 2 + lb, lh) =~= kw_obj());
    assert(s.subrange(p, p1) =~= sh.subrange(0, la));
    assert(s.subrange(p1 + 1, p2) =~= sh.subrange(la + 1, la + 1 + lb));
    assert(s.subrange(p2 + 1, p3) =~= sh.subrange(la + 2 + lb, lh));
    assert(s[p1] == sh[la]);
    assert(h[la] == 32u8);
    assert(s[p2] == sh[p2 - p]);
    assert(h[p2 - p] == 32u8);
    lemma_number_at(s, p, key.0);
    lemma_lex_skips_whitespace(s, p1, p1 + 1);
    lemma_number_at(s, p1 + 1, key.1);
    lemma_lex_skips_whitespace(s, p2, p2 + 1);
    lemma_obj_at(s, p2 + 1);
    assert(kw_obj().len() != kw_r().len());
}

/// The offset that a table gives for an object is one at which the object's
/// header stands.
pub proof fn law_fixed_offset_holds_header(t: Map<IndirectObject, (usize, bool)>, key: IndirectObject, bytes: Seq<u8>)
    requires
        bytes.len() <= usize::MAX,
    ensures
        fixed_offset(t, key, bytes) matches Ok(Some(o)) ==> matches_at(bytes, object_header(key), o as int),
{
    let h = object_header(key);
    let nl = seq![10u8] + h;
    lemma_first_match(bytes, nl, 0);
    if t.contains_key(key) && t[key].1 && t[key].0 <= bytes.len() && !matches_at(bytes, h, t[key].0 as int) {
        match first_match(bytes, nl, 0) {
            Some(k) => {
                assert(matches_at(bytes, nl, k));
                assert(bytes.subrange(k + 1, k + 1 + h.len()) =~= bytes.subrange(k, k + nl.len()).subrange(1, nl.len() as int));
                assert(nl.subrange(1, nl.len() as int) =~= h);
                assert(((k + 1) as usize) as int == k + 1);
            },
            None => {},
        }
    }
}

/// The object read at the offset that a table gives is the one that follows
/// the object's header there (where the header ends the file or is followed
/// by a byte that is not a regular character).
pub proof fn law_fixed_offset_reads_object(t: Map<IndirectObject, (usize, bool)>, key: IndirectObject, bytes: Seq<u8>)
    requires
        bytes.len() <= usize::MAX,
    ensures
        match fixed_offset(t, key, bytes) {
            Ok(Some(o)) => (o + object_header(key).len() == bytes.len() || !is_regular(
                bytes[o + object_header(key).len()],
            )) ==> lem(bytes, o as int) == Lexed::Tok(TokenV::ObjBegin, o + object_header(key).len())
                && parse_object(bytes, o as int) == parse_object(bytes, o + object_header(key).len()),
            _ => true,
        },
{
    law_fixed_offset_holds_header(t, key, bytes);
    match fixed_offset(t, key, bytes) {
        Ok(Some(o)) => {
            let h = object_header(key);
            if o + h.len() == bytes.len() || !is_regular(bytes[o + h.len()]) {
                law_object_header_opens_object(bytes, o as int, key);
            }
        },
        _ => {},
    }
}

/// An entry in use whose offset holds the object's header is taken as it
/// is.
pub proof fn law_recorded_offset_kept(
    t: Map<IndirectObject, (usize, bool)>,
    key: IndirectObject,
    offset: usize,
    bytes: Seq<u8>,
)
    requires
        matches_at(bytes, object_header(key), offset as int),
    ensures
        fixed_offset(t.insert(key, (offset, true)), key, bytes) == Ok::<Option<usize>, XRefError>(Some(offset)),
{
}

/// An entry that marks an object as free is refused, whatever its offset.
pub proof fn law_freed_object_refused(
    t: Map<IndirectObject, (usize, bool)>,
    key: IndirectObject,
    offset: usize,
    bytes: Seq<u8>,
)
    ensures
        fixed_offset(t.insert(key, (offset, false)), key, bytes) == Err::<Option<usize>, XRefError>(
            XRefError::FreedObject,
        ),
{
}

/// Offset of the object `key` according to the table `t`, checked against
/// the file `bytes` (see [`XRefTable::get_and_fix`]).
pub open spec fn fixed_offset(t: Map<IndirectObject, (usize, bool)>, key: IndirectObject, bytes: Seq<u8>) -> Result<Option<usize>, XRefError> {
    if !t.contains_key(key) {
        Ok(None)
    } else if !t[key].1 {
        Err(XRefError::FreedObject)
    } else {
        let offset = t[key].0;
        if offset > bytes.len() {
            Err(XRefError::ObjectNotFound)
        } else if matches_at(bytes, object_header(key), offset as int) {
            Ok(Some(offset))
        } else {
            match first_match(bytes, seq![10u8] + object_header(key), 0) {
                Some(k) => Ok(Some((k + 1) as usize)),
                None => Err(XRefError::ObjectNotFound),
            }
        }
    }
}

} // verus!

verus! {

// ---------------------------------------------------------------------------
// Cross-reference table sections (PDF reference, section 3.4.3)
// ---------------------------------------------------------------------------

/// One line of a cross-reference table: a byte offset (or the next free
/// object number), a generation number and the in-use flag.
#[derive(Debug, PartialEq)]
pub struct XrefEntry {
    pub number: usize,
    pub generation: usize,
    pub in_use: bool,
}

/// The entry that starts at `p`: two integers and a keyword, `n` for an
/// object in use.
pub open spec fn xref_entry_at(s: Seq<u8>, p: int) -> Option<(XrefEntry, int)> {
    match lex(s, p) {
        Lexed::Tok(TokenV::Numeric(NumberV::Integer(n)), q1) => match lex(s, q1) {
            Lexed::Tok(TokenV::Numeric(NumberV::Integer(g)), q2) => match lex(s, q2) {
                Lexed::Tok(TokenV::String(w), q3) => Some(
                    (
                        XrefEntry { number: n as usize, generation: g as usize, in_use: w == seq![110u8] },
                        q3,
                    ),
                ),
                _ => None,
            },
            _ => None,
        },
        _ => None,
    }
}

/// Entries for the objects `idx..end`, read from `p` and added to `acc`.
pub open spec fn subsection_entries(
    s: Seq<u8>,
    p: int,
    idx: int,
    end: int,
    acc: Map<IndirectObject, (usize, bool)>,
) -> Option<Map<IndirectObject, (usize, bool)>>
    decreases end - idx,
{
    if idx >= end {
        Some(acc)
    } else {
        match xref_entry_at(s, p) {
            Some((e, q)) => subsection_entries(
                s,
                q,
                idx + 1,
                end,
                acc.insert((idx as i32, e.generation as i32), (e.number, e.in_use)),
            ),
            None => None,
        }
    }
}

/// A subsection from `p`: the first object number, the number of entries and
/// the entries.
pub open spec fn subsection_at(s: Seq<u8>, p: int) -> Option<Map<IndirectObject, (usize, bool)>> {
    match lex(s, p) {
        Lexed::Tok(TokenV::Numeric(NumberV::Integer(start)), q1) => match lex(s, q1) {
            Lexed::Tok(TokenV::Numeric(NumberV::Integer(size)), q2) => {
                if start + size > i32::MAX || start + size < i32::MIN {
                    None
                } else {
                    subsection_entries(s, q2, start as int, start + size, Map::empty())
                }
            },
            _ => None,
        },
        _ => None,
    }
}

fn integer_token(t: &Option<Token>) -> (r: Option<i32>)
    ensures
        r == (match t {
            Some(Token::Numeric(Number::Integer(n))) => Some(*n),
            _ => None::<i32>,
        }),
{
    match t {
        Some(Token::Numeric(Number::Integer(n))) => Some(*n),
        _ => None,
    }
}

/// A table entry `n g f` gives offset (or next free number) `n`,
/// generation `g`, and is in use exactly when its flag is `n`.
pub proof fn law_xref_entry_fields(s: Seq<u8>, p: int, n: i32, g: i32, w: Seq<u8>, q1: int, q2: int, q3: int)
    requires
        lex(s, p) == Lexed::Tok(TokenV::Numeric(NumberV::Integer(n)), q1),
        lex(s, q1) == Lexed::Tok(TokenV::Numeric(NumberV::Integer(g)), q2),
        lex(s, q2) == Lexed::Tok(TokenV::String(w), q3),
    ensures
        xref_entry_at(s, p) matches Some((e, q)) && q == q3 && e.number == n as usize && e.generation == g as usize
            && (e.in_use <==> w == seq![110u8]),
{
}

/// Bytes are read as a number big end first: each further byte multiplies
/// what is read so far by 256 and adds itself.
pub proof fn law_be_value_big_endian(b: Seq<u8>, x: u8)
    ensures
        be_value(b.push(x)) == be_value(b) * 256 + x,
        be_value(seq![x]) == x,
{
    assert(b.push(x).drop_last() =~= b);
    assert(b.push(x).last() == x);
    assert(seq![x].drop_last() =~= Seq::<u8>::empty());
    assert(be_value(Seq::<u8>::empty()) == 0);
    assert(be_value(seq![x]) == be_value(seq![x].drop_last()) * 256 + seq![x].last() as nat);
}

/// Entries read from object number `idx` on are recorded under object numbers
/// from `idx` up to `end`, and what `acc` held for smaller object numbers is
/// kept.
proof fn lemma_subsection_entries_numbers(
    s: Seq<u8>,
    p: int,
    idx: int,
    end: int,
    acc: Map<IndirectObject, (usize, bool)>,
)
    requires
        i32::MIN <= idx,
        end <= i32::MAX,
    ensures
        match subsection_entries(s, p, idx, end, acc) {
            Some(m) => (forall|key: IndirectObject| #[trigger] m.contains_key(key) ==> acc.contains_key(key)
                || idx <= key.0 < end) && (forall|key: IndirectObject|
                key.0 < idx && #[trigger] acc.contains_key(key) ==> m.contains_key(key) && m[key] == acc[key]),
            None => true,
        },
    decreases end - idx,
{
    if idx < end {
        match xref_entry_at(s, p) {
            Some((e, q)) => {
                let acc2 = acc.insert((idx as i32, e.generation as i32), (e.number, e.in_use));
                lemma_subsection_entries_numbers(s, q, idx + 1, end, acc2);
                assert(subsection_entries(s, p, idx, end, acc) == subsection_entries(s, q, idx + 1, end, acc2));
                let nk = (idx as i32, e.generation as i32);
                assert(nk.0 as int == idx);
                match subsection_entries(s, q, idx + 1, end, acc2) {
                    Some(m) => {
                        assert forall|key: IndirectObject| #[trigger] m.contains_key(key) implies acc.contains_key(key)
                            || idx <= key.0 < end by {
                            if acc2.contains_key(key) && key != nk {
                                assert(acc.contains_key(key));
                            }
                        }
                        assert forall|key: IndirectObject|
                            key.0 < idx && #[trigger] acc.contains_key(key) implies m.contains_key(key) && m[key]
                            == acc[key] by {
                            assert(key != nk);
                            assert(acc2.contains_key(key) && acc2[key] == acc[key]);
                        }
                    },
                    None => {},
                }
            },
            None => {},
        }
    } else {
        assert(subsection_entries(s, p, idx, end, acc) == Some(acc));
    }
}

/// The entries of a subsection headed `start size` are recorded under the
/// object numbers `start` to `start + size - 1`, the first entry under
/// `start` with its own generation number, offset and in-use flag.
pub proof fn law_subsection_numbers_from_start(s: Seq<u8>, p: int)
    ensures
        match (subsection_at(s, p), lex(s, p)) {
            (Some(m), Lexed::Tok(TokenV::Numeric(NumberV::Integer(start)), q1)) => match lex(s, q1) {
                Lexed::Tok(TokenV::Numeric(NumberV::Integer(size)), q2) => (forall|key: IndirectObject|
                    #[trigger] m.contains_key(key) ==> start <= key.0 < start + size) && (size > 0
                    ==> match xref_entry_at(s, q2) {
                    Some((e, _)) => m.contains_key((start, e.generation as i32)) && m[(
                        start,
                        e.generation as i32,
                    )] == (e.number, e.in_use),
                    None => false,
                }),
                _ => true,
            },
            _ => true,
        },
{
    match lex(s, p) {
        Lexed::Tok(TokenV::Numeric(NumberV::Integer(start)), q1) => match lex(s, q1) {
            Lexed::Tok(TokenV::Numeric(NumberV::Integer(size)), q2) => {
                if !(start + size > i32::MAX || start + size < i32::MIN) {
                    let m0 = Map::<IndirectObject, (usize, bool)>::empty();
                    lemma_subsection_entries_numbers(s, q2, start as int, start + size, m0);
                    if size > 0 {
                        match xref_entry_at(s, q2) {
                            Some((e, q)) => {
                                let acc2 = m0.insert((start, e.generation as i32), (e.number, e.in_use));
                                lemma_subsection_entries_numbers(s, q, start + 1, start + size, acc2);
                                assert(acc2.contains_key((start, e.generation as i32)));
                            },
                            None => {},
                        }
                    }
                }
            },
            _ => {},
        },
        _ => {},
    }
}

/// Reads one entry of a cross-reference table, which must have the shape
/// read (see [`xref_entry_at`]).
pub fn xref_table_subsection_entry(tokenizer: &mut Tokenizer) -> (r: XrefEntry)
    requires
        old(tokenizer).wf(),
        xref_entry_at(old(tokenizer).input(), old(tokenizer).position()) is Some,
    ensures
        final(tokenizer).wf(),
        final(tokenizer).input() == old(tokenizer).input(),
        xref_entry_at(old(tokenizer).input(), old(tokenizer).position()) == Some(
            (r, final(tokenizer).position()),
        ),
{
    match try_xref_table_subsection_entry(tokenizer) {
        Ok(e) => e,
        Err(_) => unreached(),
    }
}

/// Reads one entry of a cross-reference table (see [`xref_entry_at`]).
pub fn try_xref_table_subsection_entry(tokenizer: &mut Tokenizer) -> (r: Result<XrefEntry, XRefError>)
    requires
        old(tokenizer).wf(),
    ensures
        final(tokenizer).wf(),
        final(tokenizer).input() == old(tokenizer).input(),
        match xref_entry_at(old(tokenizer).input(), old(tokenizer).position()) {
            Some((e, q)) => r == Ok::<XrefEntry, XRefError>(e) && final(tokenizer).position() == q,
            None => r == Err::<XrefEntry, XRefError>(XRefError::Malformed),
        },
{
    let t1 = tokenizer.next_token();
    let number = match integer_token(&t1) {
        Some(n) => #[verifier::truncate] (n as usize),
        None => {
            return Err(XRefError::Malformed);
        },
    };
    let t2 = tokenizer.next_token();
    let generation = match integer_token(&t2) {
        Some(n) => #[verifier::truncate] (n as usize),
        None => {
            return Err(XRefError::Malformed);
        },
    };
    let in_use = match tokenizer.next_token() {
        Some(Token::String(s)) => {
            let k: [u8; 1] = [110];
            assert(k@ =~= seq![110u8]);
            bytes_eq(s.as_slice(), &k)
        },
        _ => {
            return Err(XRefError::Malformed);
        },
    };
    Ok(XrefEntry { number, generation, in_use })
}

/// Reads one subsection of a cross-reference table, which must have the
/// shape read (see [`subsection_at`]).
pub fn xref_table_subsection(tok: &mut Tokenizer) -> (r: XRefTable)
    requires
        old(tok).wf(),
        subsection_at(old(tok).input(), old(tok).position()) is Some,
    ensures
        final(tok).wf(),
        final(tok).input() == old(tok).input(),
        Some(r@) == subsection_at(old(tok).input(), old(tok).position()),
{
    match try_xref_table_subsection(tok) {
        Ok(t) => t,
        Err(_) => unreached(),
    }
}

/// Reads one subsection of a cross-reference table (see [`subsection_at`]).
pub fn try_xref_table_subsection(tok: &mut Tokenizer) -> (r: Result<XRefTable, XRefError>)
    requires
        old(tok).wf(),
    ensures
        final(tok).wf(),
        final(tok).input() == old(tok).input(),
        match subsection_at(old(tok).input(), old(tok).position()) {
            Some(m) => r is Ok && r.unwrap()@ == m,
            None => r == Err::<XRefTable, XRefError>(XRefError::Malformed),
        },
{
    let ghost s = tok.input();
    let mut table = XRefTable::new();
    let t1 = tok.next_token();
    let start = match integer_token(&t1) {
        Some(n) => n,
        None => {
            return Err(XRefError::Malformed);
        },
    };
    let t2 = tok.next_token();
    let size = match integer_token(&t2) {
        Some(n) => n,
        None => {
            return Err(XRefError::Malformed);
        },
    };
    let end: i32 = match start.checked_add(size) {
        Some(e) => e,
        None => {
            return Err(XRefError::Malformed);
        },
    };
    let mut object_idx: i32 = start;
    while object_idx < end
        invariant
            tok.wf(),
            tok.input() == s,
            s == old(tok).input(),
            start <= object_idx || end <= start,
            subsection_at(s, old(tok).position()) == subsection_entries(
                s,
                tok.position(),
                object_idx as int,
                end as int,
                table@,
            ),
        decreases end - object_idx,
    {
        match try_xref_table_subsection_entry(tok) {
            Ok(o) => {
                table.insert((object_idx, #[verifier::truncate] (o.generation as i32)), (o.number, o.in_use));
            },
            Err(e) => {
                return Err(e);
            },
        }
        object_idx = object_idx + 1;
    }
    Ok(table)
}

/// The keyword `startxref`.
pub open spec fn kw_startxref() -> Seq<u8> {
    seq![115u8, 116, 97, 114, 116, 120, 114, 101, 102]
}

/// Offset of the last cross-reference section: the integer after the one
/// `startxref` keyword of the file. A file with no such keyword, or with two,
/// is refused.
pub open spec fn startxref_at(s: Seq<u8>) -> Option<usize> {
    match first_match(s, kw_startxref(), 0) {
        None => None,
        Some(i) => if first_match(s, kw_startxref(), i + 1) is Some {
            None
        } else {
            match lex(s, i) {
                Lexed::Tok(TokenV::String(w), q) => if w == kw_startxref() {
                    match lex(s, q) {
                        Lexed::Tok(TokenV::Numeric(NumberV::Integer(n)), _) => Some(n as usize),
                        _ => None,
                    }
                } else {
                    None
                },
                _ => None,
            }
        },
    }
}

/// Byte offset of the last cross-reference section (see [`startxref_at`]);
/// the file must hold the keyword `startxref` once, followed by an integer.
pub fn startxref(pdf_bytes: &[u8]) -> (r: usize)
    requires
        startxref_at(pdf_bytes@) is Some,
    ensures
        Some(r) == startxref_at(pdf_bytes@),
{
    match find_startxref(pdf_bytes) {
        Ok(n) => n,
        Err(_) => unreached(),
    }
}

/// Byte offset of the last cross-reference section, or why the file does not
/// give one (see [`startxref_at`]).
fn find_startxref(pdf_bytes: &[u8]) -> (r: Result<usize, XRefError>)
    ensures
        match startxref_at(pdf_bytes@) {
            Some(n) => r == Ok::<usize, XRefError>(n),
            None => r == Err::<usize, XRefError>(XRefError::Malformed),
        },
{
    let len = pdf_bytes.len();
    let pattern: [u8; 9] = [115, 116, 97, 114, 116, 120, 114, 101, 102];
    assert(pattern@ =~= kw_startxref());
    let index = match find_from(pdf_bytes, &pattern, 0) {
        Some(i) => i,
        None => {
            return Err(XRefError::Malformed);
        },
    };
    proof {
        lemma_first_match(pdf_bytes@, kw_startxref(), 0);
    }
    if find_from(pdf_bytes, &pattern, index + 1).is_some() {
        return Err(XRefError::Malformed);
    }
    let mut tok = Tokenizer::new(pdf_bytes, index);
    match tok.next_token() {
        Some(Token::String(s)) => {
            if !bytes_eq(s.as_slice(), &pattern) {
                return Err(XRefError::Malformed);
            }
        },
        _ => {
            return Err(XRefError::Malformed);
        },
    };
    let t = tok.next_token();
    match integer_token(&t) {
        Some(i) => Ok(#[verifier::truncate] (i as usize)),
        None => Err(XRefError::Malformed),
    }
}

} // verus!

verus! {

// ---------------------------------------------------------------------------
// Cross-reference streams (PDF reference, section 3.4.7)
// ---------------------------------------------------------------------------

/// A cross-reference stream: the fields of its dictionary that are used, and
/// its decompressed entries.
#[derive(Debug, PartialEq)]
pub struct XRefStream {
    size: usize,
    index: (usize, usize),
    prev: Option<i32>,
    w: (usize, usize, usize),
    stream: Vec<u8>,
}

/// Mathematical model of an [`XRefStream`].
pub struct XRefStreamV {
    pub size: usize,
    pub index: (usize, usize),
    pub prev: Option<i32>,
    pub w: (usize, usize, usize),
    pub stream: Seq<u8>,
}

impl View for XRefStream {
    type V = XRefStreamV;

    closed spec fn view(&self) -> XRefStreamV {
        XRefStreamV {
            size: self.size,
            index: self.index,
            prev: self.prev,
            w: self.w,
            stream: self.stream@,
        }
    }
}

pub open spec fn key_size() -> Seq<char> {
    seq!['S', 'i', 'z', 'e']
}

pub open spec fn key_decode_parms() -> Seq<char> {
    seq!['D', 'e', 'c', 'o', 'd', 'e', 'P', 'a', 'r', 'm', 's']
}

pub open spec fn key_index() -> Seq<char> {
    seq!['I', 'n', 'd', 'e', 'x']
}

pub open spec fn key_prev() -> Seq<char> {
    seq!['P', 'r', 'e', 'v']
}

pub open spec fn key_w() -> Seq<char> {
    seq!['W']
}

/// The integer an object holds, if it is one.
pub open spec fn integer_of(o: ObjectV) -> Option<i32> {
    match o {
        ObjectV::Numeric(NumberV::Integer(n)) => Some(n),
        _ => None,
    }
}

/// `Index`: two integers, or `(0, size)` where the key is absent.
pub open spec fn index_entry(m: Map<Seq<char>, ObjectV>, size: usize) -> Option<(usize, usize)> {
    if !m.contains_key(key_index()) {
        Some((0, size))
    } else {
        match m[key_index()] {
            ObjectV::Array(a) => if a.len() == 2 && integer_of(a[0]) is Some && integer_of(a[1]) is Some {
                Some((integer_of(a[0]).unwrap() as usize, integer_of(a[1]).unwrap() as usize))
            } else {
                None
            },
            _ => None,
        }
    }
}

/// `W`: an array whose first three elements are integers.
pub open spec fn widths_entry(m: Map<Seq<char>, ObjectV>) -> Option<(usize, usize, usize)> {
    if !m.contains_key(key_w()) {
        None
    } else {
        match m[key_w()] {
            ObjectV::Array(a) => if a.len() >= 3 && integer_of(a[0]) is Some && integer_of(a[1]) is Some
                && integer_of(a[2]) is Some {
                Some(
                    (
                        integer_of(a[0]).unwrap() as usize,
                        integer_of(a[1]).unwrap() as usize,
                        integer_of(a[2]).unwrap() as usize,
                    ),
                )
            } else {
                None
            },
            _ => None,
        }
    }
}

/// The dictionary `m` of a cross-reference stream with data `d` has what is
/// read from it: an integer `Size`, no `DecodeParms`, an `Index` and a `W`
/// of the shape read, an integer `Prev` where there is one; and the data is
/// short enough for its decoding buffer. Only the decompression of the data
/// is then left to decide.
pub open spec fn xref_stream_header(m: Map<Seq<char>, ObjectV>, d: Seq<u8>) -> bool {
    m.contains_key(key_size()) && integer_of(m[key_size()]) is Some && !m.contains_key(
        key_decode_parms(),
    ) && index_entry(m, integer_of(m[key_size()]).unwrap() as usize) is Some && (!m.contains_key(
        key_prev(),
    ) || integer_of(m[key_prev()]) is Some) && widths_entry(m) is Some && d.len() * 10 <= usize::MAX
}

/// The cross-reference stream that a stream object with dictionary `m` and
/// data `d` describes.
pub open spec fn xref_stream_of(m: Map<Seq<char>, ObjectV>, d: Seq<u8>) -> Option<XRefStreamV> {
    if !m.contains_key(key_size()) || integer_of(m[key_size()]) is None {
        None
    } else if m.contains_key(key_decode_parms()) {
        None
    } else {
        let size = integer_of(m[key_size()]).unwrap() as usize;
        let prev_ok = !m.contains_key(key_prev()) || integer_of(m[key_prev()]) is Some;
        let prev = if m.contains_key(key_prev()) {
            integer_of(m[key_prev()])
        } else {
            None
        };
        if index_entry(m, size) is None || !prev_ok || widths_entry(m) is None || d.len() * 10
            > usize::MAX {
            None
        } else {
            match zlib_read(d, decode_buffer(d)) {
                Some(out) => Some(
                    XRefStreamV {
                        size,
                        index: index_entry(m, size).unwrap(),
                        prev,
                        w: widths_entry(m).unwrap(),
                        stream: out,
                    },
                ),
                None => None,
            }
        }
    }
}

/// Value of bytes read as a big-endian unsigned number.
pub open spec fn be_value(b: Seq<u8>) -> nat
    decreases b.len(),
{
    if b.len() == 0 {
        0
    } else {
        be_value(b.drop_last()) * 256 + b.last() as nat
    }
}

/// Offset of object number `idx` according to the stream `x`, following
/// entries of compressed objects at most `fuel` times. (A longer chain of
/// such entries must pass an entry twice and would never end.)
pub open spec fn stream_lookup(x: XRefStreamV, idx: usize, fuel: nat) -> Result<Option<usize>, XRefError>
    decreases fuel,
{
    if idx > x.index.1 {
        Err(XRefError::Malformed)
    } else {
        let es = x.w.0 + x.w.1 + x.w.2;
        let start = idx * es;
        if es > usize::MAX || start + es > x.stream.len() {
            Err(XRefError::Malformed)
        } else {
            let typ = be_value(x.stream.subrange(start, start + x.w.0));
            let mid = be_value(x.stream.subrange(start + x.w.0, start + x.w.0 + x.w.1));
            if typ > usize::MAX || mid > usize::MAX {
                Err(XRefError::Malformed)
            } else if typ == 1 {
                Ok(Some(mid as usize))
            } else if typ == 0 {
                Ok(None)
            } else if typ == 2 && fuel > 0 {
                stream_lookup(x, ((mid as usize) as i32) as usize, (fuel - 1) as nat)
            } else {
                Err(XRefError::Malformed)
            }
        }
    }
}

proof fn lemma_be_value_prefix(b: Seq<u8>, k: int)
    requires
        0 <= k <= b.len(),
    ensures
        be_value(b.subrange(0, k)) <= be_value(b),
    decreases b.len(),
{
    if k < b.len() {
        lemma_be_value_prefix(b.drop_last(), k);
        assert(b.drop_last().subrange(0, k) =~= b.subrange(0, k));
    } else {
        assert(b.subrange(0, k) =~= b);
    }
}

impl XRefStream {
    /// Bytes read as a big-endian unsigned number; `None` where it does not
    /// fit in a `usize`.
    fn num(bytes: &[u8]) -> (r: Option<usize>)
        ensures
            be_value(bytes@) <= usize::MAX ==> r == Some(be_value(bytes@) as usize),
            be_value(bytes@) > usize::MAX ==> r is None,
    {
        let mut res: usize = 0;
        let mut i: usize = 0;
        while i < bytes.len()
            invariant
                i <= bytes@.len(),
                res == be_value(bytes@.subrange(0, i as int)),
            decreases bytes@.len() - i,
        {
            let ghost pre = bytes@.subrange(0, i as int);
            let ghost nxt = bytes@.subrange(0, i + 1);
            assert(nxt.drop_last() =~= pre);
            if res > (usize::MAX - 255) / 256 {
                proof {
                    lemma_be_value_prefix(bytes@, i + 1);
                }
                if res > (usize::MAX - bytes[i] as usize) / 256 {
                    return None;
                }
            }
            res = res * 256 + bytes[i] as usize;
            i = i + 1;
        }
        assert(bytes@.subrange(0, bytes@.len() as int) =~= bytes@);
        Some(res)
    }

    /// Offset of the object `key` (see [`stream_lookup`]), whose entry must be
    /// of the shape read.
    pub fn get(&self, key: &IndirectObject) -> (r: Option<usize>)
        requires
            stream_lookup(self@, key.0 as usize, self@.stream.len()) is Ok,
        ensures
            Ok::<Option<usize>, XRefError>(r) == stream_lookup(self@, key.0 as usize, self@.stream.len()),
    {
        match self.try_get(key) {
            Ok(o) => o,
            Err(_) => unreached(),
        }
    }

    /// Offset of the object `key` (see [`stream_lookup`]): an entry of type
    /// 1 gives the offset, one of type 0 (free) gives `None`, and one of type
    /// 2 (compressed) is followed to the entry that its middle field names.
    pub fn try_get(&self, key: &IndirectObject) -> (r: Result<Option<usize>, XRefError>)
        ensures
            r == stream_lookup(self@, key.0 as usize, self@.stream.len()),
    {
        let mut idx: usize = #[verifier::truncate] (key.0 as usize);
        let n = self.stream.len();
        let mut fuel: usize = n;
        loop
            invariant
                n == self@.stream.len(),
                stream_lookup(self@, key.0 as usize, self@.stream.len())
                    == stream_lookup(self@, idx, fuel as nat),
            decreases fuel,
        {
            if idx > self.index.1 {
                return Err(XRefError::Malformed);
            }
            let es = match self.w.0.checked_add(self.w.1) {
                Some(a) => match a.checked_add(self.w.2) {
                    Some(b) => b,
                    None => {
                        return Err(XRefError::Malformed);
                    },
                },
                None => {
                    return Err(XRefError::Malformed);
                },
            };
            let start = match idx.checked_mul(es) {
                Some(st) => st,
                None => {
                    proof {
                        assert(idx * es > usize::MAX);
                        assert(idx * es + es > self@.stream.len()) by (nonlinear_arith)
                            requires
                                idx * es > usize::MAX,
                                self@.stream.len() <= usize::MAX,
                                es >= 0,
                        ;
                    }
                    return Err(XRefError::Malformed);
                },
            };
            if start > self.stream.len() || es > self.stream.len() - start {
                return Err(XRefError::Malformed);
            }
            let typ = match XRefStream::num(&self.stream.as_slice()[start..start + self.w.0]) {
                Some(t) => t,
                None => {
                    return Err(XRefError::Malformed);
                },
            };
            let mid = match XRefStream::num(
                &self.stream.as_slice()[start + self.w.0..start + self.w.0 + self.w.1],
            ) {
                Some(m) => m,
                None => {
                    return Err(XRefError::Malformed);
                },
            };
            if typ == 1 {
                return Ok(Some(mid));
            } else if typ == 0 {
                return Ok(None);
            } else if typ == 2 && fuel > 0 {
                idx = #[verifier::truncate] ((#[verifier::truncate] (mid as i32)) as usize);
                fuel = fuel - 1;
            } else {
                return Err(XRefError::Malformed);
            }
        }
    }
}

} // verus!

verus! {

/// The integer an object holds, if it is one.
pub fn integer_object(o: &Object) -> (r: Option<i32>)
    ensures
        r == integer_of(o@),
{
    match o {
        Object::Numeric(Number::Integer(n)) => Some(*n),
        _ => None,
    }
}

impl XRefStream {
    /// The cross-reference stream that a stream object describes (see
    /// [`xref_stream_of`]); its data is decompressed.
    pub fn from(value: Stream) -> (r: Result<XRefStream, XRefError>)
        requires
            xref_stream_header(value.header@, value.bytes@),
        ensures
            match xref_stream_of(value.header@, value.bytes@) {
                Some(v) => r is Ok && r.unwrap()@ == v,
                None => r == Err::<XRefStream, XRefError>(XRefError::Malformed),
            },
    {
        XRefStream::try_from(value)
    }

    /// The cross-reference stream of a stream object, or why its dictionary
    /// or data do not give one (see [`xref_stream_of`]).
    pub fn try_from(value: Stream) -> (r: Result<XRefStream, XRefError>)
        ensures
            match xref_stream_of(value.header@, value.bytes@) {
                Some(v) => r is Ok && r.unwrap()@ == v,
                None => r == Err::<XRefStream, XRefError>(XRefError::Malformed),
            },
    {
        proof {
            reveal_strlit("Size");
            reveal_strlit("DecodeParms");
            reveal_strlit("Index");
            reveal_strlit("Prev");
            reveal_strlit("W");
        }
        assert("Size"@ =~= key_size());
        assert("DecodeParms"@ =~= key_decode_parms());
        assert("Index"@ =~= key_index());
        assert("Prev"@ =~= key_prev());
        assert("W"@ =~= key_w());
        let header = &value.header;
        let size: usize = match header.get("Size") {
            Some(o) => match integer_object(o) {
                Some(n) => #[verifier::truncate] (n as usize),
                None => {
                    return Err(XRefError::Malformed);
                },
            },
            None => {
                return Err(XRefError::Malformed);
            },
        };
        if header.get("DecodeParms").is_some() {
            return Err(XRefError::Malformed);
        }
        let index: (usize, usize) = match header.get("Index") {
            None => (0, size),
            Some(Object::Array(a)) => {
                proof {
                    lemma_array_view(a@);
                }
                if a.len() != 2 {
                    return Err(XRefError::Malformed);
                }
                match (integer_object(&a[0]), integer_object(&a[1])) {
                    (Some(x), Some(y)) => (
                        #[verifier::truncate] (x as usize),
                        #[verifier::truncate] (y as usize),
                    ),
                    _ => {
                        return Err(XRefError::Malformed);
                    },
                }
            },
            Some(_) => {
                return Err(XRefError::Malformed);
            },
        };
        let prev: Option<i32> = match header.get("Prev") {
            None => None,
            Some(o) => match integer_object(o) {
                Some(n) => Some(n),
                None => {
                    return Err(XRefError::Malformed);
                },
            },
        };
        let w: (usize, usize, usize) = match header.get("W") {
            Some(Object::Array(a)) => {
                proof {
                    lemma_array_view(a@);
                }
                if a.len() < 3 {
                    return Err(XRefError::Malformed);
                }
                match (integer_object(&a[0]), integer_object(&a[1]), integer_object(&a[2])) {
                    (Some(x), Some(y), Some(z)) => (
                        #[verifier::truncate] (x as usize),
                        #[verifier::truncate] (y as usize),
                        #[verifier::truncate] (z as usize),
                    ),
                    _ => {
                        return Err(XRefError::Malformed);
                    },
                }
            },
            _ => {
                return Err(XRefError::Malformed);
            },
        };
        if value.bytes.len() > usize::MAX / 10 {
            return Err(XRefError::Malformed);
        }
        let stream = match flate_decode(value.bytes.as_slice()) {
            Ok(d) => d,
            Err(_) => {
                return Err(XRefError::Malformed);
            },
        };
        Ok(XRefStream { size, index, prev, w, stream })
    }
}

// ---------------------------------------------------------------------------
// Cross-reference data of a file
// ---------------------------------------------------------------------------

#[derive(Debug)]
pub enum XRef {
    XRefTable(XRefTable),
    XRefStream(XRefStream),
}

/// Mathematical model of an [`XRef`].
pub enum XRefV {
    Table(Map<IndirectObject, (usize, bool)>),
    Stream(XRefStreamV),
}

impl View for XRef {
    type V = XRefV;

    open spec fn view(&self) -> XRefV {
        match self {
            XRef::XRefTable(t) => XRefV::Table(t@),
            XRef::XRefStream(s) => XRefV::Stream(s@),
        }
    }
}

/// Offset of the object `key` according to the cross-reference data `x` of
/// the file `bytes`.
pub open spec fn object_offset(x: XRefV, key: IndirectObject, bytes: Seq<u8>) -> Result<Option<usize>, XRefError> {
    match x {
        XRefV::Table(t) => fixed_offset(t, key, bytes),
        XRefV::Stream(st) => stream_lookup(st, key.0 as usize, st.stream.len()),
    }
}

impl XRef {
    /// Offset of the object `key` in the file `bytes` (see
    /// [`object_offset`]), which must be found there.
    pub fn get_and_fix(&self, key: &IndirectObject, bytes: &[u8]) -> (r: Option<usize>)
        requires
            object_offset(self@, *key, bytes@) is Ok,
        ensures
            Ok::<Option<usize>, XRefError>(r) == object_offset(self@, *key, bytes@),
    {
        match self.try_get_and_fix(key, bytes) {
            Ok(o) => o,
            Err(_) => unreached(),
        }
    }

    /// Offset of the object `key` in the file `bytes` (see
    /// [`object_offset`]).
    pub fn try_get_and_fix(&self, key: &IndirectObject, bytes: &[u8]) -> (r: Result<Option<usize>, XRefError>)
        ensures
            r == object_offset(self@, *key, bytes@),
    {
        match self {
            XRef::XRefStream(xref) => xref.try_get(key),
            XRef::XRefTable(xref) => xref.try_get_and_fix(key, bytes),
        }
    }
}

/// The keyword `xref`.
pub open spec fn kw_xref() -> Seq<u8> {
    seq![120u8, 114, 101, 102]
}

/// The cross-reference section at the start of `s`: a table after the keyword
/// `xref` (its first subsection), or a cross-reference stream object.
pub open spec fn xref_section(s: Seq<u8>) -> Option<XRefV> {
    match lex(s, 0) {
        Lexed::Tok(TokenV::String(w), q) => if w == kw_xref() {
            match subsection_at(s, q) {
                Some(m) => Some(XRefV::Table(m)),
                None => None,
            }
        } else {
            None
        },
        Lexed::Tok(TokenV::Numeric(_), _) => match parse_object(s, 0) {
            Some((ObjectV::Stream(m, d), _)) => match xref_stream_of(m, d) {
                Some(x) => Some(XRefV::Stream(x)),
                None => None,
            },
            _ => None,
        },
        _ => None,
    }
}

/// The bytes `s` start with a cross-reference section of the shape read:
/// the keyword `xref` and a subsection, or a cross-reference stream object
/// whose dictionary has what is read from it.
pub open spec fn xref_readable(s: Seq<u8>) -> bool {
    match lex(s, 0) {
        Lexed::Tok(TokenV::String(w), q) => w == kw_xref() && subsection_at(s, q) is Some,
        Lexed::Tok(TokenV::Numeric(_), _) => parse_object(s, 0) matches Some((ObjectV::Stream(m, d), _))
            && xref_stream_header(m, d),
        _ => false,
    }
}

/// Reads the cross-reference section at the start of `xref_stream`, which
/// must have the shape read (see [`xref_section`]); only the decompression of
/// a cross-reference stream can then fail.
pub fn xref_parse(xref_stream: &[u8]) -> (r: Result<XRef, XRefError>)
    requires
        xref_readable(xref_stream@),
    ensures
        match xref_section(xref_stream@) {
            Some(x) => r is Ok && r.unwrap()@ == x,
            None => r == Err::<XRef, XRefError>(XRefError::Malformed),
        },
{
    read_xref_section(xref_stream)
}

/// Reads the cross-reference section at the start of `xref_stream`, or says
/// that there is none (see [`xref_section`]).
fn read_xref_section(xref_stream: &[u8]) -> (r: Result<XRef, XRefError>)
    ensures
        match xref_section(xref_stream@) {
            Some(x) => r is Ok && r.unwrap()@ == x,
            None => r == Err::<XRef, XRefError>(XRefError::Malformed),
        },
{
    let mut tok = Tokenizer::new(xref_stream, 0);
    match tok.try_peek() {
        Ok(Some(Token::String(s))) => {
            let k: [u8; 4] = [120, 114, 101, 102];
            assert(k@ =~= kw_xref());
            if bytes_eq(s.as_slice(), &k) {
                tok.next_token();
                let t = try_xref_table_subsection(&mut tok)?;
                Ok(XRef::XRefTable(t))
            } else {
                Err(XRefError::Malformed)
            }
        },
        Ok(Some(Token::Numeric(_))) => {
            match Object::try_new(xref_stream, 0) {
                Ok(Object::Stream(s)) => Ok(XRef::XRefStream(XRefStream::try_from(s)?)),
                _ => Err(XRefError::Malformed),
            }
        },
        _ => Err(XRefError::Malformed),
    }
}

/// Reads the last cross-reference section of a file, and gives its offset.
pub fn xref_table(file_stream: &[u8]) -> (r: Result<(XRef, usize), XRefError>)
    ensures
        match startxref_at(file_stream@) {
            Some(n) => if n <= file_stream@.len() {
                match xref_section(file_stream@.subrange(n as int, file_stream@.len() as int)) {
                    Some(x) => r is Ok && r.unwrap().0@ == x && r.unwrap().1 == n,
                    None => r == Err::<(XRef, usize), XRefError>(XRefError::Malformed),
                }
            } else {
                r == Err::<(XRef, usize), XRefError>(XRefError::Malformed)
            },
            None => r == Err::<(XRef, usize), XRefError>(XRefError::Malformed),
        },
{
    let startxref = find_startxref(file_stream)?;
    if startxref > file_stream.len() {
        return Err(XRefError::Malformed);
    }
    let x = read_xref_section(&file_stream[startxref..file_stream.len()])?;
    Ok((x, startxref))
}

} // verus!
