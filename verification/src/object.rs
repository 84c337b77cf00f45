use vstd::prelude::*;

use crate::algebra::{Number, NumberV};
use crate::lemmatizer::{lem, lemma_lem_advances, Lemmatizer};
use crate::strings::utf8_to_string;
use crate::tokenizer::{skip_whitespace, Lexed, Token, TokenV, Tokenizer};
use vstd::utf8::{decode_utf8, valid_utf8};

verus! {

// PDF basic objects (PDF reference, section 3.2)
pub type Name = String;

/// Object number and generation number of an indirect object.
pub type IndirectObject = (i32, i32);

pub type Array = Vec<Object>;

/// A PDF dictionary. A key given twice maps to its last value.
#[derive(Debug, PartialEq)]
pub struct Dictionary {
    pub entries: Vec<(Name, Object)>,
}

/// A stream: its dictionary and the bytes that follow the keyword `stream`.
#[derive(Debug, PartialEq)]
pub struct Stream {
    pub header: Dictionary,
    pub bytes: Vec<u8>,
}

#[derive(Debug, PartialEq)]
pub enum Object {
    Dictionary(Dictionary),
    Stream(Stream),
    Array(Array),
    Name(Name),
    String(String),
    HexString(Vec<u8>),
    Numeric(Number),
    Ref(IndirectObject),
}

/// Mathematical model of an [`Object`].
pub enum ObjectV {
    Dictionary(Map<Seq<char>, ObjectV>),
    Stream(Map<Seq<char>, ObjectV>, Seq<u8>),
    Array(Seq<ObjectV>),
    Name(Seq<char>),
    String(Seq<char>),
    HexString(Seq<u8>),
    Numeric(NumberV),
    Ref(i32, i32),
}

pub open spec fn object_view(o: Object) -> ObjectV
    decreases o,
{
    match o {
        Object::Dictionary(d) => ObjectV::Dictionary(entries_view(d.entries@)),
        Object::Stream(st) => ObjectV::Stream(entries_view(st.header.entries@), st.bytes@),
        Object::Array(a) => ObjectV::Array(array_view(a@)),
        Object::Name(n) => ObjectV::Name(n@),
        Object::String(n) => ObjectV::String(n@),
        Object::HexString(h) => ObjectV::HexString(h@),
        Object::Numeric(n) => ObjectV::Numeric(n@),
        Object::Ref((a, b)) => ObjectV::Ref(a, b),
    }
}

/// The map that inserting `es` in order gives.
pub open spec fn entries_view(es: Seq<(Name, Object)>) -> Map<Seq<char>, ObjectV>
    decreases es,
{
    if es.len() == 0 {
        Map::empty()
    } else {
        entries_view(es.subrange(0, es.len() - 1)).insert(
            es[es.len() - 1].0@,
            object_view(es[es.len() - 1].1),
        )
    }
}

pub open spec fn array_view(a: Seq<Object>) -> Seq<ObjectV>
    decreases a,
{
    if a.len() == 0 {
        Seq::empty()
    } else {
        array_view(a.subrange(0, a.len() - 1)).push(object_view(a[a.len() - 1]))
    }
}

impl View for Object {
    type V = ObjectV;

    open spec fn view(&self) -> ObjectV {
        object_view(*self)
    }
}

impl View for Dictionary {
    type V = Map<Seq<char>, ObjectV>;

    open spec fn view(&self) -> Map<Seq<char>, ObjectV> {
        entries_view(self.entries@)
    }
}

/// The elements of an array's model are the models of its elements.
pub proof fn lemma_array_view(a: Seq<Object>)
    ensures
        array_view(a).len() == a.len(),
        forall|i: int| 0 <= i < a.len() ==> #[trigger] array_view(a)[i] == object_view(a[i]),
    decreases a.len(),
{
    if a.len() > 0 {
        let pre = a.subrange(0, a.len() - 1);
        lemma_array_view(pre);
        assert forall|i: int| 0 <= i < a.len() implies #[trigger] array_view(a)[i] == object_view(
            a[i],
        ) by {
            if i < a.len() - 1 {
                assert(pre[i] == a[i]);
            }
        }
    }
}

proof fn lemma_entries_view_push(es: Seq<(Name, Object)>, k: Name, o: Object)
    ensures
        entries_view(es.push((k, o))) == entries_view(es).insert(k@, object_view(o)),
{
    assert(es.push((k, o)).subrange(0, es.len() as int) =~= es);
}

proof fn lemma_array_view_push(a: Seq<Object>, o: Object)
    ensures
        array_view(a.push(o)) == array_view(a).push(object_view(o)),
{
    assert(a.push(o).subrange(0, a.len() as int) =~= a);
}

impl Dictionary {
    pub fn new() -> (d: Dictionary)
        ensures
            d@ == Map::<Seq<char>, ObjectV>::empty(),
    {
        Dictionary { entries: Vec::new() }
    }

    pub fn insert(&mut self, key: Name, value: Object)
        ensures
            final(self)@ == old(self)@.insert(key@, value@),
    {
        proof {
            lemma_entries_view_push(self.entries@, key, value);
        }
        self.entries.push((key, value));
    }

    /// The value of `key`, taken out of the dictionary, which is used up.
    pub fn take(self, key: &str) -> (r: Option<Object>)
        ensures
            r matches Some(o) ==> self@.contains_key(key@) && o@ == self@[key@],
            r is None ==> !self@.contains_key(key@),
    {
        let ghost es = self.entries@;
        let ghost v = self@;
        assert(v == entries_view(es));
        let k = key.to_string();
        proof {
            broadcast use vstd::string::to_string_from_display_ensures_for_str;
        }
        let mut entries = self.entries;
        while entries.len() > 0
            invariant
                k@ == key@,
                v == entries_view(es),
                v == self@,
                entries@.len() <= es.len(),
                entries@ == es.subrange(0, entries@.len() as int),
                forall|j: int| entries@.len() <= j < es.len() ==> #[trigger] es[j].0@ != key@,
            decreases entries@.len(),
        {
            let ghost before = entries@;
            let (name, value) = entries.pop().unwrap();
            assert(es[entries@.len() as int] == before[entries@.len() as int]);
            if name == k {
                proof {
                    lemma_entries_view_suffix(es, entries@.len() as int, key@);
                }
                return Some(value);
            }
            assert(entries@ =~= es.subrange(0, entries@.len() as int));
        }
        proof {
            lemma_entries_view_suffix(es, -1, key@);
        }
        None
    }

    /// The value of `key`.
    pub fn get(&self, key: &str) -> (r: Option<&Object>)
        ensures
            r matches Some(o) ==> self@.contains_key(key@) && o@ == self@[key@],
            r is None ==> !self@.contains_key(key@),
    {
        let k = key.to_string();
        proof {
            broadcast use vstd::string::to_string_from_display_ensures_for_str;
        }
        assert(k@ == key@);
        let mut i = self.entries.len();
        while i > 0
            invariant
                i <= self.entries@.len(),
                k@ == key@,
                forall|j: int|
                    i <= j < self.entries@.len() ==> #[trigger] self.entries@[j].0@ != key@,
            decreases i,
        {
            let e = &self.entries[i - 1];
            if e.0 == k {
                proof {
                    lemma_entries_view_suffix(self.entries@, i - 1, key@);
                }
                return Some(&e.1);
            }
            i = i - 1;
        }
        proof {
            lemma_entries_view_suffix(self.entries@, -1, key@);
        }
        None
    }
}

/// A value added to a dictionary under a key is what the key then gives,
/// and every other key keeps its value.
pub proof fn law_dictionary_insert_get(d: Dictionary, key: Name, value: Object, other: Seq<char>)
    requires
        other != key@,
    ensures
        entries_view(d.entries@.push((key, value))).contains_key(key@),
        entries_view(d.entries@.push((key, value)))[key@] == value@,
        entries_view(d.entries@.push((key, value))).contains_key(other) == d@.contains_key(other),
        d@.contains_key(other) ==> entries_view(d.entries@.push((key, value)))[other] == d@[other],
{
    lemma_entries_view_push(d.entries@, key, value);
}

/// The keys of a dictionary are those of its entries.
pub proof fn lemma_entries_view_keys(es: Seq<(Name, Object)>)
    ensures
        forall|k: Seq<char>| #[trigger]
            entries_view(es).contains_key(k) <==> exists|j: int| 0 <= j < es.len() && (#[trigger] es[j]).0@ == k,
    decreases es.len(),
{
    if es.len() > 0 {
        let last = es.len() - 1;
        let pre = es.subrange(0, last);
        lemma_entries_view_keys(pre);
        assert(entries_view(es) == entries_view(pre).insert(es[last].0@, object_view(es[last].1)));
        assert forall|k: Seq<char>| #[trigger]
            entries_view(es).contains_key(k) <==> exists|j: int| 0 <= j < es.len() && (#[trigger] es[j]).0@ == k by {
            if entries_view(es).contains_key(k) {
                if k == es[last].0@ {
                    assert(es[last].0@ == k);
                } else {
                    assert(entries_view(pre).contains_key(k));
                    let j = choose|j: int| 0 <= j < pre.len() && (#[trigger] pre[j]).0@ == k;
                    assert(es[j] == pre[j]);
                }
            }
            if exists|j: int| 0 <= j < es.len() && (#[trigger] es[j]).0@ == k {
                let j = choose|j: int| 0 <= j < es.len() && (#[trigger] es[j]).0@ == k;
                if j < last {
                    assert(pre[j] == es[j]);
                    assert(entries_view(pre).contains_key(k));
                }
            }
        }
    }
}

/// What a key maps to is decided by its last entry.
proof fn lemma_entries_view_suffix(es: Seq<(Name, Object)>, i: int, key: Seq<char>)
    requires
        -1 <= i < es.len(),
        forall|j: int| i < j < es.len() ==> #[trigger] es[j].0@ != key,
    ensures
        i >= 0 && es[i].0@ == key ==> entries_view(es).contains_key(key) && entries_view(es)[key]
            == object_view(es[i].1),
        i == -1 ==> !entries_view(es).contains_key(key),
    decreases es.len(),
{
    if es.len() > 0 {
        let last = es.len() - 1;
        if i < last {
            let pre = es.subrange(0, last);
            assert forall|j: int| i < j < pre.len() implies #[trigger] pre[j].0@ != key by {
                assert(pre[j] == es[j]);
            }
            lemma_entries_view_suffix(pre, i, key);
            if i >= 0 {
                assert(pre[i] == es[i]);
            }
        }
    }
}

// ---------------------------------------------------------------------------
// Object grammar over the tokens that a lemmatizer reads
// ---------------------------------------------------------------------------

/// Text of a string token, which must be UTF-8.
pub open spec fn utf8_text(b: Seq<u8>) -> Option<Seq<char>> {
    if valid_utf8(b) {
        Some(decode_utf8(b))
    } else {
        None
    }
}

/// An object that stands for one bare token inside an array.
pub open spec fn token_object(t: TokenV) -> Option<ObjectV> {
    match t {
        TokenV::DictBegin => Some(ObjectV::Dictionary(Map::empty())),
        TokenV::ArrayBegin => Some(ObjectV::Array(Seq::empty())),
        TokenV::Name(n) => Some(ObjectV::Name(n)),
        TokenV::Numeric(n) => Some(ObjectV::Numeric(n)),
        TokenV::String(b) => match utf8_text(b) {
            Some(c) => Some(ObjectV::String(c)),
            None => None,
        },
        TokenV::LitteralString(b) => match utf8_text(b) {
            Some(c) => Some(ObjectV::String(c)),
            None => None,
        },
        TokenV::HexString(h) => Some(ObjectV::HexString(h)),
        TokenV::IndirectRef(a, b) => Some(ObjectV::Ref(a, b)),
        _ => None,
    }
}

/// Elements of an array, from just after `[`: bare tokens up to `]` or to
/// where no token is read. Bytes that form no token are refused.
pub open spec fn parse_array(s: Seq<u8>, p: int, acc: Seq<ObjectV>) -> Option<(Seq<ObjectV>, int)>
    decreases s.len() - p,
{
    match lem(s, p) {
        Lexed::Tok(TokenV::ArrayEnd, q) => Some((acc, q)),
        Lexed::Tok(t, q) => if p < q <= s.len() {
            match token_object(t) {
                Some(o) => parse_array(s, q, acc.push(o)),
                None => None,
            }
        } else {
            None
        },
        Lexed::Fail => None,
        _ => Some((acc, s.len() as int)),
    }
}

/// A dictionary value that is one token.
pub open spec fn simple_value(t: TokenV) -> Option<ObjectV> {
    match t {
        TokenV::LitteralString(b) => match utf8_text(b) {
            Some(c) => Some(ObjectV::String(c)),
            None => None,
        },
        TokenV::String(b) => match utf8_text(b) {
            Some(c) => Some(ObjectV::Name(c)),
            None => None,
        },
        TokenV::HexString(h) => Some(ObjectV::HexString(h)),
        TokenV::Name(n) => Some(ObjectV::Name(n)),
        TokenV::Numeric(n) => Some(ObjectV::Numeric(n)),
        TokenV::IndirectRef(a, b) => Some(ObjectV::Ref(a, b)),
        _ => None,
    }
}

/// Entries of a dictionary, from just after `<<`: name and value pairs up to
/// `>>` or to where no token is read.
pub open spec fn parse_dict(s: Seq<u8>, p: int, acc: Map<Seq<char>, ObjectV>) -> Option<
    (Map<Seq<char>, ObjectV>, int),
>
    decreases s.len() - p,
{
    match lem(s, p) {
        Lexed::Tok(TokenV::DictEnd, q) => Some((acc, q)),
        Lexed::Tok(TokenV::Name(k), q) => if p < q <= s.len() {
            match lem(s, q) {
                Lexed::Tok(TokenV::DictBegin, q2) => if q < q2 <= s.len() {
                    match parse_dict(s, q2, Map::empty()) {
                        Some((m, q3)) => if p < q3 <= s.len() {
                            parse_dict(s, q3, acc.insert(k, ObjectV::Dictionary(m)))
                        } else {
                            None
                        },
                        None => None,
                    }
                } else {
                    None
                },
                Lexed::Tok(TokenV::ArrayBegin, q2) => if q < q2 <= s.len() {
                    match parse_array(s, q2, Seq::empty()) {
                        Some((a, q3)) => if p < q3 <= s.len() {
                            parse_dict(s, q3, acc.insert(k, ObjectV::Array(a)))
                        } else {
                            None
                        },
                        None => None,
                    }
                } else {
                    None
                },
                Lexed::Tok(t, q2) => if p < q2 <= s.len() {
                    match simple_value(t) {
                        Some(v) => parse_dict(s, q2, acc.insert(k, v)),
                        None => None,
                    }
                } else {
                    None
                },
                _ => None,
            }
        } else {
            None
        },
        Lexed::Tok(_, _) => None,
        Lexed::Fail => None,
        _ => Some((acc, s.len() as int)),
    }
}

pub open spec fn key_length() -> Seq<char> {
    seq!['L', 'e', 'n', 'g', 't', 'h']
}

/// Bytes of a stream whose data starts after the white space at `q` and is
/// `n` bytes long (or runs to the end of the input).
pub open spec fn stream_data(s: Seq<u8>, q: int, n: int) -> Option<Seq<u8>> {
    let r = skip_whitespace(s, q);
    if r < s.len() {
        Some(
            s.subrange(
                r,
                if r + n <= s.len() {
                    r + n
                } else {
                    s.len() as int
                },
            ),
        )
    } else {
        None
    }
}

/// What follows a dictionary `m` that ends at `q`: a stream, or nothing.
pub open spec fn dict_or_stream(s: Seq<u8>, m: Map<Seq<char>, ObjectV>, q: int) -> Option<
    (ObjectV, int),
> {
    match lem(s, q) {
        Lexed::Tok(TokenV::StreamBegin, q2) => {
            if m.contains_key(key_length()) && m[key_length()] is Numeric
                && m[key_length()]->Numeric_0 is Integer {
                let n = m[key_length()]->Numeric_0->Integer_0;
                match stream_data(s, q2, (n as usize) as int) {
                    Some(d) => Some((ObjectV::Stream(m, d), skip_whitespace(s, q2))),
                    None => None,
                }
            } else {
                None
            }
        },
        Lexed::Tok(_, q2) => Some((ObjectV::Dictionary(m), q2)),
        Lexed::Fail => None,
        _ => Some((ObjectV::Dictionary(m), s.len() as int)),
    }
}

/// The object that starts at `p`.
pub open spec fn parse_object(s: Seq<u8>, p: int) -> Option<(ObjectV, int)>
    decreases s.len() - p,
{
    match lem(s, p) {
        Lexed::Tok(TokenV::ObjBegin, q) => if p < q <= s.len() {
            parse_object(s, q)
        } else {
            None
        },
        Lexed::Tok(TokenV::DictBegin, q) => match parse_dict(s, q, Map::empty()) {
            Some((m, q2)) => dict_or_stream(s, m, q2),
            None => None,
        },
        Lexed::Tok(TokenV::Numeric(n), q) => Some((ObjectV::Numeric(n), q)),
        Lexed::Tok(TokenV::ArrayBegin, q) => match parse_array(s, q, Seq::empty()) {
            Some((a, q2)) => Some((ObjectV::Array(a), q2)),
            None => None,
        },
        _ => None,
    }
}

// ---------------------------------------------------------------------------
// Facts about the grammar
// ---------------------------------------------------------------------------

pub proof fn lemma_parse_array_advances(s: Seq<u8>, p: int, acc: Seq<ObjectV>)
    requires
        0 <= p <= s.len(),
    ensures
        parse_array(s, p, acc) matches Some((_, q)) ==> p <= q <= s.len(),
    decreases s.len() - p,
{
    lemma_lem_advances(s, p);
    match lem(s, p) {
        Lexed::Tok(TokenV::ArrayEnd, q) => {},
        Lexed::Tok(t, q) => {
            if p < q <= s.len() {
                match token_object(t) {
                    Some(o) => lemma_parse_array_advances(s, q, acc.push(o)),
                    None => {},
                }
            }
        },
        _ => {},
    }
}

pub proof fn lemma_parse_dict_advances(s: Seq<u8>, p: int, acc: Map<Seq<char>, ObjectV>)
    requires
        0 <= p <= s.len(),
    ensures
        parse_dict(s, p, acc) matches Some((_, q)) ==> p <= q <= s.len(),
    decreases s.len() - p,
{
    lemma_lem_advances(s, p);
    match lem(s, p) {
        Lexed::Tok(TokenV::Name(k), q) => {
            if p < q <= s.len() {
                lemma_lem_advances(s, q);
                match lem(s, q) {
                    Lexed::Tok(TokenV::DictBegin, q2) => {
                        if q < q2 <= s.len() {
                            match parse_dict(s, q2, Map::empty()) {
                                Some((m, q3)) => {
                                    if p < q3 <= s.len() {
                                        lemma_parse_dict_advances(
                                            s,
                                            q3,
                                            acc.insert(k, ObjectV::Dictionary(m)),
                                        );
                                    }
                                },
                                None => {},
                            }
                        }
                    },
                    Lexed::Tok(TokenV::ArrayBegin, q2) => {
                        if q < q2 <= s.len() {
                            match parse_array(s, q2, Seq::empty()) {
                                Some((a, q3)) => {
                                    if p < q3 <= s.len() {
                                        lemma_parse_dict_advances(
                                            s,
                                            q3,
                                            acc.insert(k, ObjectV::Array(a)),
                                        );
                                    }
                                },
                                None => {},
                            }
                        }
                    },
                    Lexed::Tok(t, q2) => {
                        if p < q2 <= s.len() {
                            match simple_value(t) {
                                Some(v) => lemma_parse_dict_advances(s, q2, acc.insert(k, v)),
                                None => {},
                            }
                        }
                    },
                    _ => {},
                }
            }
        },
        _ => {},
    }
}

} // verus!

verus! {

/// The bytes do not form the object that was expected.
#[derive(Debug, PartialEq)]
pub enum ObjectError {
    Malformed,
}

fn text_of(b: &Vec<u8>) -> (r: Option<String>)
    ensures
        match utf8_text(b@) {
            Some(c) => r is Some && r.unwrap()@ == c,
            None => r is None,
        },
{
    utf8_to_string(b.as_slice())
}

/// A dictionary value that is one token (see [`simple_value`]).
fn simple_value_of(t: Token) -> (r: Option<Object>)
    ensures
        match simple_value(t@) {
            Some(v) => r is Some && r.unwrap()@ == v,
            None => r is None,
        },
{
    match t {
        Token::LitteralString(b) => match text_of(&b) {
            Some(c) => Some(Object::String(c)),
            None => None,
        },
        Token::String(b) => match text_of(&b) {
            Some(c) => Some(Object::Name(c)),
            None => None,
        },
        Token::HexString(h) => Some(Object::HexString(h)),
        Token::Name(n) => Some(Object::Name(n)),
        Token::Numeric(n) => Some(Object::Numeric(n)),
        Token::IndirectRef(a, b) => Some(Object::Ref((a, b))),
        _ => None,
    }
}

impl Object {
    /// The object that one bare token stands for (see [`token_object`]).
    pub fn from_token(token: Token) -> (r: Result<Object, ObjectError>)
        ensures
            match token_object(token@) {
                Some(o) => r is Ok && r.unwrap()@ == o,
                None => r is Err,
            },
    {
        match token {
            Token::DictBegin => {
                let d = Dictionary::new();
                Ok(Object::Dictionary(d))
            },
            Token::ArrayBegin => {
                let a: Array = Vec::new();
                assert(array_view(a@) =~= Seq::<ObjectV>::empty());
                Ok(Object::Array(a))
            },
            Token::Name(n) => Ok(Object::Name(n)),
            Token::Numeric(n) => Ok(Object::Numeric(n)),
            Token::String(s) => match text_of(&s) {
                Some(c) => Ok(Object::String(c)),
                None => Err(ObjectError::Malformed),
            },
            Token::LitteralString(s) => match text_of(&s) {
                Some(c) => Ok(Object::String(c)),
                None => Err(ObjectError::Malformed),
            },
            Token::HexString(h) => Ok(Object::HexString(h)),
            Token::IndirectRef(a, b) => Ok(Object::Ref((a, b))),
            _ => Err(ObjectError::Malformed),
        }
    }
}

/// Reads the elements of an array, from just after `[` (see [`parse_array`]).
pub fn array_try_from(lem: &mut Lemmatizer) -> (r: Result<Array, ObjectError>)
    requires
        old(lem).wf(),
    ensures
        final(lem).wf(),
        final(lem).input() == old(lem).input(),
        match parse_array(old(lem).input(), old(lem).position(), Seq::empty()) {
            Some((a, q)) => r is Ok && array_view(r.unwrap()@) == a && final(lem).position() == q,
            None => r is Err,
        },
{
    let ghost s = lem.input();
    let ghost p0 = lem.position();
    let mut array: Array = Vec::new();
    assert(array_view(array@) =~= Seq::<ObjectV>::empty());
    loop
        invariant
            lem.wf(),
            lem.input() == s,
            s == old(lem).input(),
            p0 == old(lem).position(),
            parse_array(s, p0, Seq::empty()) == parse_array(s, lem.position(), array_view(array@)),
        decreases s.len() - lem.position(),
    {
        let ghost p = lem.position();
        proof {
            lemma_lem_advances(s, p);
        }
        match lem.try_next() {
            Ok(Some(Token::ArrayEnd)) => {
                return Ok(array);
            },
            Ok(Some(t)) => {
                match Object::from_token(t) {
                    Ok(o) => {
                        proof {
                            lemma_array_view_push(array@, o);
                        }
                        array.push(o);
                    },
                    Err(e) => {
                        return Err(e);
                    },
                }
            },
            Ok(None) => {
                return Ok(array);
            },
            Err(_) => {
                return Err(ObjectError::Malformed);
            },
        }
    }
}

impl Dictionary {
    /// Reads the entries of a dictionary, from just after `<<` (see
    /// [`parse_dict`]).
    pub fn try_from(lem: &mut Lemmatizer) -> (r: Result<Dictionary, ObjectError>)
        requires
            old(lem).wf(),
        ensures
            final(lem).wf(),
            final(lem).input() == old(lem).input(),
            match parse_dict(old(lem).input(), old(lem).position(), Map::empty()) {
                Some((m, q)) => r is Ok && r.unwrap()@ == m && final(lem).position() == q,
                None => r is Err,
            },
        decreases old(lem).input().len() - old(lem).position(),
    {
        let ghost s = lem.input();
        let ghost p0 = lem.position();
        let mut dict = Dictionary::new();
        loop
            invariant
                lem.wf(),
                lem.input() == s,
                s == old(lem).input(),
                p0 == old(lem).position(),
                p0 <= lem.position(),
                parse_dict(s, p0, Map::empty()) == parse_dict(s, lem.position(), dict@),
            decreases s.len() - lem.position(),
        {
            let ghost p = lem.position();
            proof {
                lemma_lem_advances(s, p);
            }
            match lem.try_next() {
                Ok(Some(Token::DictEnd)) => {
                    return Ok(dict);
                },
                Ok(Some(Token::Name(key))) => {
                    let ghost q = lem.position();
                    proof {
                        lemma_lem_advances(s, q);
                    }
                    let value = match lem.next_token() {
                        Some(Token::DictBegin) => {
                            let ghost q2 = lem.position();
                            proof {
                                lemma_parse_dict_advances(s, q2, Map::empty());
                            }
                            match Dictionary::try_from(lem) {
                                Ok(d) => Object::Dictionary(d),
                                Err(e) => {
                                    return Err(e);
                                },
                            }
                        },
                        Some(Token::ArrayBegin) => {
                            let ghost q2 = lem.position();
                            proof {
                                lemma_parse_array_advances(s, q2, Seq::empty());
                            }
                            match array_try_from(lem) {
                                Ok(a) => Object::Array(a),
                                Err(e) => {
                                    return Err(e);
                                },
                            }
                        },
                        Some(t) => match simple_value_of(t) {
                            Some(v) => v,
                            None => {
                                return Err(ObjectError::Malformed);
                            },
                        },
                        None => {
                            return Err(ObjectError::Malformed);
                        },
                    };
                    dict.insert(key, value);
                },
                Ok(Some(_)) => {
                    return Err(ObjectError::Malformed);
                },
                Ok(None) => {
                    return Ok(dict);
                },
                Err(_) => {
                    return Err(ObjectError::Malformed);
                },
            }
        }
    }
}

impl Object {
    /// Reads the object that starts at the lemmatizer's position (see
    /// [`parse_object`]). A stream's data is not consumed: the lemmatizer then
    /// stands where the data begins.
    pub fn try_from(lem: &mut Lemmatizer) -> (r: Result<Object, ObjectError>)
        requires
            old(lem).wf(),
        ensures
            final(lem).wf(),
            final(lem).input() == old(lem).input(),
            match parse_object(old(lem).input(), old(lem).position()) {
                Some((o, q)) => r is Ok && r.unwrap()@ == o && final(lem).position() == q,
                None => r is Err,
            },
    {
        let ghost s = lem.input();
        let ghost p0 = lem.position();
        loop
            invariant
                lem.wf(),
                lem.input() == s,
                s == old(lem).input(),
                p0 == old(lem).position(),
                parse_object(s, p0) == parse_object(s, lem.position()),
            decreases s.len() - lem.position(),
        {
            let ghost p = lem.position();
            proof {
                lemma_lem_advances(s, p);
            }
            match lem.next_token() {
                Some(Token::ObjBegin) => {},
                Some(Token::DictBegin) => {
                    let dict = Dictionary::try_from(lem)?;
                    return Self::dict_or_stream(dict, lem);
                },
                Some(Token::Numeric(n)) => {
                    return Ok(Object::Numeric(n));
                },
                Some(Token::ArrayBegin) => {
                    let a = array_try_from(lem)?;
                    return Ok(Object::Array(a));
                },
                _ => {
                    return Err(ObjectError::Malformed);
                },
            }
        }
    }

    fn dict_or_stream(dict: Dictionary, lem: &mut Lemmatizer) -> (r: Result<Object, ObjectError>)
        requires
            old(lem).wf(),
        ensures
            final(lem).wf(),
            final(lem).input() == old(lem).input(),
            match dict_or_stream(old(lem).input(), dict@, old(lem).position()) {
                Some((o, q)) => r is Ok && r.unwrap()@ == o && final(lem).position() == q,
                None => r is Err,
            },
    {
        match lem.try_next() {
            Ok(Some(Token::StreamBegin)) => {
                proof {
                    reveal_strlit("Length");
                }
                assert("Length"@ =~= key_length());
                let n: i32 = match dict.get("Length") {
                    Some(Object::Numeric(Number::Integer(n))) => *n,
                    Some(o) => {
                        assert(!(o@ is Numeric && o@->Numeric_0 is Integer));
                        return Err(ObjectError::Malformed);
                    },
                    None => {
                        return Err(ObjectError::Malformed);
                    },
                };
                match lem.next_n(#[verifier::truncate] (n as usize)) {
                    Some(data) => Ok(Object::Stream(Stream { header: dict, bytes: data })),
                    None => Err(ObjectError::Malformed),
                }
            },
            Err(_) => Err(ObjectError::Malformed),
            _ => Ok(Object::Dictionary(dict)),
        }
    }

    /// Reads the object that starts at `curr_idx` in `bytes`, which must be
    /// one (see [`parse_object`]).
    pub fn new(bytes: &[u8], curr_idx: usize) -> (r: Object)
        requires
            curr_idx <= bytes@.len(),
            parse_object(bytes@, curr_idx as int) is Some,
        ensures
            r@ == parse_object(bytes@, curr_idx as int).unwrap().0,
    {
        match Object::try_new(bytes, curr_idx) {
            Ok(o) => o,
            Err(_) => unreached(),
        }
    }

    /// Reads the object that starts at `curr_idx` in `bytes`.
    pub fn try_new(bytes: &[u8], curr_idx: usize) -> (r: Result<Object, ObjectError>)
        ensures
            curr_idx > bytes@.len() ==> r is Err,
            curr_idx <= bytes@.len() ==> match parse_object(bytes@, curr_idx as int) {
                Some((o, _)) => r is Ok && r.unwrap()@ == o,
                None => r is Err,
            },
    {
        if curr_idx > bytes.len() {
            return Err(ObjectError::Malformed);
        }
        let mut lem = Lemmatizer::new(bytes, curr_idx);
        Object::try_from(&mut lem)
    }

    /// Reads the object that starts where `tokenizer` stands, which must be
    /// one, leaving the tokenizer where it is.
    pub fn from_tokenizer(tokenizer: &Tokenizer) -> (r: Object)
        requires
            tokenizer.wf(),
            parse_object(tokenizer.input(), tokenizer.position()) is Some,
        ensures
            r@ == parse_object(tokenizer.input(), tokenizer.position()).unwrap().0,
    {
        match Object::try_from_tokenizer(tokenizer) {
            Ok(o) => o,
            Err(_) => unreached(),
        }
    }

    /// Reads the object that starts where `tokenizer` stands, leaving the
    /// tokenizer where it is.
    pub fn try_from_tokenizer(tokenizer: &Tokenizer) -> (r: Result<Object, ObjectError>)
        requires
            tokenizer.wf(),
        ensures
            match parse_object(tokenizer.input(), tokenizer.position()) {
                Some((o, _)) => r is Ok && r.unwrap()@ == o,
                None => r is Err,
            },
    {
        Object::try_new(tokenizer.bytes(), tokenizer.pos())
    }
}

impl Stream {
    /// A stream of dictionary `header` and data `bytes`.
    pub fn new(header: Dictionary, bytes: Vec<u8>) -> (r: Stream)
        ensures
            r.header@ == header@,
            r.bytes@ == bytes@,
    {
        Stream { header, bytes }
    }
}

} // verus!
