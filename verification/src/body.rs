use vstd::prelude::*;

use crate::algebra::{duplicate_numbers, numbers_view, Number, NumberV};
use crate::cmap::{cmap_codes, ToUnicodeCMap};
use crate::info::opt_view;
use crate::filters::{decode_buffer, flate_decode, zlib_read};
use crate::object::{
    array_view, entries_view, lemma_array_view, lemma_entries_view_keys, object_view, Array, Dictionary,
    parse_object, Name, Object, ObjectV,
};
use crate::lemmatizer::{lem, lemma_lem_advances, Lemmatizer};
use crate::tokenizer::{slice_to_vec, Lexed, Token, TokenV};
use std::collections::HashMap;
use crate::object::Stream as StreamObject;

verus! {

broadcast use vstd::std_specs::hash::group_hash_axioms;

// ---------------------------------------------------------------------------
// Document structure (PDF reference, section 3.6)
// ---------------------------------------------------------------------------

/// A dictionary of the document structure lacks an entry, holds one of the
/// wrong kind, or asks for what is not supported.
#[derive(Debug, PartialEq)]
pub enum BodyError {
    Malformed,
    Unsupported,
    /// Stream data that cannot be decompressed.
    Corrupt,
}

/// A value given in place, or by reference to an indirect object.
#[derive(Debug, PartialEq)]
pub enum Indirect<T> {
    Ref(i32, i32),
    T(T),
}

/// Mathematical model of an [`Indirect`].
pub enum IndirectV<V> {
    Ref(i32, i32),
    T(V),
}

impl<T: View> View for Indirect<T> {
    type V = IndirectV<T::V>;

    open spec fn view(&self) -> IndirectV<T::V> {
        match self {
            Indirect::Ref(a, b) => IndirectV::Ref(*a, *b),
            Indirect::T(t) => IndirectV::T(t@),
        }
    }
}

// ---------------------------------------------------------------------------
// Entries of a dictionary
// ---------------------------------------------------------------------------

/// An optional entry that must be a name: `Some(None)` where it is absent,
/// `None` where it is not a name.
pub open spec fn opt_name(m: Map<Seq<char>, ObjectV>, key: Seq<char>) -> Option<Option<Seq<char>>> {
    if !m.contains_key(key) {
        Some(None)
    } else {
        match m[key] {
            ObjectV::Name(n) => Some(Some(n)),
            _ => None,
        }
    }
}

/// A required entry that must be a name.
pub open spec fn req_name(m: Map<Seq<char>, ObjectV>, key: Seq<char>) -> Option<Seq<char>> {
    if m.contains_key(key) {
        match m[key] {
            ObjectV::Name(n) => Some(n),
            _ => None,
        }
    } else {
        None
    }
}

/// An optional entry that must be a number.
pub open spec fn opt_number(m: Map<Seq<char>, ObjectV>, key: Seq<char>) -> Option<Option<NumberV>> {
    if !m.contains_key(key) {
        Some(None)
    } else {
        match m[key] {
            ObjectV::Numeric(n) => Some(Some(n)),
            _ => None,
        }
    }
}

/// An optional entry that must be an indirect reference.
pub open spec fn opt_ref(m: Map<Seq<char>, ObjectV>, key: Seq<char>) -> Option<Option<(i32, i32)>> {
    if !m.contains_key(key) {
        Some(None)
    } else {
        match m[key] {
            ObjectV::Ref(a, b) => Some(Some((a, b))),
            _ => None,
        }
    }
}

/// The numbers of an array that holds only numbers.
pub open spec fn all_numbers(a: Seq<ObjectV>) -> Option<Seq<NumberV>> {
    if forall|j: int| 0 <= j < a.len() ==> #[trigger] a[j] is Numeric {
        Some(a.map_values(|o: ObjectV| o->Numeric_0))
    } else {
        None
    }
}

/// The references of an array that holds only indirect references.
pub open spec fn all_refs(a: Seq<ObjectV>) -> Option<Seq<(i32, i32)>> {
    if forall|j: int| 0 <= j < a.len() ==> #[trigger] a[j] is Ref {
        Some(a.map_values(|o: ObjectV| (o->Ref_0, o->Ref_1)))
    } else {
        None
    }
}

/// `n` holds the text `lit`.
fn name_is(n: &String, lit: &str) -> (r: bool)
    ensures
        r == (n@ == lit@),
{
    let l = lit.to_string();
    proof {
        broadcast use vstd::string::to_string_from_display_ensures_for_str;
    }
    *n == l
}

fn opt_name_value(d: &Dictionary, key: &str) -> (r: Result<Option<Name>, BodyError>)
    ensures
        match opt_name(d@, key@) {
            Some(v) => r is Ok && opt_view(r.unwrap()) == v,
            None => r == Err::<Option<Name>, BodyError>(BodyError::Malformed),
        },
{
    match d.get(key) {
        None => Ok(None),
        Some(Object::Name(n)) => Ok(Some(n.clone())),
        Some(_) => Err(BodyError::Malformed),
    }
}

fn req_name_value(d: &Dictionary, key: &str) -> (r: Result<Name, BodyError>)
    ensures
        match req_name(d@, key@) {
            Some(v) => r is Ok && r.unwrap()@ == v,
            None => r == Err::<Name, BodyError>(BodyError::Malformed),
        },
{
    match d.get(key) {
        Some(Object::Name(n)) => Ok(n.clone()),
        _ => Err(BodyError::Malformed),
    }
}

pub open spec fn opt_number_view(o: Option<Number>) -> Option<NumberV> {
    match o {
        Some(n) => Some(n@),
        None => None,
    }
}

pub(crate) fn opt_number_value(d: &Dictionary, key: &str) -> (r: Result<Option<Number>, BodyError>)
    ensures
        match opt_number(d@, key@) {
            Some(v) => r is Ok && opt_number_view(r.unwrap()) == v,
            None => r == Err::<Option<Number>, BodyError>(BodyError::Malformed),
        },
{
    match d.get(key) {
        None => Ok(None),
        Some(Object::Numeric(n)) => Ok(Some(n.duplicate())),
        Some(_) => Err(BodyError::Malformed),
    }
}

/// The numbers of an array that holds only numbers.
pub(crate) fn numbers_of(a: &Array) -> (r: Option<Vec<Number>>)
    ensures
        match all_numbers(array_view(a@)) {
            Some(ns) => r is Some && numbers_view(r.unwrap()@) == ns,
            None => r is None,
        },
{
    let ghost av = array_view(a@);
    proof {
        lemma_array_view(a@);
    }
    let mut out: Vec<Number> = Vec::new();
    let mut i: usize = 0;
    while i < a.len()
        invariant
            av == array_view(a@),
            av.len() == a@.len(),
            forall|j: int| 0 <= j < a@.len() ==> #[trigger] av[j] == object_view(a@[j]),
            i <= a@.len(),
            out@.len() == i,
            forall|j: int| 0 <= j < i ==> #[trigger] av[j] is Numeric,
            forall|j: int| 0 <= j < i ==> #[trigger] out@[j]@ == av[j]->Numeric_0,
        decreases a@.len() - i,
    {
        assert(av[i as int] == object_view(a@[i as int]));
        match &a[i] {
            Object::Numeric(n) => {
                out.push(n.duplicate());
            },
            _ => {
                return None;
            },
        }
        i = i + 1;
    }
    assert(numbers_view(out@) =~= av.map_values(|o: ObjectV| o->Numeric_0));
    Some(out)
}

/// The references of an array that holds only indirect references.
fn refs_of(a: &Array) -> (r: Option<Vec<(i32, i32)>>)
    ensures
        match all_refs(array_view(a@)) {
            Some(rs) => r is Some && r.unwrap()@ == rs,
            None => r is None,
        },
{
    let ghost av = array_view(a@);
    proof {
        lemma_array_view(a@);
    }
    let mut out: Vec<(i32, i32)> = Vec::new();
    let mut i: usize = 0;
    while i < a.len()
        invariant
            av == array_view(a@),
            av.len() == a@.len(),
            forall|j: int| 0 <= j < a@.len() ==> #[trigger] av[j] == object_view(a@[j]),
            i <= a@.len(),
            out@.len() == i,
            forall|j: int| 0 <= j < i ==> #[trigger] av[j] is Ref,
            forall|j: int| 0 <= j < i ==> #[trigger] out@[j] == (av[j]->Ref_0, av[j]->Ref_1),
        decreases a@.len() - i,
    {
        assert(av[i as int] == object_view(a@[i as int]));
        match &a[i] {
            Object::Ref((x, y)) => {
                out.push((*x, *y));
            },
            _ => {
                return None;
            },
        }
        i = i + 1;
    }
    assert(out@ =~= av.map_values(|o: ObjectV| (o->Ref_0, o->Ref_1)));
    Some(out)
}

// ---------------------------------------------------------------------------
// Rectangles and filters
// ---------------------------------------------------------------------------

/// A rectangle: the coordinates of two opposite corners.
#[derive(Debug, PartialEq)]
pub struct Rectangle(pub [Number; 4]);

impl Rectangle {
    /// The rectangle of an array of four numbers.
    pub fn from(array: Array) -> (r: Rectangle)
        requires
            all_numbers(array_view(array@)) matches Some(ns) && ns.len() == 4,
        ensures
            Some(numbers_view(r.0@)) == all_numbers(array_view(array@)),
    {
        match Rectangle::try_from(array) {
            Ok(x) => x,
            Err(_) => unreached(),
        }
    }

    /// The rectangle an array of four numbers gives (see [`all_numbers`]).
    pub fn try_from(array: Array) -> (r: Result<Rectangle, BodyError>)
        ensures
            match all_numbers(array_view(array@)) {
                Some(ns) => if ns.len() == 4 {
                    r is Ok && numbers_view(r.unwrap().0@) == ns
                } else {
                    r == Err::<Rectangle, BodyError>(BodyError::Malformed)
                },
                None => r == Err::<Rectangle, BodyError>(BodyError::Malformed),
            },
    {
        proof {
            lemma_array_view(array@);
        }
        if array.len() != 4 {
            return Err(BodyError::Malformed);
        }
        match numbers_of(&array) {
            Some(ns) => {
                assert(numbers_view(ns@).len() == 4);
                let d = ns[3].duplicate();
                let c = ns[2].duplicate();
                let b = ns[1].duplicate();
                let a = ns[0].duplicate();
                let value = [a, b, c, d];
                assert(numbers_view(value@) =~= numbers_view(ns@));
                Ok(Rectangle(value))
            },
            None => Err(BodyError::Malformed),
        }
    }
}

/// A stream filter that can be decoded.
#[derive(Debug, PartialEq, Clone, Copy)]
pub enum Filter {
    FlateDecode,
}

impl Filter {
    /// The filter of a name, which must be `FlateDecode`.
    pub fn from(value: Name) -> (r: Filter)
        requires
            value@ == "FlateDecode"@,
        ensures
            r == Filter::FlateDecode,
    {
        match Filter::try_from(value) {
            Ok(x) => x,
            Err(_) => unreached(),
        }
    }

    /// The filter of a name: only `FlateDecode` is supported.
    pub fn try_from(value: Name) -> (r: Result<Filter, BodyError>)
        ensures
            value@ == "FlateDecode"@ ==> r == Ok::<Filter, BodyError>(Filter::FlateDecode),
            value@ != "FlateDecode"@ ==> r == Err::<Filter, BodyError>(BodyError::Unsupported),
    {
        if name_is(&value, "FlateDecode") {
            Ok(Filter::FlateDecode)
        } else {
            Err(BodyError::Unsupported)
        }
    }
}

// ---------------------------------------------------------------------------
// Fonts (PDF reference, section 5.5)
// ---------------------------------------------------------------------------

/// A font dictionary.
#[derive(Debug, PartialEq)]
pub struct Font {
    pub subtype: Name,
    pub name: Option<Name>,
    pub base_font: Name,
    /// First character code of the widths array (an integer).
    pub first_char: Option<Number>,
    /// Last character code of the widths array (an integer).
    pub last_char: Option<Number>,
    pub widths: Option<Indirect<Vec<Number>>>,
    pub to_unicode: Option<Indirect<ToUnicodeCMap>>,
    pub encoding: Option<Name>,
}

/// Mathematical model of a [`Font`]; a ToUnicode CMap given in place is
/// modelled by the codes it maps (see [`cmap_codes`]).
pub struct FontV {
    pub subtype: Seq<char>,
    pub name: Option<Seq<char>>,
    pub base_font: Seq<char>,
    pub first_char: Option<NumberV>,
    pub last_char: Option<NumberV>,
    pub widths: Option<IndirectV<Seq<NumberV>>>,
    pub to_unicode: Option<IndirectV<(bool, Map<usize, char>)>>,
    pub encoding: Option<Seq<char>>,
}

pub open spec fn widths_view(w: Option<Indirect<Vec<Number>>>) -> Option<IndirectV<Seq<NumberV>>> {
    match w {
        Some(Indirect::Ref(a, b)) => Some(IndirectV::Ref(a, b)),
        Some(Indirect::T(v)) => Some(IndirectV::T(numbers_view(v@))),
        None => None,
    }
}

pub open spec fn to_unicode_view(t: Option<Indirect<ToUnicodeCMap>>) -> Option<IndirectV<(bool, Map<usize, char>)>> {
    match t {
        Some(Indirect::Ref(a, b)) => Some(IndirectV::Ref(a, b)),
        Some(Indirect::T(c)) => Some(IndirectV::T(cmap_codes(c))),
        None => None,
    }
}

impl View for Font {
    type V = FontV;

    open spec fn view(&self) -> FontV {
        FontV {
            subtype: self.subtype@,
            name: opt_view(self.name),
            base_font: self.base_font@,
            first_char: opt_number_view(self.first_char),
            last_char: opt_number_view(self.last_char),
            widths: widths_view(self.widths),
            to_unicode: to_unicode_view(self.to_unicode),
            encoding: opt_view(self.encoding),
        }
    }
}

/// The `Widths` entry: absent, a reference, or an array of numbers.
pub open spec fn widths_entry(m: Map<Seq<char>, ObjectV>) -> Option<Option<IndirectV<Seq<NumberV>>>> {
    if !m.contains_key("Widths"@) {
        Some(None)
    } else {
        match m["Widths"@] {
            ObjectV::Ref(a, b) => Some(Some(IndirectV::Ref(a, b))),
            ObjectV::Array(a) => match all_numbers(a) {
                Some(ns) => Some(Some(IndirectV::T(ns))),
                None => None,
            },
            _ => None,
        }
    }
}

/// The `Encoding` entry where it is a name; an encoding dictionary is not
/// read.
pub open spec fn encoding_entry(m: Map<Seq<char>, ObjectV>) -> Option<Seq<char>> {
    if m.contains_key("Encoding"@) {
        match m["Encoding"@] {
            ObjectV::Name(n) => Some(n),
            _ => None,
        }
    } else {
        None
    }
}

/// The font that a font dictionary `m` describes: its `Type` is the name
/// `Font`, its `Subtype` and `BaseFont` are names, and each optional entry
/// read has the kind it must have.
pub open spec fn font_of(m: Map<Seq<char>, ObjectV>) -> Option<FontV> {
    if req_name(m, "Type"@) != Some("Font"@) {
        None
    } else {
        match (
            req_name(m, "Subtype"@),
            opt_name(m, "Name"@),
            req_name(m, "BaseFont"@),
            opt_number(m, "FirstChar"@),
            opt_number(m, "LastChar"@),
            widths_entry(m),
            opt_ref(m, "ToUnicode"@),
        ) {
            (Some(st), Some(n), Some(bf), Some(fc), Some(lc), Some(w), Some(tu)) => Some(
                FontV {
                    subtype: st,
                    name: n,
                    base_font: bf,
                    first_char: fc,
                    last_char: lc,
                    widths: w,
                    to_unicode: match tu {
                        Some((a, b)) => Some(IndirectV::Ref(a, b)),
                        None => None,
                    },
                    encoding: encoding_entry(m),
                },
            ),
            _ => None,
        }
    }
}

/// The width of character code `c` in a widths array `ws` that starts at
/// the integer code `first`: `None` before `first` or past the array.
pub open spec fn width_entry(first: Option<NumberV>, ws: Seq<NumberV>, c: u8) -> Option<NumberV> {
    match first {
        Some(NumberV::Integer(f)) => if (c as int) < f || c - f >= ws.len() {
            None
        } else {
            Some(ws[c - f])
        },
        _ => None,
    }
}

fn opt_string_copy(o: &Option<String>) -> (r: Option<String>)
    ensures
        opt_view(r) == opt_view(*o),
{
    match o {
        Some(s) => Some(s.clone()),
        None => None,
    }
}

fn opt_number_copy(o: &Option<Number>) -> (r: Option<Number>)
    ensures
        opt_number_view(r) == opt_number_view(*o),
{
    match o {
        Some(n) => Some(n.duplicate()),
        None => None,
    }
}

impl Font {
    /// A copy of this font.
    pub fn duplicate(&self) -> (r: Font)
        ensures
            r@ == self@,
    {
        let widths = match &self.widths {
            Some(Indirect::Ref(a, b)) => Some(Indirect::Ref(*a, *b)),
            Some(Indirect::T(v)) => Some(Indirect::T(duplicate_numbers(v))),
            None => None,
        };
        let to_unicode = match &self.to_unicode {
            Some(Indirect::Ref(a, b)) => Some(Indirect::Ref(*a, *b)),
            Some(Indirect::T(c)) => Some(Indirect::T(c.duplicate())),
            None => None,
        };
        Font {
            subtype: self.subtype.clone(),
            name: opt_string_copy(&self.name),
            base_font: self.base_font.clone(),
            first_char: opt_number_copy(&self.first_char),
            last_char: opt_number_copy(&self.last_char),
            widths,
            to_unicode,
            encoding: opt_string_copy(&self.encoding),
        }
    }

    /// The width of character code `c`, in thousandths of a text space unit,
    /// in the widths array `widths` of this font (see [`width_entry`]). The
    /// first character code must be an integer: a real one is turned into an
    /// offset by floating-point conversion, which is left to the caller.
    pub fn width_of(&self, c: u8, widths: &Vec<Number>) -> (r: Result<Number, BodyError>)
        requires
            self@.first_char matches Some(NumberV::Integer(_)),
        ensures
            match width_entry(self@.first_char, numbers_view(widths@), c) {
                Some(w) => r is Ok && r.unwrap()@ == w,
                None => r == Err::<Number, BodyError>(BodyError::Malformed),
            },
    {
        match &self.first_char {
            Some(Number::Integer(first)) => {
                if (c as i32) < *first {
                    return Err(BodyError::Malformed);
                }
                let offset = (c as i64 - *first as i64) as usize;
                if offset >= widths.len() {
                    return Err(BodyError::Malformed);
                }
                assert(numbers_view(widths@)[offset as int] == widths@[offset as int]@);
                Ok(widths[offset].duplicate())
            },
            _ => Err(BodyError::Malformed),
        }
    }

    /// The font that an object describes, which must be a font dictionary
    /// (see [`font_of`]).
    pub fn from_object(value: Object) -> (r: Font)
        requires
            value@ matches ObjectV::Dictionary(m) && font_of(m) is Some,
        ensures
            value@ matches ObjectV::Dictionary(m) && r@ == font_of(m).unwrap(),
    {
        match Font::try_from_object(value) {
            Ok(f) => f,
            Err(_) => unreached(),
        }
    }

    /// The font that a font dictionary describes (see [`font_of`]).
    pub fn from(value: Dictionary) -> (r: Font)
        requires
            font_of(value@) is Some,
        ensures
            r@ == font_of(value@).unwrap(),
    {
        match Font::try_from(value) {
            Ok(f) => f,
            Err(_) => unreached(),
        }
    }

    /// The font that an object describes, or why it is not a font dictionary
    /// (see [`font_of`]).
    pub fn try_from_object(value: Object) -> (r: Result<Font, BodyError>)
        ensures
            match value@ {
                ObjectV::Dictionary(m) => match font_of(m) {
                    Some(f) => r is Ok && r.unwrap()@ == f,
                    None => r == Err::<Font, BodyError>(BodyError::Malformed),
                },
                _ => r == Err::<Font, BodyError>(BodyError::Malformed),
            },
    {
        match value {
            Object::Dictionary(d) => Font::try_from(d),
            _ => Err(BodyError::Malformed),
        }
    }

    /// The font that a font dictionary describes, or why it does not
    /// describe one (see [`font_of`]).
    pub fn try_from(value: Dictionary) -> (r: Result<Font, BodyError>)
        ensures
            match font_of(value@) {
                Some(f) => r is Ok && r.unwrap()@ == f,
                None => r == Err::<Font, BodyError>(BodyError::Malformed),
            },
    {
        match value.get("Type") {
            Some(Object::Name(t)) => {
                if !name_is(t, "Font") {
                    return Err(BodyError::Malformed);
                }
            },
            _ => {
                return Err(BodyError::Malformed);
            },
        }
        let subtype = req_name_value(&value, "Subtype")?;
        let name = opt_name_value(&value, "Name")?;
        let base_font = req_name_value(&value, "BaseFont")?;
        let first_char = opt_number_value(&value, "FirstChar")?;
        let last_char = opt_number_value(&value, "LastChar")?;
        let widths = match value.get("Widths") {
            Some(Object::Ref((obj, gen))) => Some(Indirect::Ref(*obj, *gen)),
            Some(Object::Array(a)) => match numbers_of(a) {
                Some(ns) => Some(Indirect::T(ns)),
                None => {
                    return Err(BodyError::Malformed);
                },
            },
            Some(_) => {
                return Err(BodyError::Malformed);
            },
            None => None,
        };
        let to_unicode = match value.get("ToUnicode") {
            Some(Object::Ref((obj, gen))) => Some(Indirect::Ref(*obj, *gen)),
            None => None,
            Some(_) => {
                return Err(BodyError::Malformed);
            },
        };
        let encoding = match value.get("Encoding") {
            Some(Object::Name(n)) => Some(n.clone()),
            _ => None,
        };
        Ok(Font { subtype, name, base_font, first_char, last_char, widths, to_unicode, encoding })
    }
}

// ---------------------------------------------------------------------------
// Font maps and resources (PDF reference, section 3.7.2)
// ---------------------------------------------------------------------------

/// The fonts of a resource dictionary, by name. A name given twice maps to
/// its last font.
#[derive(Debug, PartialEq)]
pub struct FontMap(pub Vec<(Name, Indirect<Font>)>);

pub open spec fn font_entries_view(es: Seq<(Name, Indirect<Font>)>) -> Map<Seq<char>, IndirectV<FontV>>
    decreases es.len(),
{
    if es.len() == 0 {
        Map::empty()
    } else {
        font_entries_view(es.drop_last()).insert(es.last().0@, es.last().1@)
    }
}

impl View for FontMap {
    type V = Map<Seq<char>, IndirectV<FontV>>;

    open spec fn view(&self) -> Map<Seq<char>, IndirectV<FontV>> {
        font_entries_view(self.0@)
    }
}

/// The font map of a font dictionary `m`, whose values must all be indirect
/// references.
pub open spec fn font_map_of(m: Map<Seq<char>, ObjectV>) -> Option<Map<Seq<char>, IndirectV<FontV>>> {
    if forall|k: Seq<char>| m.contains_key(k) ==> (#[trigger] m[k]) is Ref {
        Some(m.map_values(|o: ObjectV| IndirectV::<FontV>::Ref(o->Ref_0, o->Ref_1)))
    } else {
        None
    }
}

impl FontMap {
    /// The font map of a font dictionary, whose values must all be references
    /// (see [`font_map_of`]).
    pub fn from(value: Dictionary) -> (r: FontMap)
        requires
            font_map_of(value@) is Some,
        ensures
            Some(r@) == font_map_of(value@),
    {
        match FontMap::try_from(value) {
            Ok(x) => x,
            Err(_) => unreached(),
        }
    }

    /// The font map of a font dictionary (see [`font_map_of`]).
    pub fn try_from(value: Dictionary) -> (r: Result<FontMap, BodyError>)
        ensures
            match font_map_of(value@) {
                Some(fm) => r is Ok && r.unwrap()@ == fm,
                None => r == Err::<FontMap, BodyError>(BodyError::Malformed),
            },
    {
        FontMap::from_dict(&value)
    }

    /// The font map of an object, which must be a font dictionary whose values
    /// are all references.
    pub fn from_object(value: Object) -> (r: FontMap)
        requires
            value@ matches ObjectV::Dictionary(m) && font_map_of(m) is Some,
        ensures
            value@ matches ObjectV::Dictionary(m) && Some(r@) == font_map_of(m),
    {
        match FontMap::try_from_object(value) {
            Ok(x) => x,
            Err(_) => unreached(),
        }
    }

    /// The font map of an object, which must be a font dictionary.
    pub fn try_from_object(value: Object) -> (r: Result<FontMap, BodyError>)
        ensures
            match value@ {
                ObjectV::Dictionary(m) => match font_map_of(m) {
                    Some(fm) => r is Ok && r.unwrap()@ == fm,
                    None => r == Err::<FontMap, BodyError>(BodyError::Malformed),
                },
                _ => r == Err::<FontMap, BodyError>(BodyError::Malformed),
            },
    {
        match value {
            Object::Dictionary(d) => FontMap::from_dict(&d),
            _ => Err(BodyError::Malformed),
        }
    }

    fn from_dict(value: &Dictionary) -> (r: Result<FontMap, BodyError>)
        ensures
            match font_map_of(value@) {
                Some(fm) => r is Ok && r.unwrap()@ == fm,
                None => r == Err::<FontMap, BodyError>(BodyError::Malformed),
            },
    {
        let ghost m = value@;
        let ghost es = value.entries@;
        let n = value.entries.len();
        let mut out: Vec<(Name, Indirect<Font>)> = Vec::new();
        let mut i: usize = 0;
        proof {
            lemma_entries_view_keys(es);
        }
        while i < n
            invariant
                m == value@,
                es == value.entries@,
                m == entries_view(es),
                n == es.len(),
                i <= n,
                forall|k: Seq<char>| #[trigger]
                    entries_view(es).contains_key(k) <==> exists|j: int| 0 <= j < es.len() && (#[trigger] es[j]).0@ == k,
                forall|j: int| 0 <= j < i ==> (#[trigger] m[es[j].0@]) is Ref,
                forall|k: Seq<char>| #[trigger]
                    font_entries_view(out@).contains_key(k) <==> exists|j: int| 0 <= j < i && (#[trigger] es[j]).0@ == k,
                forall|k: Seq<char>| #[trigger] font_entries_view(out@).contains_key(k) ==> font_entries_view(out@)[k]
                    == IndirectV::<FontV>::Ref(m[k]->Ref_0, m[k]->Ref_1),
            decreases n - i,
        {
            let key = &value.entries[i].0;
            assert(es[i as int].0@ == key@);
            match value.get(key.as_str()) {
                Some(Object::Ref((a, b))) => {
                    let ghost before = out@;
                    out.push((key.clone(), Indirect::Ref(*a, *b)));
                    assert(out@.drop_last() =~= before);
                    assert(font_entries_view(out@) == font_entries_view(before).insert(
                        key@,
                        IndirectV::<FontV>::Ref(*a, *b),
                    ));
                    assert(m[key@] == ObjectV::Ref(*a, *b));
                    assert forall|k: Seq<char>| #[trigger]
                        font_entries_view(out@).contains_key(k) <==> exists|j: int|
                            0 <= j < i + 1 && (#[trigger] es[j]).0@ == k by {
                        if exists|j: int| 0 <= j < i + 1 && (#[trigger] es[j]).0@ == k {
                            let j = choose|j: int| 0 <= j < i + 1 && (#[trigger] es[j]).0@ == k;
                            if j < i {
                                assert(font_entries_view(before).contains_key(k));
                            }
                        }
                        if font_entries_view(out@).contains_key(k) && k != key@ {
                            assert(font_entries_view(before).contains_key(k));
                        }
                    }
                },
                _ => {
                    return Err(BodyError::Malformed);
                },
            }
            i = i + 1;
        }
        assert(font_entries_view(out@) =~= m.map_values(
            |o: ObjectV| IndirectV::<FontV>::Ref(o->Ref_0, o->Ref_1),
        ));
        Ok(FontMap(out))
    }

    /// A copy of this font map.
    pub fn duplicate(&self) -> (r: FontMap)
        ensures
            r@ == self@,
    {
        let mut out: Vec<(Name, Indirect<Font>)> = Vec::new();
        let mut i: usize = 0;
        while i < self.0.len()
            invariant
                i <= self.0@.len(),
                font_entries_view(out@) == font_entries_view(self.0@.subrange(0, i as int)),
            decreases self.0@.len() - i,
        {
            let (name, f) = &self.0[i];
            let g = match f {
                Indirect::Ref(a, b) => Indirect::Ref(*a, *b),
                Indirect::T(font) => Indirect::T(font.duplicate()),
            };
            let ghost before = out@;
            out.push((name.clone(), g));
            assert(out@.drop_last() =~= before);
            assert(self.0@.subrange(0, i + 1).drop_last() =~= self.0@.subrange(0, i as int));
            i = i + 1;
        }
        assert(self.0@.subrange(0, self.0@.len() as int) =~= self.0@);
        FontMap(out)
    }

    /// The font of `name`.
    pub fn get(&self, name: &str) -> (r: Option<&Indirect<Font>>)
        ensures
            r matches Some(f) ==> self@.contains_key(name@) && f@ == self@[name@],
            r is None ==> !self@.contains_key(name@),
    {
        let k = name.to_string();
        proof {
            broadcast use vstd::string::to_string_from_display_ensures_for_str;
        }
        let mut i = self.0.len();
        while i > 0
            invariant
                i <= self.0@.len(),
                k@ == name@,
                forall|j: int| i <= j < self.0@.len() ==> #[trigger] self.0@[j].0@ != name@,
            decreases i,
        {
            let e = &self.0[i - 1];
            if e.0 == k {
                proof {
                    lemma_font_entries_suffix(self.0@, i - 1, name@);
                }
                return Some(&e.1);
            }
            i = i - 1;
        }
        proof {
            lemma_font_entries_suffix(self.0@, -1, name@);
        }
        None
    }
}

/// The names of a font map are those of its entries.
pub proof fn lemma_font_entries_keys(es: Seq<(Name, Indirect<Font>)>)
    ensures
        forall|k: Seq<char>| #[trigger]
            font_entries_view(es).contains_key(k) <==> exists|j: int| 0 <= j < es.len() && (#[trigger] es[j]).0@ == k,
    decreases es.len(),
{
    if es.len() > 0 {
        let last = es.len() - 1;
        let pre = es.drop_last();
        lemma_font_entries_keys(pre);
        assert forall|k: Seq<char>| #[trigger]
            font_entries_view(es).contains_key(k) <==> exists|j: int| 0 <= j < es.len() && (#[trigger] es[j]).0@ == k by {
            if font_entries_view(es).contains_key(k) {
                if k == es[last].0@ {
                    assert(es[last].0@ == k);
                } else {
                    assert(font_entries_view(pre).contains_key(k));
                    let j = choose|j: int| 0 <= j < pre.len() && (#[trigger] pre[j]).0@ == k;
                    assert(es[j] == pre[j]);
                }
            }
            if exists|j: int| 0 <= j < es.len() && (#[trigger] es[j]).0@ == k {
                let j = choose|j: int| 0 <= j < es.len() && (#[trigger] es[j]).0@ == k;
                if j < last {
                    assert(pre[j] == es[j]);
                    assert(font_entries_view(pre).contains_key(k));
                }
            }
        }
    }
}

/// What a name maps to is decided by its last entry.
proof fn lemma_font_entries_suffix(es: Seq<(Name, Indirect<Font>)>, i: int, key: Seq<char>)
    requires
        -1 <= i < es.len(),
        forall|j: int| i < j < es.len() ==> #[trigger] es[j].0@ != key,
    ensures
        i >= 0 && es[i].0@ == key ==> font_entries_view(es).contains_key(key)
            && font_entries_view(es)[key] == es[i].1@,
        i == -1 ==> !font_entries_view(es).contains_key(key),
    decreases es.len(),
{
    if es.len() > 0 {
        let last = es.len() - 1;
        if i < last {
            let pre = es.drop_last();
            assert forall|j: int| i < j < pre.len() implies #[trigger] pre[j].0@ != key by {
                assert(pre[j] == es[j]);
            }
            lemma_font_entries_suffix(pre, i, key);
            if i >= 0 {
                assert(pre[i] == es[i]);
            }
        }
    }
}

/// The resources of a page (only its fonts are read).
#[derive(Debug, PartialEq)]
pub struct Resources {
    pub font: Option<Indirect<FontMap>>,
}

/// Mathematical model of [`Resources`].
pub struct ResourcesV {
    pub font: Option<IndirectV<Map<Seq<char>, IndirectV<FontV>>>>,
}

impl View for Resources {
    type V = ResourcesV;

    open spec fn view(&self) -> ResourcesV {
        ResourcesV {
            font: match self.font {
                Some(f) => Some(f@),
                None => None,
            },
        }
    }
}

/// The resources of a resource dictionary `m`: its `Font` entry is absent, a
/// reference, or a font dictionary.
pub open spec fn resources_of(m: Map<Seq<char>, ObjectV>) -> Option<ResourcesV> {
    if !m.contains_key("Font"@) {
        Some(ResourcesV { font: None })
    } else {
        match m["Font"@] {
            ObjectV::Ref(a, b) => Some(ResourcesV { font: Some(IndirectV::Ref(a, b)) }),
            ObjectV::Dictionary(fm) => match font_map_of(fm) {
                Some(f) => Some(ResourcesV { font: Some(IndirectV::T(f)) }),
                None => None,
            },
            _ => None,
        }
    }
}

impl Resources {
    /// A copy of these resources.
    pub fn duplicate(&self) -> (r: Resources)
        ensures
            r@ == self@,
    {
        let font = match &self.font {
            Some(Indirect::Ref(a, b)) => Some(Indirect::Ref(*a, *b)),
            Some(Indirect::T(fm)) => Some(Indirect::T(fm.duplicate())),
            None => None,
        };
        Resources { font }
    }

    /// The resources of the dictionary at the start of `bytes`, which must be a
    /// resource dictionary (see [`resources_of`]).
    pub fn new(bytes: &[u8]) -> (r: Resources)
        requires
            parse_object(bytes@, 0) matches Some((ObjectV::Dictionary(m), _)) && resources_of(m) is Some,
        ensures
            parse_object(bytes@, 0) matches Some((ObjectV::Dictionary(m), _)) && Some(r@) == resources_of(m),
    {
        match Resources::try_new(bytes) {
            Ok(x) => x,
            Err(_) => unreached(),
        }
    }

    /// The resources of the dictionary at the start of `bytes`.
    pub fn try_new(bytes: &[u8]) -> (r: Result<Resources, BodyError>)
        ensures
            match parse_object(bytes@, 0) {
                Some((ObjectV::Dictionary(m), _)) => match resources_of(m) {
                    Some(v) => r is Ok && r.unwrap()@ == v,
                    None => r == Err::<Resources, BodyError>(BodyError::Malformed),
                },
                _ => r == Err::<Resources, BodyError>(BodyError::Malformed),
            },
    {
        match Object::try_new(bytes, 0) {
            Ok(Object::Dictionary(dict)) => Resources::from_dict(&dict),
            _ => Err(BodyError::Malformed),
        }
    }

    /// The resources of an object, which must be a resource dictionary.
    pub fn from_object(value: Object) -> (r: Resources)
        requires
            value@ matches ObjectV::Dictionary(m) && resources_of(m) is Some,
        ensures
            value@ matches ObjectV::Dictionary(m) && Some(r@) == resources_of(m),
    {
        match Resources::try_from_object(value) {
            Ok(x) => x,
            Err(_) => unreached(),
        }
    }

    /// The resources of an object, which must be a resource dictionary.
    pub fn try_from_object(value: Object) -> (r: Result<Resources, BodyError>)
        ensures
            match value@ {
                ObjectV::Dictionary(m) => match resources_of(m) {
                    Some(v) => r is Ok && r.unwrap()@ == v,
                    None => r == Err::<Resources, BodyError>(BodyError::Malformed),
                },
                _ => r == Err::<Resources, BodyError>(BodyError::Malformed),
            },
    {
        match value {
            Object::Dictionary(d) => Resources::from_dict(&d),
            _ => Err(BodyError::Malformed),
        }
    }

    /// The resources of a resource dictionary (see [`resources_of`]), whose
    /// `Font` entry must be of the kind read.
    pub fn from(value: Dictionary) -> (r: Resources)
        requires
            resources_of(value@) is Some,
        ensures
            Some(r@) == resources_of(value@),
    {
        match Resources::try_from(value) {
            Ok(x) => x,
            Err(_) => unreached(),
        }
    }

    /// The resources of a resource dictionary (see [`resources_of`]).
    pub fn try_from(value: Dictionary) -> (r: Result<Resources, BodyError>)
        ensures
            match resources_of(value@) {
                Some(v) => r is Ok && r.unwrap()@ == v,
                None => r == Err::<Resources, BodyError>(BodyError::Malformed),
            },
    {
        Resources::from_dict(&value)
    }

    fn from_dict(value: &Dictionary) -> (r: Result<Resources, BodyError>)
        ensures
            match resources_of(value@) {
                Some(v) => r is Ok && r.unwrap()@ == v,
                None => r == Err::<Resources, BodyError>(BodyError::Malformed),
            },
    {
        let font = match value.get("Font") {
            Some(Object::Ref((obj, gen))) => Some(Indirect::Ref(*obj, *gen)),
            Some(Object::Dictionary(t)) => Some(Indirect::T(FontMap::from_dict(t)?)),
            None => None,
            Some(_) => {
                return Err(BodyError::Malformed);
            },
        };
        Ok(Resources { font })
    }
}

// ---------------------------------------------------------------------------
// Streams (PDF reference, section 3.2.7)
// ---------------------------------------------------------------------------

/// A stream of the document structure, its data decoded.
#[derive(Debug, PartialEq)]
pub struct Stream {
    pub length: Indirect<Number>,
    pub filter: Option<Filter>,
    pub data: Vec<u8>,
}

/// Mathematical model of a [`Stream`].
pub struct StreamV {
    pub length: IndirectV<NumberV>,
    pub filter: Option<Filter>,
    pub data: Seq<u8>,
}

impl View for Stream {
    type V = StreamV;

    open spec fn view(&self) -> StreamV {
        StreamV { length: self.length@, filter: self.filter, data: self.data@ }
    }
}

/// The `Filter` entry: absent, or the name of a supported filter.
pub open spec fn filter_entry(m: Map<Seq<char>, ObjectV>) -> Result<Option<Filter>, BodyError> {
    if !m.contains_key("Filter"@) {
        Ok(None)
    } else {
        match m["Filter"@] {
            ObjectV::Name(n) => if n == "FlateDecode"@ {
                Ok(Some(Filter::FlateDecode))
            } else {
                Err(BodyError::Unsupported)
            },
            _ => Err(BodyError::Malformed),
        }
    }
}

/// The data `bytes` with the filter `f` undone: zlib data is decompressed
/// into a buffer ten times its length.
pub open spec fn deflated(bytes: Seq<u8>, f: Option<Filter>) -> Result<Seq<u8>, BodyError> {
    match f {
        None => Ok(bytes),
        Some(Filter::FlateDecode) => if bytes.len() * 10 <= usize::MAX {
            match zlib_read(bytes, decode_buffer(bytes)) {
                Some(d) => Ok(d),
                None => Err(BodyError::Corrupt),
            }
        } else {
            Err(BodyError::Corrupt)
        },
    }
}

/// The required `Length` entry: a number, or a reference to one.
pub open spec fn length_entry(m: Map<Seq<char>, ObjectV>) -> Option<IndirectV<NumberV>> {
    if m.contains_key("Length"@) {
        match m["Length"@] {
            ObjectV::Numeric(n) => Some(IndirectV::T(n)),
            ObjectV::Ref(a, b) => Some(IndirectV::Ref(a, b)),
            _ => None,
        }
    } else {
        None
    }
}

/// The dictionary `m` of a stream with raw data `bytes` has what is read from
/// it: a supported filter or none, and a `Length`; data to decompress is short
/// enough for its decoding buffer.
pub open spec fn stream_header(m: Map<Seq<char>, ObjectV>, bytes: Seq<u8>) -> bool {
    &&& filter_entry(m) is Ok
    &&& length_entry(m) is Some
    &&& filter_entry(m) == Ok::<Option<Filter>, BodyError>(Some(Filter::FlateDecode)) ==> bytes.len() * 10
        <= usize::MAX
}

/// The stream of dictionary `m` and raw data `bytes`.
pub open spec fn stream_of(m: Map<Seq<char>, ObjectV>, bytes: Seq<u8>) -> Result<StreamV, BodyError> {
    match filter_entry(m) {
        Ok(f) => match deflated(bytes, f) {
            Ok(d) => match length_entry(m) {
                Some(l) => Ok(StreamV { length: l, filter: f, data: d }),
                None => Err(BodyError::Malformed),
            },
            Err(e) => Err(e),
        },
        Err(e) => Err(e),
    }
}

/// The result of a read, by its model.
pub open spec fn stream_result_view(r: Result<Stream, BodyError>) -> Result<StreamV, BodyError> {
    match r {
        Ok(s) => Ok(s@),
        Err(e) => Err(e),
    }
}

/// Undoes the filter `filter` of the data `bytes` (see [`deflated`]).
pub fn deflate(bytes: &[u8], filter: Option<Filter>) -> (r: Result<Vec<u8>, BodyError>)
    ensures
        match deflated(bytes@, filter) {
            Ok(d) => r is Ok && r.unwrap()@ == d,
            Err(e) => r == Err::<Vec<u8>, BodyError>(e),
        },
{
    match filter {
        Some(Filter::FlateDecode) => {
            if bytes.len() > usize::MAX / 10 {
                return Err(BodyError::Corrupt);
            }
            match flate_decode(bytes) {
                Ok(d) => Ok(d),
                Err(_) => Err(BodyError::Corrupt),
            }
        },
        None => Ok(slice_to_vec(bytes, 0, bytes.len())),
    }
}

impl Stream {
    /// The stream of a stream object, its data decoded (see [`stream_of`]).
    /// Its dictionary must have what is read from it; only the decompression
    /// of the data can then fail.
    pub fn from(object: StreamObject) -> (r: Result<Stream, BodyError>)
        requires
            stream_header(object.header@, object.bytes@),
        ensures
            stream_result_view(r) == stream_of(object.header@, object.bytes@),
    {
        Stream::try_from(object)
    }

    /// The stream of a stream object, its data decoded (see [`stream_of`]).
    pub fn try_from(object: StreamObject) -> (r: Result<Stream, BodyError>)
        ensures
            stream_result_view(r) == stream_of(object.header@, object.bytes@),
    {
        let filter = match object.header.get("Filter") {
            Some(Object::Name(name)) => Some(Filter::try_from(name.clone())?),
            None => None,
            Some(_) => {
                return Err(BodyError::Malformed);
            },
        };
        let data = deflate(object.bytes.as_slice(), filter)?;
        let length = match object.header.get("Length") {
            Some(Object::Numeric(n)) => Indirect::T(n.duplicate()),
            Some(Object::Ref((obj, gen))) => Indirect::Ref(*obj, *gen),
            _ => {
                return Err(BodyError::Malformed);
            },
        };
        Ok(Stream { length, filter, data })
    }

    /// The stream of an object, which must be a stream object whose
    /// dictionary has what is read from it.
    pub fn from_object(value: Object) -> (r: Result<Stream, BodyError>)
        requires
            value@ matches ObjectV::Stream(m, d) && stream_header(m, d),
        ensures
            value@ matches ObjectV::Stream(m, d) && stream_result_view(r) == stream_of(m, d),
    {
        Stream::try_from_object(value)
    }

    /// The stream of an object, which must be a stream object.
    pub fn try_from_object(value: Object) -> (r: Result<Stream, BodyError>)
        ensures
            match value@ {
                ObjectV::Stream(m, d) => stream_result_view(r) == stream_of(m, d),
                _ => r == Err::<Stream, BodyError>(BodyError::Malformed),
            },
    {
        match value {
            Object::Stream(s) => Stream::try_from(s),
            _ => Err(BodyError::Malformed),
        }
    }

    /// A copy of the decoded data.
    pub fn get_data(&self) -> (r: Vec<u8>)
        ensures
            r@ == self.data@,
    {
        slice_to_vec(self.data.as_slice(), 0, self.data.len())
    }
}

// ---------------------------------------------------------------------------
// Pages (PDF reference, section 3.6.2)
// ---------------------------------------------------------------------------

/// A leaf of the page tree.
#[derive(Debug, PartialEq)]
pub struct Page {
    /// Resource dictionary.
    pub resources: Option<Indirect<Resources>>,
    /// Content stream.
    pub contents: Option<Indirect<Stream>>,
}

/// Mathematical model of a [`Page`].
pub struct PageV {
    pub resources: Option<IndirectV<ResourcesV>>,
    pub contents: Option<IndirectV<StreamV>>,
}

impl View for Page {
    type V = PageV;

    open spec fn view(&self) -> PageV {
        PageV {
            resources: match self.resources {
                Some(r) => Some(r@),
                None => None,
            },
            contents: match self.contents {
                Some(c) => Some(c@),
                None => None,
            },
        }
    }
}

/// The required `Resources` entry of a page: a resource dictionary, or a
/// reference to one.
pub open spec fn page_resources(m: Map<Seq<char>, ObjectV>) -> Option<IndirectV<ResourcesV>> {
    if m.contains_key("Resources"@) {
        match m["Resources"@] {
            ObjectV::Dictionary(d) => match resources_of(d) {
                Some(r) => Some(IndirectV::T(r)),
                None => None,
            },
            ObjectV::Ref(a, b) => Some(IndirectV::Ref(a, b)),
            _ => None,
        }
    } else {
        None
    }
}

/// The `Contents` entry of a page: absent, a reference, or an array that
/// holds one reference. An array of more streams is not supported.
pub open spec fn page_contents(m: Map<Seq<char>, ObjectV>) -> Result<Option<IndirectV<StreamV>>, BodyError> {
    if !m.contains_key("Contents"@) {
        Ok(None)
    } else {
        match m["Contents"@] {
            ObjectV::Ref(a, b) => Ok(Some(IndirectV::Ref(a, b))),
            ObjectV::Array(refs) => if refs.len() == 1 {
                match refs[0] {
                    ObjectV::Ref(a, b) => Ok(Some(IndirectV::Ref(a, b))),
                    _ => Err(BodyError::Malformed),
                }
            } else {
                Err(BodyError::Unsupported)
            },
            _ => Err(BodyError::Malformed),
        }
    }
}

/// The page that a page dictionary `m` describes.
pub open spec fn page_of(m: Map<Seq<char>, ObjectV>) -> Result<PageV, BodyError> {
    match page_resources(m) {
        Some(r) => match page_contents(m) {
            Ok(c) => Ok(PageV { resources: Some(r), contents: c }),
            Err(e) => Err(e),
        },
        None => Err(BodyError::Malformed),
    }
}

pub open spec fn page_result_view(r: Result<Page, BodyError>) -> Result<PageV, BodyError> {
    match r {
        Ok(p) => Ok(p@),
        Err(e) => Err(e),
    }
}

impl Page {
    /// The page of the dictionary at the start of `bytes`, which must be a page
    /// dictionary (see [`page_of`]).
    pub fn new(bytes: &[u8]) -> (r: Page)
        requires
            parse_object(bytes@, 0) matches Some((ObjectV::Dictionary(m), _)) && page_of(m) is Ok,
        ensures
            parse_object(bytes@, 0) matches Some((ObjectV::Dictionary(m), _)) && Ok::<PageV, BodyError>(r@) == page_of(m),
    {
        match Page::try_new(bytes) {
            Ok(x) => x,
            Err(_) => unreached(),
        }
    }

    /// The page of the dictionary at the start of `bytes`.
    pub fn try_new(bytes: &[u8]) -> (r: Result<Page, BodyError>)
        ensures
            match parse_object(bytes@, 0) {
                Some((ObjectV::Dictionary(m), _)) => page_result_view(r) == page_of(m),
                _ => r == Err::<Page, BodyError>(BodyError::Malformed),
            },
    {
        match Object::try_new(bytes, 0) {
            Ok(Object::Dictionary(dict)) => Page::from_dict(&dict),
            _ => Err(BodyError::Malformed),
        }
    }

    /// The page of an object, which must be a page dictionary.
    pub fn from_object(value: Object) -> (r: Page)
        requires
            value@ matches ObjectV::Dictionary(m) && page_of(m) is Ok,
        ensures
            value@ matches ObjectV::Dictionary(m) && Ok::<PageV, BodyError>(r@) == page_of(m),
    {
        match Page::try_from_object(value) {
            Ok(x) => x,
            Err(_) => unreached(),
        }
    }

    /// The page of an object, which must be a page dictionary.
    pub fn try_from_object(value: Object) -> (r: Result<Page, BodyError>)
        ensures
            match value@ {
                ObjectV::Dictionary(m) => page_result_view(r) == page_of(m),
                _ => r == Err::<Page, BodyError>(BodyError::Malformed),
            },
    {
        match value {
            Object::Dictionary(d) => Page::from_dict(&d),
            _ => Err(BodyError::Malformed),
        }
    }

    /// The page of a page dictionary (see [`page_of`]).
    pub fn from(value: Dictionary) -> (r: Page)
        requires
            page_of(value@) is Ok,
        ensures
            Ok::<PageV, BodyError>(r@) == page_of(value@),
    {
        match Page::try_from(value) {
            Ok(x) => x,
            Err(_) => unreached(),
        }
    }

    /// The page of a page dictionary (see [`page_of`]).
    pub fn try_from(value: Dictionary) -> (r: Result<Page, BodyError>)
        ensures
            page_result_view(r) == page_of(value@),
    {
        Page::from_dict(&value)
    }

    fn from_dict(value: &Dictionary) -> (r: Result<Page, BodyError>)
        ensures
            page_result_view(r) == page_of(value@),
    {
        let resources = match value.get("Resources") {
            Some(Object::Dictionary(t)) => match Resources::from_dict(t) {
                Ok(r) => Indirect::T(r),
                Err(_) => {
                    return Err(BodyError::Malformed);
                },
            },
            Some(Object::Ref((obj, gen))) => Indirect::Ref(*obj, *gen),
            _ => {
                return Err(BodyError::Malformed);
            },
        };
        let contents = match value.get("Contents") {
            Some(Object::Ref((obj, gen))) => Some(Indirect::Ref(*obj, *gen)),
            None => None,
            Some(Object::Array(references)) => {
                proof {
                    lemma_array_view(references@);
                }
                if references.len() == 1 {
                    match &references[0] {
                        Object::Ref((obj, gen)) => Some(Indirect::Ref(*obj, *gen)),
                        _ => {
                            return Err(BodyError::Malformed);
                        },
                    }
                } else {
                    return Err(BodyError::Unsupported);
                }
            },
            Some(_) => {
                return Err(BodyError::Malformed);
            },
        };
        Ok(Page { resources: Some(resources), contents })
    }
}

/// The references that a page tree node holds.
pub struct NodeRefs {
    pub parent: Option<(i32, i32)>,
    pub kids: Seq<(i32, i32)>,
    pub resources: Option<(i32, i32)>,
}

/// An intermediate node of the page tree.
#[derive(Debug, PartialEq)]
pub struct PageTreeNode {
    /// Parent node; only the root has none.
    pub parent: Option<Box<Indirect<PageTreeNode>>>,
    /// Kids: pages or page tree nodes.
    pub kids: Vec<Indirect<PageTreeKids>>,
    /// Resource dictionary.
    pub resources: Option<Indirect<Resources>>,
}

/// A kid of a page tree node.
#[derive(Debug, PartialEq)]
pub enum PageTreeKids {
    Page(Indirect<Page>),
    PageTreeNode(Indirect<PageTreeNode>),
}

pub open spec fn opt_ref_of<T>(i: Option<Indirect<T>>) -> Option<Option<(i32, i32)>> {
    match i {
        None => Some(None),
        Some(Indirect::Ref(a, b)) => Some(Some((a, b))),
        Some(Indirect::T(_)) => None,
    }
}

impl PageTreeNode {
    /// The references of this node, where each of its entries is given by
    /// reference; `None` where one is given in place.
    pub open spec fn refs(&self) -> Option<NodeRefs> {
        let parent = match self.parent {
            None => Some(None),
            Some(b) => match *b {
                Indirect::Ref(x, y) => Some(Some((x, y))),
                Indirect::T(_) => None,
            },
        };
        let kids_by_ref = forall|j: int| 0 <= j < self.kids@.len() ==> (#[trigger] self.kids@[j]) is Ref;
        match (parent, opt_ref_of(self.resources)) {
            (Some(p), Some(r)) => if kids_by_ref {
                Some(
                    NodeRefs {
                        parent: p,
                        kids: self.kids@.map_values(|k: Indirect<PageTreeKids>| (k->Ref_0, k->Ref_1)),
                        resources: r,
                    },
                )
            } else {
                None
            },
            _ => None,
        }
    }
}

/// The required `Kids` entry: an array of references.
pub open spec fn kids_entry(m: Map<Seq<char>, ObjectV>) -> Option<Seq<(i32, i32)>> {
    if m.contains_key("Kids"@) {
        match m["Kids"@] {
            ObjectV::Array(a) => all_refs(a),
            _ => None,
        }
    } else {
        None
    }
}

/// The node that a page tree node dictionary `m` describes: its parent and
/// resources are absent or references, its kids an array of references.
pub open spec fn node_of(m: Map<Seq<char>, ObjectV>) -> Option<NodeRefs> {
    match (opt_ref(m, "Parent"@), kids_entry(m), opt_ref(m, "Resources"@)) {
        (Some(p), Some(k), Some(r)) => Some(NodeRefs { parent: p, kids: k, resources: r }),
        _ => None,
    }
}

pub(crate) fn opt_ref_value(d: &Dictionary, key: &str) -> (r: Result<Option<(i32, i32)>, BodyError>)
    ensures
        match opt_ref(d@, key@) {
            Some(v) => r == Ok::<Option<(i32, i32)>, BodyError>(v),
            None => r == Err::<Option<(i32, i32)>, BodyError>(BodyError::Malformed),
        },
{
    match d.get(key) {
        None => Ok(None),
        Some(Object::Ref((a, b))) => Ok(Some((*a, *b))),
        Some(_) => Err(BodyError::Malformed),
    }
}

impl PageTreeNode {
    /// The node of the object at the start of `bytes`, which must be a page
    /// tree node dictionary (see [`node_of`]).
    pub fn new(bytes: &[u8]) -> (r: PageTreeNode)
        requires
            parse_object(bytes@, 0) matches Some((ObjectV::Dictionary(m), _)) && node_of(m) is Some,
        ensures
            parse_object(bytes@, 0) matches Some((ObjectV::Dictionary(m), _)) && r.refs() == node_of(m),
    {
        match PageTreeNode::try_new(bytes) {
            Ok(x) => x,
            Err(_) => unreached(),
        }
    }

    /// The node of the object at the start of `bytes`, which must be a page
    /// tree node dictionary.
    pub fn try_new(bytes: &[u8]) -> (r: Result<PageTreeNode, BodyError>)
        ensures
            match parse_object(bytes@, 0) {
                Some((ObjectV::Dictionary(m), _)) => match node_of(m) {
                    Some(v) => r is Ok && r.unwrap().refs() == Some(v),
                    None => r == Err::<PageTreeNode, BodyError>(BodyError::Malformed),
                },
                _ => r == Err::<PageTreeNode, BodyError>(BodyError::Malformed),
            },
    {
        match Object::try_new(bytes, 0) {
            Ok(o) => PageTreeNode::try_from_object(o),
            Err(_) => Err(BodyError::Malformed),
        }
    }

    /// The node of an object, which must be a page tree node dictionary.
    pub fn from_object(value: Object) -> (r: PageTreeNode)
        requires
            value@ matches ObjectV::Dictionary(m) && node_of(m) is Some,
        ensures
            value@ matches ObjectV::Dictionary(m) && r.refs() == node_of(m),
    {
        match PageTreeNode::try_from_object(value) {
            Ok(x) => x,
            Err(_) => unreached(),
        }
    }

    /// The node of an object, which must be a page tree node dictionary.
    pub fn try_from_object(value: Object) -> (r: Result<PageTreeNode, BodyError>)
        ensures
            match value@ {
                ObjectV::Dictionary(m) => match node_of(m) {
                    Some(v) => r is Ok && r.unwrap().refs() == Some(v),
                    None => r == Err::<PageTreeNode, BodyError>(BodyError::Malformed),
                },
                _ => r == Err::<PageTreeNode, BodyError>(BodyError::Malformed),
            },
    {
        match value {
            Object::Dictionary(d) => PageTreeNode::from_dict(&d),
            _ => Err(BodyError::Malformed),
        }
    }

    /// The node of a page tree node dictionary (see [`node_of`]).
    pub fn from(value: Dictionary) -> (r: PageTreeNode)
        requires
            node_of(value@) is Some,
        ensures
            r.refs() == node_of(value@),
    {
        match PageTreeNode::try_from(value) {
            Ok(x) => x,
            Err(_) => unreached(),
        }
    }

    /// The node of a page tree node dictionary (see [`node_of`]).
    pub fn try_from(value: Dictionary) -> (r: Result<PageTreeNode, BodyError>)
        ensures
            match node_of(value@) {
                Some(v) => r is Ok && r.unwrap().refs() == Some(v),
                None => r == Err::<PageTreeNode, BodyError>(BodyError::Malformed),
            },
    {
        PageTreeNode::from_dict(&value)
    }

    fn from_dict(value: &Dictionary) -> (r: Result<PageTreeNode, BodyError>)
        ensures
            match node_of(value@) {
                Some(v) => r is Ok && r.unwrap().refs() == Some(v),
                None => r == Err::<PageTreeNode, BodyError>(BodyError::Malformed),
            },
    {
        let parent = match opt_ref_value(value, "Parent")? {
            Some((obj, gen)) => Some(Box::new(Indirect::Ref(obj, gen))),
            None => None,
        };
        let refs = match value.get("Kids") {
            Some(Object::Array(arr)) => match refs_of(arr) {
                Some(refs) => refs,
                None => {
                    return Err(BodyError::Malformed);
                },
            },
            _ => {
                return Err(BodyError::Malformed);
            },
        };
        let resources = match opt_ref_value(value, "Resources")? {
            Some((obj, gen)) => Some(Indirect::Ref(obj, gen)),
            None => None,
        };
        let mut kids: Vec<Indirect<PageTreeKids>> = Vec::new();
        let mut i: usize = 0;
        while i < refs.len()
            invariant
                i <= refs@.len(),
                kids@.len() == i,
                forall|j: int| 0 <= j < i ==> (#[trigger] kids@[j]) == Indirect::<PageTreeKids>::Ref(
                    refs@[j].0,
                    refs@[j].1,
                ),
            decreases refs@.len() - i,
        {
            let (obj, gen) = refs[i];
            kids.push(Indirect::Ref(obj, gen));
            i = i + 1;
        }
        let r = PageTreeNode { parent, kids, resources };
        assert(r.kids@.map_values(|k: Indirect<PageTreeKids>| (k->Ref_0, k->Ref_1)) =~= refs@);
        Ok(r)
    }
}

/// Model of a kid of a page tree node read from its dictionary.
pub enum KidV {
    Page(PageV),
    Node(NodeRefs),
}

/// The kid that a dictionary `m` describes: a page tree node where its
/// `Type` is `Pages`, a page where it is `Page`.
pub open spec fn kid_of(m: Map<Seq<char>, ObjectV>) -> Option<KidV> {
    match req_name(m, "Type"@) {
        Some(t) => if t == "Pages"@ {
            match node_of(m) {
                Some(n) => Some(KidV::Node(n)),
                None => None,
            }
        } else if t == "Page"@ {
            match page_of(m) {
                Ok(p) => Some(KidV::Page(p)),
                Err(_) => None,
            }
        } else {
            None
        },
        None => None,
    }
}

/// `r` holds the kid `k`, given in place.
pub open spec fn kid_matches(r: Result<PageTreeKids, BodyError>, k: Option<KidV>) -> bool {
    match k {
        Some(KidV::Node(n)) => r matches Ok(PageTreeKids::PageTreeNode(Indirect::T(x))) && x.refs() == Some(n),
        Some(KidV::Page(p)) => r matches Ok(PageTreeKids::Page(Indirect::T(x))) && x@ == p,
        None => r is Err,
    }
}

impl PageTreeKids {
    /// The kid whose dictionary starts at `curr_idx`, which must be a page or a
    /// page tree node dictionary (see [`kid_of`]).
    pub fn new(bytes: &[u8], curr_idx: usize) -> (r: PageTreeKids)
        requires
            curr_idx <= bytes@.len(),
            parse_object(bytes@.subrange(curr_idx as int, bytes@.len() as int), 0) matches Some(
                (ObjectV::Dictionary(m), _),
            ) && kid_of(m) is Some,
        ensures
            parse_object(bytes@.subrange(curr_idx as int, bytes@.len() as int), 0) matches Some(
                (ObjectV::Dictionary(m), _),
            ) && kid_matches(Ok(r), kid_of(m)),
    {
        match PageTreeKids::try_new(bytes, curr_idx) {
            Ok(x) => x,
            Err(_) => unreached(),
        }
    }

    /// The kid whose dictionary starts at `curr_idx` (see [`kid_of`]).
    pub fn try_new(bytes: &[u8], curr_idx: usize) -> (r: Result<PageTreeKids, BodyError>)
        ensures
            curr_idx > bytes@.len() ==> r is Err,
            curr_idx <= bytes@.len() ==> match parse_object(
                bytes@.subrange(curr_idx as int, bytes@.len() as int),
                0,
            ) {
                Some((ObjectV::Dictionary(m), _)) => kid_matches(r, kid_of(m)),
                _ => r is Err,
            },
    {
        if curr_idx > bytes.len() {
            return Err(BodyError::Malformed);
        }
        match Object::try_new(&bytes[curr_idx..bytes.len()], 0) {
            Ok(o) => PageTreeKids::try_from(o),
            Err(_) => Err(BodyError::Malformed),
        }
    }

    /// The kid that an object describes, which must be a page or a page tree
    /// node dictionary (see [`kid_of`]).
    pub fn from(value: Object) -> (r: PageTreeKids)
        requires
            value@ matches ObjectV::Dictionary(m) && kid_of(m) is Some,
        ensures
            value@ matches ObjectV::Dictionary(m) && kid_matches(Ok(r), kid_of(m)),
    {
        match PageTreeKids::try_from(value) {
            Ok(x) => x,
            Err(_) => unreached(),
        }
    }

    /// The kid that an object describes, which must be a page or page tree
    /// node dictionary (see [`kid_of`]).
    pub fn try_from(value: Object) -> (r: Result<PageTreeKids, BodyError>)
        ensures
            match value@ {
                ObjectV::Dictionary(m) => kid_matches(r, kid_of(m)),
                _ => r is Err,
            },
    {
        match value {
            Object::Dictionary(dict) => {
                match dict.get("Type") {
                    Some(Object::Name(name)) => {
                        if name_is(name, "Pages") {
                            Ok(PageTreeKids::PageTreeNode(Indirect::T(PageTreeNode::from_dict(&dict)?)))
                        } else if name_is(name, "Page") {
                            Ok(PageTreeKids::Page(Indirect::T(Page::from_dict(&dict)?)))
                        } else {
                            Err(BodyError::Malformed)
                        }
                    },
                    _ => Err(BodyError::Malformed),
                }
            },
            _ => Err(BodyError::Malformed),
        }
    }
}

// ---------------------------------------------------------------------------
// Document catalog (PDF reference, section 3.6.1)
// ---------------------------------------------------------------------------

/// The document catalog.
#[derive(Debug, PartialEq)]
pub struct Catalog {
    /// Root of the page tree, once it has been read through the
    /// cross-reference data; reading the catalog alone leaves it empty.
    pub pages: Option<Indirect<PageTreeNode>>,
    /// Reference to the root of the page tree.
    pub pages_ref: (i32, i32),
}

/// The reference to the page tree that a catalog dictionary `m` holds.
pub open spec fn catalog_of(m: Map<Seq<char>, ObjectV>) -> Option<(i32, i32)> {
    if m.contains_key("Pages"@) {
        match m["Pages"@] {
            ObjectV::Ref(a, b) => Some((a, b)),
            _ => None,
        }
    } else {
        None
    }
}

/// The catalog whose dictionary starts at position `p` of `s`. A catalog kept
/// in an object stream is not supported.
pub open spec fn catalog_at(s: Seq<u8>, p: int) -> Result<Catalog, BodyError> {
    if p > s.len() {
        Err(BodyError::Malformed)
    } else {
        match parse_object(s, p) {
            Some((ObjectV::Dictionary(m), _)) => match catalog_of(m) {
                Some(pr) => Ok(Catalog { pages: None, pages_ref: pr }),
                None => Err(BodyError::Malformed),
            },
            Some((ObjectV::Stream(_, _), _)) => Err(BodyError::Unsupported),
            _ => Err(BodyError::Malformed),
        }
    }
}

impl Catalog {
    /// The catalog whose dictionary starts at `curr_idx`, which must be a
    /// catalog dictionary (see [`catalog_at`]).
    pub fn new(bytes: &[u8], curr_idx: usize) -> (r: Catalog)
        requires
            catalog_at(bytes@, curr_idx as int) is Ok,
        ensures
            Ok::<Catalog, BodyError>(r) == catalog_at(bytes@, curr_idx as int),
    {
        match Catalog::try_new(bytes, curr_idx) {
            Ok(c) => c,
            Err(_) => unreached(),
        }
    }

    /// The catalog whose dictionary starts at `curr_idx`, or why there is
    /// none (see [`catalog_at`]).
    pub fn try_new(bytes: &[u8], curr_idx: usize) -> (r: Result<Catalog, BodyError>)
        ensures
            r == catalog_at(bytes@, curr_idx as int),
    {
        match Object::try_new(bytes, curr_idx) {
            Ok(Object::Dictionary(dict)) => Catalog::try_from(dict),
            Ok(Object::Stream(_)) => Err(BodyError::Unsupported),
            _ => Err(BodyError::Malformed),
        }
    }

    /// The catalog of a catalog dictionary, whose `Pages` entry must be a
    /// reference (see [`catalog_of`]).
    pub fn from(value: Dictionary) -> (r: Catalog)
        requires
            catalog_of(value@) is Some,
        ensures
            r == (Catalog { pages: None, pages_ref: catalog_of(value@).unwrap() }),
    {
        match Catalog::try_from(value) {
            Ok(c) => c,
            Err(_) => unreached(),
        }
    }

    /// The catalog of a catalog dictionary, or why it is not one (see
    /// [`catalog_of`]).
    pub fn try_from(value: Dictionary) -> (r: Result<Catalog, BodyError>)
        ensures
            match catalog_of(value@) {
                Some(p) => r == Ok::<Catalog, BodyError>(Catalog { pages: None, pages_ref: p }),
                None => r == Err::<Catalog, BodyError>(BodyError::Malformed),
            },
    {
        match value.get("Pages") {
            Some(Object::Ref((obj, gen))) => Ok(Catalog { pages: None, pages_ref: (*obj, *gen) }),
            _ => Err(BodyError::Malformed),
        }
    }
}

// ---------------------------------------------------------------------------
// Object streams (PDF reference, section 3.4.6)
// ---------------------------------------------------------------------------

/// An object stream: objects stored in the decoded data of a stream, found
/// through a table of object numbers and offsets.
#[derive(Debug)]
pub struct ObjectStreams {
    pub length: Indirect<Number>,
    pub filter: Option<Filter>,
    /// Number of objects in the stream.
    pub n: usize,
    /// Offset of the first object in the decoded data.
    pub first: usize,
    pub data: Vec<u8>,
    /// Offset of each object, by object number, from `first`.
    pub table: HashMap<usize, usize>,
}

/// An entry that must be an integer.
pub open spec fn int_entry(m: Map<Seq<char>, ObjectV>, key: Seq<char>) -> Option<i32> {
    if m.contains_key(key) {
        match m[key] {
            ObjectV::Numeric(NumberV::Integer(n)) => Some(n),
            _ => None,
        }
    } else {
        None
    }
}

/// Mathematical model of [`ObjectStreams`].
pub struct ObjectStreamsV {
    pub length: IndirectV<NumberV>,
    pub filter: Option<Filter>,
    pub n: usize,
    pub first: usize,
    pub data: Seq<u8>,
    pub table: Map<usize, usize>,
}

impl View for ObjectStreams {
    type V = ObjectStreamsV;

    open spec fn view(&self) -> ObjectStreamsV {
        ObjectStreamsV {
            length: self.length@,
            filter: self.filter,
            n: self.n,
            first: self.first,
            data: self.data@,
            table: self.table@,
        }
    }
}

/// The object stream of dictionary `m` and raw data `bytes`, with an empty
/// table. `N` and `First` are integers, taken as `usize` values.
pub open spec fn object_streams_of(m: Map<Seq<char>, ObjectV>, bytes: Seq<u8>) -> Result<ObjectStreamsV, BodyError> {
    match filter_entry(m) {
        Ok(f) => match deflated(bytes, f) {
            Ok(d) => match (length_entry(m), int_entry(m, "N"@), int_entry(m, "First"@)) {
                (Some(l), Some(n), Some(first)) => Ok(
                    ObjectStreamsV {
                        length: l,
                        filter: f,
                        n: n as usize,
                        first: first as usize,
                        data: d,
                        table: Map::empty(),
                    },
                ),
                _ => Err(BodyError::Malformed),
            },
            Err(e) => Err(e),
        },
        Err(e) => Err(e),
    }
}

/// The table of object numbers and offsets read from position `p` of the
/// decoded data `s`, added to `acc`: pairs of integers up to the first token
/// that is not an integer. `None` where the data ends first.
pub open spec fn offset_table(s: Seq<u8>, p: int, acc: Map<usize, usize>) -> Option<Map<usize, usize>>
    decreases s.len() - p,
{
    match lem(s, p) {
        Lexed::Tok(TokenV::Numeric(NumberV::Integer(a)), q1) => match lem(s, q1) {
            Lexed::Tok(TokenV::Numeric(NumberV::Integer(b)), q2) => if p < q2 <= s.len() {
                offset_table(s, q2, acc.insert(a as usize, b as usize))
            } else {
                None
            },
            Lexed::Tok(_, _) => Some(acc),
            _ => None,
        },
        Lexed::Tok(_, _) => Some(acc),
        _ => None,
    }
}

/// The object numbered `obj_num` of an object stream.
pub open spec fn stream_object(x: ObjectStreamsV, obj_num: usize) -> Option<ObjectV> {
    if x.table.contains_key(obj_num) && x.table[obj_num] + x.first <= x.data.len() {
        match parse_object(x.data.subrange(x.table[obj_num] + x.first, x.data.len() as int), 0) {
            Some((o, _)) => Some(o),
            None => None,
        }
    } else {
        None
    }
}

fn integer_value(t: &Option<Token>) -> (r: Option<i32>)
    ensures
        r == (match t {
            Some(tok) => match tok@ {
                TokenV::Numeric(NumberV::Integer(n)) => Some(n),
                _ => None::<i32>,
            },
            None => None::<i32>,
        }),
{
    match t {
        Some(Token::Numeric(Number::Integer(n))) => Some(*n),
        _ => None,
    }
}

impl ObjectStreams {
    /// The object stream of a stream object, its data decoded and its table
    /// empty (see [`object_streams_of`]). Its dictionary must have what is
    /// read from it; only the decompression of the data can then fail.
    pub fn from(value: StreamObject) -> (r: Result<ObjectStreams, BodyError>)
        requires
            stream_header(value.header@, value.bytes@),
            int_entry(value.header@, "N"@) is Some,
            int_entry(value.header@, "First"@) is Some,
        ensures
            match object_streams_of(value.header@, value.bytes@) {
                Ok(v) => r is Ok && r.unwrap()@ == v,
                Err(e) => r == Err::<ObjectStreams, BodyError>(e),
            },
    {
        ObjectStreams::try_from(value)
    }

    /// The object stream of a stream object, its data decoded and its table
    /// empty (see [`object_streams_of`]).
    pub fn try_from(value: StreamObject) -> (r: Result<ObjectStreams, BodyError>)
        ensures
            match object_streams_of(value.header@, value.bytes@) {
                Ok(v) => r is Ok && r.unwrap()@ == v,
                Err(e) => r == Err::<ObjectStreams, BodyError>(e),
            },
    {
        let filter = match value.header.get("Filter") {
            Some(Object::Name(name)) => Some(Filter::try_from(name.clone())?),
            None => None,
            Some(_) => {
                return Err(BodyError::Malformed);
            },
        };
        let data = deflate(value.bytes.as_slice(), filter)?;
        let length = match value.header.get("Length") {
            Some(Object::Numeric(n)) => Indirect::T(n.duplicate()),
            Some(Object::Ref((obj, gen))) => Indirect::Ref(*obj, *gen),
            _ => {
                return Err(BodyError::Malformed);
            },
        };
        let n = match value.header.get("N") {
            Some(Object::Numeric(Number::Integer(n))) => #[verifier::truncate] (*n as usize),
            _ => {
                return Err(BodyError::Malformed);
            },
        };
        let first = match value.header.get("First") {
            Some(Object::Numeric(Number::Integer(first))) => #[verifier::truncate] (*first as usize),
            _ => {
                return Err(BodyError::Malformed);
            },
        };
        Ok(ObjectStreams { length, filter, n, first, data, table: HashMap::new() })
    }

    /// Reads the table of object numbers and offsets at the start of the
    /// decoded data, which must hold one (see [`offset_table`]).
    pub fn create_table(&mut self)
        requires
            offset_table(old(self).data@, 0, Map::empty()) is Some,
        ensures
            final(self).data@ == old(self).data@,
            final(self).first == old(self).first,
            final(self).n == old(self).n,
            Some(final(self).table@) == offset_table(old(self).data@, 0, Map::empty()),
    {
        match self.try_create_table() {
            Ok(()) => {},
            Err(_) => {
                proof {
                    assert(false);
                }
            },
        }
    }

    /// Reads the table of object numbers and offsets at the start of the
    /// decoded data (see [`offset_table`]); the table is left as it was where
    /// the data ends before a token that is not an integer.
    pub fn try_create_table(&mut self) -> (r: Result<(), BodyError>)
        ensures
            final(self).data@ == old(self).data@,
            final(self).first == old(self).first,
            final(self).n == old(self).n,
            match offset_table(old(self).data@, 0, Map::empty()) {
                Some(t) => r is Ok && final(self).table@ == t,
                None => r == Err::<(), BodyError>(BodyError::Malformed) && final(self).table@ == old(self).table@,
            },
    {
        let ghost s = self.data@;
        let mut table: HashMap<usize, usize> = HashMap::new();
        let mut parser = Lemmatizer::new(self.data.as_slice(), 0);
        loop
            invariant
                parser.wf(),
                parser.input() == s,
                s == self.data@,
                self.data@ == old(self).data@,
                self.first == old(self).first,
                self.n == old(self).n,
                self.table@ == old(self).table@,
                offset_table(s, parser.position(), table@) == offset_table(s, 0, Map::empty()),
            decreases s.len() - parser.position(),
        {
            let ghost p = parser.position();
            proof {
                lemma_lem_advances(s, p);
            }
            let t = parser.next_token();
            let obj_num = match t {
                Some(_) => match integer_value(&t) {
                    Some(n) => #[verifier::truncate] (n as usize),
                    None => {
                        self.table = table;
                        return Ok(());
                    },
                },
                None => {
                    return Err(BodyError::Malformed);
                },
            };
            let ghost q1 = parser.position();
            proof {
                lemma_lem_advances(s, q1);
            }
            let t2 = parser.next_token();
            let offset = match t2 {
                Some(_) => match integer_value(&t2) {
                    Some(n) => #[verifier::truncate] (n as usize),
                    None => {
                        self.table = table;
                        return Ok(());
                    },
                },
                None => {
                    return Err(BodyError::Malformed);
                },
            };
            table.insert(obj_num, offset);
        }
    }

    /// The object numbered `obj_num`, which the stream must hold (see
    /// [`stream_object`]).
    pub fn get(&self, obj_num: usize) -> (r: Object)
        requires
            stream_object(self@, obj_num) is Some,
        ensures
            Some(r@) == stream_object(self@, obj_num),
    {
        match self.try_get(obj_num) {
            Ok(x) => x,
            Err(_) => unreached(),
        }
    }

    /// The object numbered `obj_num` (see [`stream_object`]).
    pub fn try_get(&self, obj_num: usize) -> (r: Result<Object, BodyError>)
        ensures
            match stream_object(self@, obj_num) {
                Some(o) => r is Ok && r.unwrap()@ == o,
                None => r == Err::<Object, BodyError>(BodyError::Malformed),
            },
    {
        let offset = match self.table.get(&obj_num) {
            Some(o) => *o,
            None => {
                return Err(BodyError::Malformed);
            },
        };
        if offset > self.data.len() || self.first > self.data.len() - offset {
            return Err(BodyError::Malformed);
        }
        let start = offset + self.first;
        match Object::try_new(&self.data[start..self.data.len()], 0) {
            Ok(o) => Ok(o),
            Err(_) => Err(BodyError::Malformed),
        }
    }
}

} // verus!
