use vstd::prelude::*;

use crate::object::{parse_object, utf8_text, Dictionary, Object, ObjectV};
use crate::strings::utf8_to_string;

verus! {

/// The document information dictionary (PDF reference, section 10.2.1).
#[derive(Debug, PartialEq)]
pub struct Info {
    pub title: Option<String>,
    pub author: Option<String>,
    pub creator: Option<String>,
    pub producer: Option<String>,
    pub creation_date: Option<String>,
    pub mod_date: Option<String>,
}

/// Mathematical model of an [`Info`].
pub struct InfoV {
    pub title: Option<Seq<char>>,
    pub author: Option<Seq<char>>,
    pub creator: Option<Seq<char>>,
    pub producer: Option<Seq<char>>,
    pub creation_date: Option<Seq<char>>,
    pub mod_date: Option<Seq<char>>,
}

pub open spec fn opt_view(o: Option<String>) -> Option<Seq<char>> {
    match o {
        Some(s) => Some(s@),
        None => None,
    }
}

impl View for Info {
    type V = InfoV;

    open spec fn view(&self) -> InfoV {
        InfoV {
            title: opt_view(self.title),
            author: opt_view(self.author),
            creator: opt_view(self.creator),
            producer: opt_view(self.producer),
            creation_date: opt_view(self.creation_date),
            mod_date: opt_view(self.mod_date),
        }
    }
}

/// The information dictionary is not one, or holds a value of the wrong kind.
#[derive(Debug, PartialEq)]
pub enum InfoError {
    Malformed,
}

/// A text entry that must be a string: absent, or its text.
pub open spec fn string_entry(m: Map<Seq<char>, ObjectV>, key: Seq<char>) -> Option<Option<Seq<char>>> {
    if !m.contains_key(key) {
        Some(None)
    } else {
        match m[key] {
            ObjectV::String(s) => Some(Some(s)),
            _ => None,
        }
    }
}

/// A text entry that may also be a hexadecimal string: its bytes read as
/// UTF-8, and an empty text where they are not UTF-8.
pub open spec fn text_entry(m: Map<Seq<char>, ObjectV>, key: Seq<char>) -> Option<Option<Seq<char>>> {
    if !m.contains_key(key) {
        Some(None)
    } else {
        match m[key] {
            ObjectV::String(s) => Some(Some(s)),
            ObjectV::HexString(h) => Some(
                Some(
                    match utf8_text(h) {
                        Some(t) => t,
                        None => Seq::empty(),
                    },
                ),
            ),
            _ => None,
        }
    }
}

pub open spec fn key_title() -> Seq<char> {
    seq!['T', 'i', 't', 'l', 'e']
}

pub open spec fn key_author() -> Seq<char> {
    seq!['A', 'u', 't', 'h', 'o', 'r']
}

pub open spec fn key_creator() -> Seq<char> {
    seq!['C', 'r', 'e', 'a', 't', 'o', 'r']
}

pub open spec fn key_producer() -> Seq<char> {
    seq!['P', 'r', 'o', 'd', 'u', 'c', 'e', 'r']
}

pub open spec fn key_creation_date() -> Seq<char> {
    seq!['C', 'r', 'e', 'a', 't', 'i', 'o', 'n', 'D', 'a', 't', 'e']
}

pub open spec fn key_mod_date() -> Seq<char> {
    seq!['M', 'o', 'd', 'D', 'a', 't', 'e']
}

/// The information that a dictionary `m` holds.
pub open spec fn info_of(m: Map<Seq<char>, ObjectV>) -> Option<InfoV> {
    match (
        string_entry(m, key_title()),
        string_entry(m, key_author()),
        text_entry(m, key_creator()),
        text_entry(m, key_producer()),
        string_entry(m, key_creation_date()),
        string_entry(m, key_mod_date()),
    ) {
        (Some(t), Some(a), Some(c), Some(p), Some(cd), Some(md)) => Some(
            InfoV { title: t, author: a, creator: c, producer: p, creation_date: cd, mod_date: md },
        ),
        _ => None,
    }
}

/// The information dictionary of the object that starts at `p`.
pub open spec fn info_at(s: Seq<u8>, p: int) -> Option<InfoV> {
    match parse_object(s, p) {
        Some((ObjectV::Dictionary(m), _)) => info_of(m),
        _ => None,
    }
}

fn string_value(d: &Dictionary, key: &str) -> (r: Result<Option<String>, InfoError>)
    ensures
        match string_entry(d@, key@) {
            Some(v) => r is Ok && opt_view(r.unwrap()) == v,
            None => r is Err,
        },
{
    match d.get(key) {
        None => Ok(None),
        Some(Object::String(s)) => Ok(Some(s.clone())),
        Some(_) => Err(InfoError::Malformed),
    }
}

fn text_value(d: &Dictionary, key: &str) -> (r: Result<Option<String>, InfoError>)
    ensures
        match text_entry(d@, key@) {
            Some(v) => r is Ok && opt_view(r.unwrap()) == v,
            None => r is Err,
        },
{
    match d.get(key) {
        None => Ok(None),
        Some(Object::String(s)) => Ok(Some(s.clone())),
        Some(Object::HexString(h)) => match utf8_to_string(h.as_slice()) {
            Some(s) => Ok(Some(s)),
            None => Ok(Some(String::new())),
        },
        Some(_) => Err(InfoError::Malformed),
    }
}

impl Info {
    /// The information dictionary of the object that starts at `curr_idx`,
    /// which must be one (see [`info_at`]).
    pub fn new(bytes: &[u8], curr_idx: usize) -> (r: Info)
        requires
            curr_idx <= bytes@.len(),
            info_at(bytes@, curr_idx as int) is Some,
        ensures
            r@ == info_at(bytes@, curr_idx as int).unwrap(),
    {
        match Info::try_new(bytes, curr_idx) {
            Ok(i) => i,
            Err(_) => unreached(),
        }
    }

    /// The information dictionary of the object that starts at `curr_idx`,
    /// or why there is none (see [`info_at`]).
    pub fn try_new(bytes: &[u8], curr_idx: usize) -> (r: Result<Info, InfoError>)
        ensures
            curr_idx > bytes@.len() ==> r is Err,
            curr_idx <= bytes@.len() ==> match info_at(bytes@, curr_idx as int) {
                Some(v) => r is Ok && r.unwrap()@ == v,
                None => r is Err,
            },
    {
        match Object::try_new(bytes, curr_idx) {
            Ok(Object::Dictionary(dict)) => Self::try_from(dict),
            _ => Err(InfoError::Malformed),
        }
    }

    /// The information a dictionary holds, whose entries must have the kinds
    /// they are read as (see [`info_of`]).
    pub fn from(value: Dictionary) -> (r: Info)
        requires
            info_of(value@) is Some,
        ensures
            r@ == info_of(value@).unwrap(),
    {
        match Info::try_from(value) {
            Ok(i) => i,
            Err(_) => unreached(),
        }
    }

    /// The information a dictionary holds, or why it holds none (see
    /// [`info_of`]).
    pub fn try_from(value: Dictionary) -> (r: Result<Info, InfoError>)
        ensures
            match info_of(value@) {
                Some(v) => r is Ok && r.unwrap()@ == v,
                None => r is Err,
            },
    {
        proof {
            reveal_strlit("Title");
            reveal_strlit("Author");
            reveal_strlit("Creator");
            reveal_strlit("Producer");
            reveal_strlit("CreationDate");
            reveal_strlit("ModDate");
        }
        assert("Title"@ =~= key_title());
        assert("Author"@ =~= key_author());
        assert("Creator"@ =~= key_creator());
        assert("Producer"@ =~= key_producer());
        assert("CreationDate"@ =~= key_creation_date());
        assert("ModDate"@ =~= key_mod_date());
        let title = string_value(&value, "Title")?;
        let author = string_value(&value, "Author")?;
        let creator = text_value(&value, "Creator")?;
        let producer = text_value(&value, "Producer")?;
        let creation_date = string_value(&value, "CreationDate")?;
        let mod_date = string_value(&value, "ModDate")?;
        Ok(Info { title, author, creator, producer, creation_date, mod_date })
    }
}

} // verus!
