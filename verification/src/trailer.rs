use vstd::prelude::*;

use crate::algebra::{Number, NumberV};
use crate::body::{
    catalog_at, opt_number, opt_number_value, opt_number_view, opt_ref, opt_ref_value, Catalog,
};
use crate::info::{info_at, Info, InfoV};
use crate::object::{array_view, parse_object, Array, Dictionary, IndirectObject, Object, ObjectV};
use crate::xref::{object_offset, XRef, XRefV};

verus! {

/// The trailer dictionary of a file (PDF reference, section 3.4.4), with the
/// catalog and the information dictionary read where the cross-reference data
/// holds them.
#[derive(Debug)]
pub struct Trailer {
    /// Number of entries in the cross-reference table.
    pub size: Number,
    /// Offset of the previous cross-reference section.
    pub prev: Option<Number>,
    /// The document catalog; `None` where the cross-reference data has no
    /// entry for it.
    pub root: Option<Catalog>,
    /// Reference to the encryption dictionary.
    pub encrypt: Option<IndirectObject>,
    /// The document information dictionary; `None` where it is absent, or
    /// where the cross-reference data has no entry for it.
    pub info: Option<Info>,
    /// The file identifier.
    pub id: Option<Array>,
}

/// Mathematical model of a [`Trailer`].
pub struct TrailerV {
    pub size: NumberV,
    pub prev: Option<NumberV>,
    pub root: Option<Catalog>,
    pub encrypt: Option<(i32, i32)>,
    pub info: Option<InfoV>,
    pub id: Option<Seq<ObjectV>>,
}

impl View for Trailer {
    type V = TrailerV;

    open spec fn view(&self) -> TrailerV {
        TrailerV {
            size: self.size@,
            prev: opt_number_view(self.prev),
            root: self.root,
            encrypt: self.encrypt,
            info: match self.info {
                Some(i) => Some(i@),
                None => None,
            },
            id: match self.id {
                Some(a) => Some(array_view(a@)),
                None => None,
            },
        }
    }
}

/// The trailer could not be read.
#[derive(Debug, PartialEq)]
pub enum TrailerError {
    Malformed,
}

/// The catalog that reference `key` designates in the file `bytes`:
/// `Some(None)` where the cross-reference data `x` has no entry for it,
/// `None` where it cannot be read.
pub open spec fn resolved_catalog(x: XRefV, key: (i32, i32), bytes: Seq<u8>) -> Option<Option<Catalog>> {
    match object_offset(x, key, bytes) {
        Ok(Some(addr)) => match catalog_at(bytes, addr as int) {
            Ok(c) => Some(Some(c)),
            Err(_) => None,
        },
        Ok(None) => Some(None),
        Err(_) => None,
    }
}

/// The information dictionary that reference `key` designates, as
/// [`resolved_catalog`] does for the catalog.
pub open spec fn resolved_info(x: XRefV, key: (i32, i32), bytes: Seq<u8>) -> Option<Option<InfoV>> {
    match object_offset(x, key, bytes) {
        Ok(Some(addr)) => if addr <= bytes.len() {
            match info_at(bytes, addr as int) {
                Some(v) => Some(Some(v)),
                None => None,
            }
        } else {
            None
        },
        Ok(None) => Some(None),
        Err(_) => None,
    }
}

/// The trailer that a trailer dictionary `m` of the file `bytes` with the
/// cross-reference data `x` describes: `Size` is a number, `Root` a
/// reference, and each optional entry of the kind it must have.
pub open spec fn trailer_of(m: Map<Seq<char>, ObjectV>, x: XRefV, bytes: Seq<u8>) -> Option<TrailerV> {
    let size = if m.contains_key("Size"@) {
        match m["Size"@] {
            ObjectV::Numeric(n) => Some(n),
            _ => None,
        }
    } else {
        None
    };
    let root = if m.contains_key("Root"@) {
        match m["Root"@] {
            ObjectV::Ref(a, b) => resolved_catalog(x, (a, b), bytes),
            _ => None,
        }
    } else {
        None
    };
    let info = if !m.contains_key("Info"@) {
        Some(None)
    } else {
        match m["Info"@] {
            ObjectV::Ref(a, b) => resolved_info(x, (a, b), bytes),
            _ => None,
        }
    };
    let id = if !m.contains_key("ID"@) {
        Some(None)
    } else {
        match m["ID"@] {
            ObjectV::Array(a) => Some(Some(a)),
            _ => None,
        }
    };
    match (size, opt_number(m, "Prev"@), root, opt_ref(m, "Encrypt"@), info, id) {
        (Some(s), Some(p), Some(r), Some(e), Some(i), Some(d)) => Some(
            TrailerV { size: s, prev: p, root: r, encrypt: e, info: i, id: d },
        ),
        _ => None,
    }
}

fn read_catalog_at(bytes: &[u8], xref: &XRef, key: &IndirectObject) -> (r: Result<Option<Catalog>, TrailerError>)
    ensures
        match resolved_catalog(xref@, *key, bytes@) {
            Some(c) => r == Ok::<Option<Catalog>, TrailerError>(c),
            None => r is Err,
        },
{
    match xref.try_get_and_fix(key, bytes) {
        Ok(Some(address)) => match Catalog::try_new(bytes, address) {
            Ok(c) => Ok(Some(c)),
            Err(_) => Err(TrailerError::Malformed),
        },
        Ok(None) => Ok(None),
        Err(_) => Err(TrailerError::Malformed),
    }
}

fn read_info_at(bytes: &[u8], xref: &XRef, key: &IndirectObject) -> (r: Result<Option<Info>, TrailerError>)
    ensures
        match resolved_info(xref@, *key, bytes@) {
            Some(Some(v)) => r matches Ok(Some(i)) && i@ == v,
            Some(None) => r matches Ok(None),
            None => r is Err,
        },
{
    match xref.try_get_and_fix(key, bytes) {
        Ok(Some(address)) => match Info::try_new(bytes, address) {
            Ok(i) => Ok(Some(i)),
            Err(_) => Err(TrailerError::Malformed),
        },
        Ok(None) => Ok(None),
        Err(_) => Err(TrailerError::Malformed),
    }
}

impl Trailer {
    /// The trailer whose dictionary starts at `curr_idx` of the file `bytes`,
    /// which must be a trailer dictionary whose catalog and information
    /// dictionary can be read (see [`trailer_of`]).
    pub fn new(bytes: &[u8], curr_idx: usize, xref: &XRef) -> (r: Trailer)
        requires
            curr_idx <= bytes@.len(),
            parse_object(bytes@, curr_idx as int) matches Some((ObjectV::Dictionary(m), _))
                && trailer_of(m, xref@, bytes@) is Some,
        ensures
            parse_object(bytes@, curr_idx as int) matches Some((ObjectV::Dictionary(m), _))
                && Some(r@) == trailer_of(m, xref@, bytes@),
    {
        match Trailer::try_new(bytes, curr_idx, xref) {
            Ok(t) => t,
            Err(_) => unreached(),
        }
    }

    /// The trailer whose dictionary starts at `curr_idx` of the file `bytes`
    /// (see [`trailer_of`]).
    pub fn try_new(bytes: &[u8], curr_idx: usize, xref: &XRef) -> (r: Result<Trailer, TrailerError>)
        ensures
            curr_idx > bytes@.len() ==> r is Err,
            curr_idx <= bytes@.len() ==> match parse_object(bytes@, curr_idx as int) {
                Some((ObjectV::Dictionary(m), _)) => match trailer_of(m, xref@, bytes@) {
                    Some(t) => r is Ok && r.unwrap()@ == t,
                    None => r is Err,
                },
                _ => r is Err,
            },
    {
        match Object::try_new(bytes, curr_idx) {
            Ok(Object::Dictionary(dict)) => Trailer::try_from(dict, bytes, xref),
            _ => Err(TrailerError::Malformed),
        }
    }

    /// The trailer of a trailer dictionary of the file `bytes`, whose
    /// cross-reference data is `xref`; its catalog and information dictionary
    /// must be readable (see [`trailer_of`]).
    pub fn from(value: Dictionary, bytes: &[u8], xref: &XRef) -> (r: Trailer)
        requires
            trailer_of(value@, xref@, bytes@) is Some,
        ensures
            Some(r@) == trailer_of(value@, xref@, bytes@),
    {
        match Trailer::try_from(value, bytes, xref) {
            Ok(t) => t,
            Err(_) => unreached(),
        }
    }

    /// The trailer of a trailer dictionary of the file `bytes`, whose
    /// cross-reference data is `xref` (see [`trailer_of`]).
    pub fn try_from(value: Dictionary, bytes: &[u8], xref: &XRef) -> (r: Result<Trailer, TrailerError>)
        ensures
            match trailer_of(value@, xref@, bytes@) {
                Some(t) => r is Ok && r.unwrap()@ == t,
                None => r is Err,
            },
    {
        let ghost m = value@;
        let size = match value.get("Size") {
            Some(Object::Numeric(n)) => n.duplicate(),
            _ => {
                return Err(TrailerError::Malformed);
            },
        };
        let prev = match opt_number_value(&value, "Prev") {
            Ok(p) => p,
            Err(_) => {
                return Err(TrailerError::Malformed);
            },
        };
        let root = match value.get("Root") {
            Some(Object::Ref(key)) => read_catalog_at(bytes, xref, key)?,
            _ => {
                return Err(TrailerError::Malformed);
            },
        };
        let encrypt = match opt_ref_value(&value, "Encrypt") {
            Ok(e) => e,
            Err(_) => {
                return Err(TrailerError::Malformed);
            },
        };
        let info = match value.get("Info") {
            Some(Object::Ref(key)) => read_info_at(bytes, xref, key)?,
            None => None,
            Some(_) => {
                return Err(TrailerError::Malformed);
            },
        };
        let id = match value.take("ID") {
            Some(Object::Array(a)) => Some(a),
            None => None,
            Some(_) => {
                return Err(TrailerError::Malformed);
            },
        };
        Ok(Trailer { size, prev, root, encrypt, info, id })
    }
}

} // verus!
