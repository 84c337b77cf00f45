use vstd::prelude::*;

pub mod algebra;
pub mod body;
pub mod cmap;
pub mod content;
pub mod filters;
pub mod info;
pub mod lemmatizer;
pub mod object;
pub mod strings;
pub mod tokenizer;
pub mod trailer;
pub mod xref;

use crate::algebra::{duplicate_numbers, numbers_view, Number, NumberV};
use crate::body::{
    all_numbers, catalog_at, font_entries_view, font_map_of, font_of, kid_of, lemma_font_entries_keys,
    node_of, numbers_of, resources_of, stream_of, BodyError, Catalog, Font, FontMap, FontV, Indirect,
    IndirectV, KidV, Page, PageTreeKids, PageTreeNode, PageV, Resources, ResourcesV, Stream, StreamV,
};
use crate::cmap::{cmap_codes, cmap_of, ToUnicodeCMap};
use crate::content::{fonts_view, initial_text_state, text_from, TextContent, TextError};
use crate::info::{Info, InfoError};
use crate::object::{parse_object, IndirectObject, Object, ObjectV};
use crate::strings::{push_char, utf8_to_string};
use crate::tokenizer::lemma_lex_past_end;
use crate::trailer::{trailer_of, Trailer};
use crate::xref::{
    find_from, first_match, lemma_first_match, matches_at, object_offset, startxref_at, xref_section,
    xref_table, XRef, XRefError, XRefV,
};
use vstd::utf8::{decode_utf8, encode_utf8, valid_utf8};

verus! {

/// What to extract from a document.
#[derive(Debug, Clone, Copy, PartialEq)]
pub enum Extract {
    Text,
    Chars,
    Font,
    RawContent,
    Xref,
}

/// Versions of the PDF format that are read.
#[derive(Debug, Clone, Copy, PartialEq)]
pub enum PdfVersion {
    V1_3,
    V1_4,
    V1_5,
    V1_6,
    V1_7,
}

/// The version number as it is written, such as `1.7`.
pub open spec fn version_text(v: PdfVersion) -> Seq<char> {
    match v {
        PdfVersion::V1_3 => "1.3"@,
        PdfVersion::V1_4 => "1.4"@,
        PdfVersion::V1_5 => "1.5"@,
        PdfVersion::V1_6 => "1.6"@,
        PdfVersion::V1_7 => "1.7"@,
    }
}

impl PdfVersion {
    /// The version number as it is written, such as `1.7`.
    pub fn text(&self) -> (r: String)
        ensures
            r@ == version_text(*self),
    {
        proof {
            broadcast use vstd::string::to_string_from_display_ensures_for_str;
        }
        match self {
            PdfVersion::V1_3 => "1.3".to_string(),
            PdfVersion::V1_4 => "1.4".to_string(),
            PdfVersion::V1_5 => "1.5".to_string(),
            PdfVersion::V1_6 => "1.6".to_string(),
            PdfVersion::V1_7 => "1.7".to_string(),
        }
    }
}

/// The version that three bytes `1.x` name.
pub open spec fn version_of(t: Seq<u8>) -> Option<PdfVersion> {
    if t.len() != 3 || t[0] != 49 || t[1] != 46 {
        None
    } else if t[2] == 55 {
        Some(PdfVersion::V1_7)
    } else if t[2] == 54 {
        Some(PdfVersion::V1_6)
    } else if t[2] == 53 {
        Some(PdfVersion::V1_5)
    } else if t[2] == 52 {
        Some(PdfVersion::V1_4)
    } else if t[2] == 51 {
        Some(PdfVersion::V1_3)
    } else {
        None
    }
}

/// The version named by the last three bytes of a header line such as
/// `%PDF-1.7`, which must be a supported one.
pub fn pdf_version(s: &[u8]) -> (r: PdfVersion)
    requires
        s@.len() >= 3,
        version_of(s@.subrange(s@.len() - 3, s@.len() as int)) is Some,
    ensures
        version_of(s@.subrange(s@.len() - 3, s@.len() as int)) == Some(r),
{
    let n = s.len();
    let ghost t = s@.subrange(n - 3, n as int);
    assert(t[0] == s@[n - 3] && t[1] == s@[n - 2] && t[2] == s@[n - 1]);
    match s[n - 1] {
        55 => PdfVersion::V1_7,
        54 => PdfVersion::V1_6,
        53 => PdfVersion::V1_5,
        52 => PdfVersion::V1_4,
        _ => PdfVersion::V1_3,
    }
}

// ---------------------------------------------------------------------------
// Documents
// ---------------------------------------------------------------------------

/// White space as `u8::is_ascii_whitespace` defines it.
pub open spec fn is_ascii_ws(b: u8) -> bool {
    b == 9 || b == 10 || b == 12 || b == 13 || b == 32
}

/// Number of white space bytes at the start of `s`.
pub open spec fn leading_ws(s: Seq<u8>) -> nat
    decreases s.len(),
{
    if s.len() > 0 && is_ascii_ws(s[0]) {
        1 + leading_ws(s.drop_first())
    } else {
        0
    }
}

/// Number of white space bytes at the end of `s`.
pub open spec fn trailing_ws(s: Seq<u8>) -> nat
    decreases s.len(),
{
    if s.len() > 0 && is_ascii_ws(s.last()) {
        1 + trailing_ws(s.drop_last())
    } else {
        0
    }
}

/// `s` without its leading and trailing white space.
pub open spec fn trimmed(s: Seq<u8>) -> Seq<u8> {
    let a = s.subrange(leading_ws(s) as int, s.len() as int);
    a.subrange(0, a.len() - trailing_ws(a))
}

proof fn lemma_leading_ws(s: Seq<u8>)
    ensures
        leading_ws(s) <= s.len(),
    decreases s.len(),
{
    if s.len() > 0 && is_ascii_ws(s[0]) {
        lemma_leading_ws(s.drop_first());
    }
}

proof fn lemma_trailing_ws(s: Seq<u8>)
    ensures
        trailing_ws(s) <= s.len(),
    decreases s.len(),
{
    if s.len() > 0 && is_ascii_ws(s.last()) {
        lemma_trailing_ws(s.drop_last());
    }
}

/// `s` without its leading and trailing ASCII white space (see [`trimmed`]).
pub fn trim_ascii(s: &[u8]) -> (r: &[u8])
    ensures
        r@ == trimmed(s@),
{
    let n = s.len();
    let mut i: usize = 0;
    assert(s@.subrange(0, n as int) =~= s@);
    while i < n && (s[i] == 9 || s[i] == 10 || s[i] == 12 || s[i] == 13 || s[i] == 32)
        invariant
            n == s@.len(),
            i <= n,
            leading_ws(s@) == i + leading_ws(s@.subrange(i as int, n as int)),
        decreases n - i,
    {
        assert(s@.subrange(i as int, n as int).drop_first() =~= s@.subrange(i + 1, n as int));
        i = i + 1;
    }
    assert(leading_ws(s@.subrange(i as int, n as int)) == 0);
    let ghost a = s@.subrange(i as int, n as int);
    let mut j: usize = n;
    while j > i && (s[j - 1] == 9 || s[j - 1] == 10 || s[j - 1] == 12 || s[j - 1] == 13 || s[j - 1] == 32)
        invariant
            n == s@.len(),
            i <= j <= n,
            a == s@.subrange(i as int, n as int),
            trailing_ws(a) == (n - j) + trailing_ws(s@.subrange(i as int, j as int)),
        decreases j - i,
    {
        assert(s@.subrange(i as int, j as int).drop_last() =~= s@.subrange(i as int, j - 1));
        j = j - 1;
    }
    assert(trailing_ws(s@.subrange(i as int, j as int)) == 0);
    assert(a.subrange(0, a.len() - trailing_ws(a)) =~= s@.subrange(i as int, j as int));
    &s[i..j]
}

proof fn lemma_no_leading_ws(s: Seq<u8>)
    requires
        s.len() == 0 || !is_ascii_ws(s[0]),
    ensures
        leading_ws(s) == 0,
{
}

proof fn lemma_trimmed_shape(s: Seq<u8>)
    ensures
        trimmed(s).len() == 0 || (!is_ascii_ws(trimmed(s)[0]) && !is_ascii_ws(trimmed(s).last())),
    decreases s.len(),
{
    lemma_leading_ws(s);
    let a = s.subrange(leading_ws(s) as int, s.len() as int);
    lemma_trailing_ws(a);
    lemma_leading_ws_stop(s);
    lemma_trailing_ws_stop(a);
    let t = trimmed(s);
    if t.len() > 0 {
        assert(t[0] == a[0]);
        assert(t.last() == a[a.len() - trailing_ws(a) - 1]);
    }
}

/// The byte after the leading white space is not white space.
proof fn lemma_leading_ws_stop(s: Seq<u8>)
    ensures
        leading_ws(s) < s.len() ==> !is_ascii_ws(s[leading_ws(s) as int]),
    decreases s.len(),
{
    if s.len() > 0 && is_ascii_ws(s[0]) {
        lemma_leading_ws_stop(s.drop_first());
        lemma_leading_ws(s.drop_first());
        if leading_ws(s) < s.len() {
            assert(s[leading_ws(s) as int] == s.drop_first()[leading_ws(s.drop_first()) as int]);
        }
    }
}

/// The byte before the trailing white space is not white space.
proof fn lemma_trailing_ws_stop(s: Seq<u8>)
    ensures
        trailing_ws(s) < s.len() ==> !is_ascii_ws(s[s.len() - trailing_ws(s) - 1]),
    decreases s.len(),
{
    if s.len() > 0 && is_ascii_ws(s.last()) {
        lemma_trailing_ws_stop(s.drop_last());
        lemma_trailing_ws(s.drop_last());
        if trailing_ws(s) < s.len() {
            assert(s[s.len() - trailing_ws(s) - 1] == s.drop_last()[s.drop_last().len()
                - trailing_ws(s.drop_last()) - 1]);
        }
    }
}

/// Trimming trimmed bytes changes nothing.
pub proof fn law_trim_idempotent(s: Seq<u8>)
    ensures
        trimmed(trimmed(s)) == trimmed(s),
{
    let t = trimmed(s);
    lemma_trimmed_shape(s);
    if t.len() > 0 {
        lemma_no_leading_ws(t);
        assert(t.subrange(0, t.len() as int) =~= t);
        assert(trailing_ws(t) == 0);
        assert(trimmed(t) =~= t);
    } else {
        assert(trimmed(t) =~= t);
    }
}

/// The text of a version, written as bytes, is read back as that version.
pub proof fn law_version_text_read_back(v: PdfVersion)
    ensures
        version_of(version_text(v).map_values(|c: char| c as u8)) == Some(v),
{
    reveal_strlit("1.3");
    reveal_strlit("1.4");
    reveal_strlit("1.5");
    reveal_strlit("1.6");
    reveal_strlit("1.7");
    let b = version_text(v).map_values(|c: char| c as u8);
    assert(b.len() == 3);
    assert(b[0] == 49u8 && b[1] == 46u8);
    match v {
        PdfVersion::V1_3 => assert(b[2] == 51u8),
        PdfVersion::V1_4 => assert(b[2] == 52u8),
        PdfVersion::V1_5 => assert(b[2] == 53u8),
        PdfVersion::V1_6 => assert(b[2] == 54u8),
        PdfVersion::V1_7 => assert(b[2] == 55u8),
    }
}

/// The file ends with the marker `%%EOF`.
pub open spec fn ends_with_eof(t: Seq<u8>) -> bool {
    t.len() >= 5 && t.subrange(t.len() - 5, t.len() as int) == seq![37u8, 37, 69, 79, 70]
}

/// The last cross-reference section of the file `t`, found through the offset
/// after its `startxref` keyword.
pub open spec fn last_xref(t: Seq<u8>) -> Option<XRefV> {
    match startxref_at(t) {
        Some(n) => if n <= t.len() {
            xref_section(t.subrange(n as int, t.len() as int))
        } else {
            None
        },
        None => None,
    }
}

/// A document could not be opened or read.
#[derive(Debug, PartialEq)]
pub enum PdfError {
    /// The file does not end with `%%EOF`.
    Corrupted,
    /// The cross-reference data could not be read or used.
    XRef(XRefError),
    /// No cross-reference entry for the object.
    NotFound,
    /// The bytes at the object's offset do not form an object.
    Malformed,
    /// The trailer cannot be found or read.
    Trailer,
    /// An object of the document structure cannot be read.
    Body(BodyError),
    /// The page tree is deeper than the file is long: it has a cycle.
    TooDeep,
    /// A ToUnicode CMap is not UTF-8 text, or cannot be read.
    CMap,
    /// The text of a page cannot be read.
    Text(TextError),
    /// A page has no content stream.
    NoContents,
}

/// A PDF document: its bytes, without surrounding white space, and its last
/// cross-reference section.
pub struct Pdf<'a> {
    file: &'a [u8],
    xref: XRef,
    startxref: usize,
}

impl<'a> Pdf<'a> {
    /// Bytes of the document.
    pub closed spec fn contents(&self) -> Seq<u8> {
        self.file@
    }

    /// Last cross-reference section of the document.
    pub closed spec fn cross_refs(&self) -> XRefV {
        self.xref@
    }

    /// Offset of the last cross-reference section.
    pub closed spec fn xref_offset(&self) -> usize {
        self.startxref
    }

    /// Opens the document held in `value`: surrounding white space is
    /// dropped, the file must end with `%%EOF`, and its last cross-reference
    /// section is read (see [`last_xref`]).
    pub fn from(value: &'a Vec<u8>) -> (r: Result<Pdf<'a>, PdfError>)
        ensures
            !ends_with_eof(trimmed(value@)) ==> r == Err::<Pdf<'a>, PdfError>(PdfError::Corrupted),
            ends_with_eof(trimmed(value@)) ==> match last_xref(trimmed(value@)) {
                Some(x) => r is Ok && r.unwrap().contents() == trimmed(value@)
                    && r.unwrap().cross_refs() == x && r.unwrap().xref_offset() == startxref_at(
                    trimmed(value@),
                ).unwrap(),
                None => r == Err::<Pdf<'a>, PdfError>(PdfError::XRef(XRefError::Malformed)),
            },
    {
        let file = trim_ascii(value.as_slice());
        let n = file.len();
        if n < 5 || file[n - 5] != 37 || file[n - 4] != 37 || file[n - 3] != 69 || file[n - 2] != 79
            || file[n - 1] != 70 {
            proof {
                if n >= 5 && file@.subrange(n - 5, n as int) == seq![37u8, 37, 69, 79, 70] {
                    assert(file@[n - 5] == file@.subrange(n - 5, n as int)[0]);
                    assert(file@[n - 4] == file@.subrange(n - 5, n as int)[1]);
                    assert(file@[n - 3] == file@.subrange(n - 5, n as int)[2]);
                    assert(file@[n - 2] == file@.subrange(n - 5, n as int)[3]);
                    assert(file@[n - 1] == file@.subrange(n - 5, n as int)[4]);
                }
            }
            return Err(PdfError::Corrupted);
        }
        assert(file@.subrange(n - 5, n as int) =~= seq![37u8, 37, 69, 79, 70]);
        match xref_table(file) {
            Ok((xref, startxref)) => Ok(Pdf { file, xref, startxref }),
            Err(e) => Err(PdfError::XRef(e)),
        }
    }

    /// Bytes of the document.
    pub fn file(&self) -> (r: &'a [u8])
        ensures
            r@ == self.contents(),
    {
        self.file
    }

    /// Last cross-reference section of the document.
    pub fn xref(&self) -> (r: &XRef)
        ensures
            r@ == self.cross_refs(),
    {
        &self.xref
    }

    /// The document catalog whose dictionary starts at `curr_idx`, which
    /// must be a catalog dictionary (see [`Catalog::new`]).
    pub fn read_catalog(file_stream: &[u8], curr_idx: usize) -> (r: Catalog)
        requires
            catalog_at(file_stream@, curr_idx as int) is Ok,
        ensures
            Ok::<Catalog, BodyError>(r) == catalog_at(file_stream@, curr_idx as int),
    {
        Catalog::new(file_stream, curr_idx)
    }

    /// The document information dictionary that starts at `curr_idx`, which
    /// must be one (see [`Info::new`]).
    pub fn read_info(file_stream: &[u8], curr_idx: usize) -> (r: Info)
        requires
            curr_idx <= file_stream@.len(),
            crate::info::info_at(file_stream@, curr_idx as int) is Some,
        ensures
            r@ == crate::info::info_at(file_stream@, curr_idx as int).unwrap(),
    {
        Info::new(file_stream, curr_idx)
    }

    /// The indirect object `key`, read at the offset that the cross-reference
    /// data gives for it (see [`object_of`]).
    pub fn get_object(&self, key: &IndirectObject) -> (r: Result<Object, PdfError>)
        ensures
            object_result(r) == object_of(self.contents(), self.cross_refs(), *key),
    {
        match self.xref.try_get_and_fix(key, self.file) {
            Ok(Some(off)) => {
                if off > self.file.len() {
                    proof {
                        lemma_lex_past_end(self.file@, off as int);
                    }
                    return Err(PdfError::Malformed);
                }
                match Object::try_new(self.file, off) {
                    Ok(o) => Ok(o),
                    Err(_) => Err(PdfError::Malformed),
                }
            },
            Ok(None) => Err(PdfError::NotFound),
            Err(e) => Err(PdfError::XRef(e)),
        }
    }

    /// The trailer of the document (see [`trailer_dict`] and [`trailer_of`]).
    pub fn trailer(&self) -> (r: Result<Trailer, PdfError>)
        ensures
            match trailer_dict(self.contents(), self.cross_refs(), self.xref_offset() as int) {
                Some(m) => match trailer_of(m, self.cross_refs(), self.contents()) {
                    Some(t) => r is Ok && r.unwrap()@ == t,
                    None => r == Err::<Trailer, PdfError>(PdfError::Trailer),
                },
                None => r == Err::<Trailer, PdfError>(PdfError::Trailer),
            },
    {
        let dict = match &self.xref {
            XRef::XRefTable(_) => {
                let kw: [u8; 7] = [116, 114, 97, 105, 108, 101, 114];
                assert(kw@ =~= kw_trailer());
                let n = self.file.len();
                match find_from(self.file, &kw, self.startxref) {
                    Some(i) => {
                        proof {
                            lemma_first_match(self.file@, kw_trailer(), self.startxref as int);
                            assert(matches_at(self.file@, kw_trailer(), i as int));
                            assert(kw_trailer().len() == 7);
                        }
                        match Object::try_new(self.file, i + 7) {
                            Ok(Object::Dictionary(d)) => d,
                            _ => {
                                return Err(PdfError::Trailer);
                            },
                        }
                    },
                    None => {
                        return Err(PdfError::Trailer);
                    },
                }
            },
            XRef::XRefStream(_) => {
                if self.startxref > self.file.len() {
                    proof {
                        lemma_lex_past_end(self.file@, self.startxref as int);
                    }
                    return Err(PdfError::Trailer);
                }
                match Object::try_new(self.file, self.startxref) {
                    Ok(Object::Stream(s)) => s.header,
                    _ => {
                        return Err(PdfError::Trailer);
                    },
                }
            },
        };
        match Trailer::try_from(dict, self.file, &self.xref) {
            Ok(t) => Ok(t),
            Err(_) => Err(PdfError::Trailer),
        }
    }

    /// The document catalog, found through the `Root` entry of the trailer
    /// (see [`catalog_in`]).
    pub fn catalog(&self) -> (r: Result<Catalog, PdfError>)
        ensures
            r == catalog_in(self.contents(), self.cross_refs(), self.xref_offset() as int),
    {
        match self.trailer()?.root {
            Some(c) => Ok(c),
            None => Err(PdfError::NotFound),
        }
    }

    /// Reads the root of the page tree of `catalog` into its `pages`.
    pub fn resolve_pages(&self, catalog: &mut Catalog) -> (r: Result<(), PdfError>)
        ensures
            final(catalog).pages_ref == old(catalog).pages_ref,
            match object_of(self.contents(), self.cross_refs(), old(catalog).pages_ref) {
                Ok(ObjectV::Dictionary(m)) => match node_of(m) {
                    Some(n) => r is Ok && (final(catalog).pages matches Some(Indirect::T(node))
                        && node.refs() == Some(n)),
                    None => r == Err::<(), PdfError>(PdfError::Body(BodyError::Malformed))
                        && final(catalog).pages == old(catalog).pages,
                },
                Ok(_) => r == Err::<(), PdfError>(PdfError::Body(BodyError::Malformed))
                    && final(catalog).pages == old(catalog).pages,
                Err(e) => r == Err::<(), PdfError>(e) && final(catalog).pages == old(catalog).pages,
            },
    {
        let o = self.get_object(&catalog.pages_ref)?;
        match &o {
            Object::Dictionary(_) => {},
            _ => {
                return Err(PdfError::Body(BodyError::Malformed));
            },
        }
        match PageTreeNode::try_from_object(o) {
            Ok(node) => {
                catalog.pages = Some(Indirect::T(node));
                Ok(())
            },
            Err(_) => Err(PdfError::Body(BodyError::Malformed)),
        }
    }

    /// Appends the pages under the kid `key` (see [`kid_into`]).
    fn collect_kid(&self, key: &IndirectObject, fuel: usize, out: &mut Vec<Page>) -> (r: Result<(), PdfError>)
        ensures
            match kid_into(self.contents(), self.cross_refs(), *key, fuel as nat, pages_view(old(out)@)) {
                Ok(a) => r is Ok && pages_view(final(out)@) == a,
                Err(e) => r == Err::<(), PdfError>(e),
            },
        decreases fuel, 0nat,
    {
        let o = self.get_object(key)?;
        match &o {
            Object::Dictionary(_) => {},
            _ => {
                return Err(PdfError::Body(BodyError::Malformed));
            },
        }
        match PageTreeKids::try_from(o) {
            Ok(PageTreeKids::Page(Indirect::T(p))) => {
                let ghost before = pages_view(out@);
                out.push(p);
                assert(pages_view(out@) =~= before.push(p@));
                Ok(())
            },
            Ok(PageTreeKids::PageTreeNode(Indirect::T(node))) => {
                if fuel == 0 {
                    return Err(PdfError::TooDeep);
                }
                self.collect_kids(&node, fuel - 1, out)
            },
            _ => Err(PdfError::Body(BodyError::Malformed)),
        }
    }

    /// Appends the pages under the kids of `node` (see [`kids_into`]).
    fn collect_kids(&self, node: &PageTreeNode, fuel: usize, out: &mut Vec<Page>) -> (r: Result<(), PdfError>)
        requires
            node.refs() is Some,
        ensures
            match kids_into(
                self.contents(),
                self.cross_refs(),
                node.refs().unwrap().kids,
                0,
                fuel as nat,
                pages_view(old(out)@),
            ) {
                Ok(a) => r is Ok && pages_view(final(out)@) == a,
                Err(e) => r == Err::<(), PdfError>(e),
            },
        decreases fuel, 1nat,
    {
        let ghost kids = node.refs().unwrap().kids;
        let ghost target = kids_into(self.contents(), self.cross_refs(), kids, 0, fuel as nat, pages_view(out@));
        let mut j: usize = 0;
        while j < node.kids.len()
            invariant
                j <= node.kids@.len(),
                node.refs() is Some,
                kids == node.refs().unwrap().kids,
                kids.len() == node.kids@.len(),
                target == kids_into(self.contents(), self.cross_refs(), kids, 0, fuel as nat, pages_view(old(out)@)),
                kids_into(self.contents(), self.cross_refs(), kids, j as int, fuel as nat, pages_view(out@)) == target,
            decreases node.kids@.len() - j,
        {
            assert(node.kids@[j as int] is Ref);
            assert(kids[j as int] == (node.kids@[j as int]->Ref_0, node.kids@[j as int]->Ref_1));
            match &node.kids[j] {
                Indirect::Ref(a, b) => {
                    let key = (*a, *b);
                    self.collect_kid(&key, fuel, out)?;
                },
                Indirect::T(_) => {
                    return Err(PdfError::Body(BodyError::Malformed));
                },
            }
            j = j + 1;
        }
        Ok(())
    }

    /// The decoded data of the stream object `key` (see [`stream_at`]).
    fn stream_data(&self, key: &IndirectObject) -> (r: Result<Vec<u8>, PdfError>)
        ensures
            match stream_at(self.contents(), self.cross_refs(), *key) {
                Ok(sv) => r is Ok && r.unwrap()@ == sv.data,
                Err(e) => r == Err::<Vec<u8>, PdfError>(e),
            },
    {
        match self.get_object(key)? {
            Object::Stream(s) => match Stream::try_from(s) {
                Ok(st) => Ok(st.data),
                Err(e) => Err(PdfError::Body(e)),
            },
            _ => Err(PdfError::Body(BodyError::Malformed)),
        }
    }

    /// The decoded content stream of `page` (see [`page_data`]).
    pub fn page_content(&self, page: &Page) -> (r: Result<Vec<u8>, PdfError>)
        ensures
            match page_data(self.contents(), self.cross_refs(), page@) {
                Ok(d) => r is Ok && r.unwrap()@ == d,
                Err(e) => r == Err::<Vec<u8>, PdfError>(e),
            },
    {
        reveal(page_data);
        match &page.contents {
            Some(Indirect::Ref(a, b)) => self.stream_data(&(*a, *b)),
            Some(Indirect::T(st)) => Ok(st.get_data()),
            None => Err(PdfError::NoContents),
        }
    }

    /// The ToUnicode CMap of `font` (see [`unicode_of`]).
    fn font_cmap(&self, font: &Font) -> (r: Result<Option<ToUnicodeCMap>, PdfError>)
        ensures
            match unicode_of(self.contents(), self.cross_refs(), font@.to_unicode) {
                Ok(o) => r is Ok && opt_codes(r.unwrap()) == o,
                Err(e) => r == Err::<Option<ToUnicodeCMap>, PdfError>(e),
            },
    {
        match &font.to_unicode {
            None => Ok(None),
            Some(Indirect::T(cm)) => Ok(Some(cm.duplicate())),
            Some(Indirect::Ref(a, b)) => {
                let data = self.stream_data(&(*a, *b))?;
                match utf8_to_string(data.as_slice()) {
                    Some(text) => match ToUnicodeCMap::try_from(text) {
                        Ok(cm) => Ok(Some(cm)),
                        Err(_) => Err(PdfError::CMap),
                    },
                    None => Err(PdfError::CMap),
                }
            },
        }
    }

    /// The ToUnicode CMap of the font that an entry of a font map gives (see
    /// [`entry_codes`]).
    fn entry_cmap(&self, f: &Indirect<Font>) -> (r: Result<Option<ToUnicodeCMap>, PdfError>)
        ensures
            match entry_codes(self.contents(), self.cross_refs(), f@) {
                Ok(o) => r is Ok && opt_codes(r.unwrap()) == o,
                Err(e) => r == Err::<Option<ToUnicodeCMap>, PdfError>(e),
            },
    {
        match f {
            Indirect::T(font) => self.font_cmap(font),
            Indirect::Ref(a, b) => {
                let o = self.get_object(&(*a, *b))?;
                match &o {
                    Object::Dictionary(_) => {},
                    _ => {
                        return Err(PdfError::Body(BodyError::Malformed));
                    },
                }
                match Font::try_from_object(o) {
                    Ok(font) => self.font_cmap(&font),
                    Err(_) => Err(PdfError::Body(BodyError::Malformed)),
                }
            },
        }
    }

    /// The fonts of a font map with their CMaps (see [`resolved_fonts`]).
    fn font_list(&self, fm: &FontMap) -> (r: Result<Vec<(String, Option<ToUnicodeCMap>)>, PdfError>)
        ensures
            match resolved_fonts(self.contents(), self.cross_refs(), fm@) {
                Some(m) => r is Ok && fonts_view(r.unwrap()@) == m,
                None => r is Err,
            },
    {
        let ghost c = self.contents();
        let ghost x = self.cross_refs();
        let ghost m = fm@;
        let ghost es = fm.0@;
        let n = fm.0.len();
        let mut out: Vec<(String, Option<ToUnicodeCMap>)> = Vec::new();
        let mut i: usize = 0;
        proof {
            lemma_font_entries_keys(es);
        }
        while i < n
            invariant
                m == fm@,
                es == fm.0@,
                m == font_entries_view(es),
                c == self.contents(),
                x == self.cross_refs(),
                n == es.len(),
                i <= n,
                forall|k: Seq<char>| #[trigger]
                    font_entries_view(es).contains_key(k) <==> exists|j: int| 0 <= j < es.len() && (#[trigger] es[j]).0@ == k,
                forall|j: int| 0 <= j < i ==> (#[trigger] entry_codes(c, x, m[es[j].0@])) is Ok,
                forall|k: Seq<char>| #[trigger]
                    fonts_view(out@).contains_key(k) <==> exists|j: int| 0 <= j < i && (#[trigger] es[j]).0@ == k,
                forall|k: Seq<char>| #[trigger] fonts_view(out@).contains_key(k) ==> fonts_view(out@)[k]
                    == entry_codes(c, x, m[k])->Ok_0,
            decreases n - i,
        {
            let key = &fm.0[i].0;
            assert(es[i as int].0@ == key@);
            let f = match fm.get(key.as_str()) {
                Some(f) => f,
                None => {
                    return Err(PdfError::Body(BodyError::Malformed));
                },
            };
            let cm = self.entry_cmap(f)?;
            let ghost before = out@;
            let ghost codes = opt_codes(cm);
            out.push((key.clone(), cm));
            assert(out@.drop_last() =~= before);
            assert(fonts_view(out@) == fonts_view(before).insert(key@, codes));
            assert forall|k: Seq<char>| #[trigger]
                fonts_view(out@).contains_key(k) <==> exists|j: int| 0 <= j < i + 1 && (#[trigger] es[j]).0@ == k by {
                if exists|j: int| 0 <= j < i + 1 && (#[trigger] es[j]).0@ == k {
                    let j = choose|j: int| 0 <= j < i + 1 && (#[trigger] es[j]).0@ == k;
                    if j < i {
                        assert(fonts_view(before).contains_key(k));
                    }
                }
                if fonts_view(out@).contains_key(k) && k != key@ {
                    assert(fonts_view(before).contains_key(k));
                }
            }
            i = i + 1;
        }
        assert(fonts_view(out@) =~= Map::new(
            |k: Seq<char>| m.contains_key(k),
            |k: Seq<char>| entry_codes(c, x, m[k])->Ok_0,
        ));
        Ok(out)
    }

    /// The fonts of the resources `res` with their CMaps.
    fn resource_fonts(&self, res: &Resources) -> (r: Result<Vec<(String, Option<ToUnicodeCMap>)>, PdfError>)
        ensures
            match resources_font_map(self.contents(), self.cross_refs(), res@) {
                Ok(fm) => match resolved_fonts(self.contents(), self.cross_refs(), fm) {
                    Some(m) => r is Ok && fonts_view(r.unwrap()@) == m,
                    None => r is Err,
                },
                Err(_) => r is Err,
            },
    {
        match &res.font {
            None => {
                let out: Vec<(String, Option<ToUnicodeCMap>)> = Vec::new();
                assert(fonts_view(out@) =~= Map::new(
                    |k: Seq<char>| Map::<Seq<char>, IndirectV<FontV>>::empty().contains_key(k),
                    |k: Seq<char>| entry_codes(self.contents(), self.cross_refs(), Map::<Seq<char>, IndirectV<FontV>>::empty()[k])->Ok_0,
                ));
                Ok(out)
            },
            Some(Indirect::T(fm)) => self.font_list(fm),
            Some(Indirect::Ref(a, b)) => {
                let o = self.get_object(&(*a, *b))?;
                match &o {
                    Object::Dictionary(_) => {},
                    _ => {
                        return Err(PdfError::Body(BodyError::Malformed));
                    },
                }
                match FontMap::try_from_object(o) {
                    Ok(fm) => self.font_list(&fm),
                    Err(_) => Err(PdfError::Body(BodyError::Malformed)),
                }
            },
        }
    }

    /// The fonts of `page` with their ToUnicode CMaps (see
    /// [`page_fonts_of`]).
    pub fn page_fonts(&self, page: &Page) -> (r: Result<Vec<(String, Option<ToUnicodeCMap>)>, PdfError>)
        ensures
            match page_fonts_of(self.contents(), self.cross_refs(), page@) {
                Some(m) => r is Ok && fonts_view(r.unwrap()@) == m,
                None => r is Err,
            },
    {
        match &page.resources {
            Some(Indirect::T(res)) => self.resource_fonts(res),
            Some(Indirect::Ref(a, b)) => {
                let o = self.get_object(&(*a, *b))?;
                match &o {
                    Object::Dictionary(_) => {},
                    _ => {
                        return Err(PdfError::Body(BodyError::Malformed));
                    },
                }
                match Resources::try_from_object(o) {
                    Ok(res) => self.resource_fonts(&res),
                    Err(_) => Err(PdfError::Body(BodyError::Malformed)),
                }
            },
            None => Err(PdfError::Body(BodyError::Malformed)),
        }
    }

    /// The font that an entry of a font map gives (see [`font_at`]).
    pub fn font(&self, f: &Indirect<Font>) -> (r: Result<Font, PdfError>)
        ensures
            match font_at(self.contents(), self.cross_refs(), f@) {
                Ok(font) => r is Ok && r.unwrap()@ == font,
                Err(e) => r == Err::<Font, PdfError>(e),
            },
    {
        match f {
            Indirect::T(font) => Ok(font.duplicate()),
            Indirect::Ref(a, b) => {
                let o = self.get_object(&(*a, *b))?;
                match &o {
                    Object::Dictionary(_) => {},
                    _ => {
                        return Err(PdfError::Body(BodyError::Malformed));
                    },
                }
                match Font::try_from_object(o) {
                    Ok(font) => Ok(font),
                    Err(_) => Err(PdfError::Body(BodyError::Malformed)),
                }
            },
        }
    }

    /// The widths array of `font` (see [`widths_of_font`]).
    pub fn font_widths(&self, font: &Font) -> (r: Result<Vec<Number>, PdfError>)
        ensures
            match widths_of_font(self.contents(), self.cross_refs(), font@) {
                Ok(ws) => r is Ok && numbers_view(r.unwrap()@) == ws,
                Err(e) => r == Err::<Vec<Number>, PdfError>(e),
            },
    {
        match &font.widths {
            None => Err(PdfError::Body(BodyError::Malformed)),
            Some(Indirect::T(ws)) => Ok(duplicate_numbers(ws)),
            Some(Indirect::Ref(a, b)) => match self.get_object(&(*a, *b))? {
                Object::Array(arr) => match numbers_of(&arr) {
                    Some(ws) => Ok(ws),
                    None => Err(PdfError::Body(BodyError::Malformed)),
                },
                _ => Err(PdfError::Body(BodyError::Malformed)),
            },
        }
    }

    /// The resources of `page` (see [`page_resources_of`]).
    pub fn page_resources(&self, page: &Page) -> (r: Result<Resources, PdfError>)
        ensures
            match page_resources_of(self.contents(), self.cross_refs(), page@) {
                Ok(rv) => r is Ok && r.unwrap()@ == rv,
                Err(e) => r == Err::<Resources, PdfError>(e),
            },
    {
        match &page.resources {
            Some(Indirect::T(res)) => Ok(res.duplicate()),
            Some(Indirect::Ref(a, b)) => {
                let o = self.get_object(&(*a, *b))?;
                match &o {
                    Object::Dictionary(_) => {},
                    _ => {
                        return Err(PdfError::Body(BodyError::Malformed));
                    },
                }
                match Resources::try_from_object(o) {
                    Ok(res) => Ok(res),
                    Err(_) => Err(PdfError::Body(BodyError::Malformed)),
                }
            },
            None => Err(PdfError::Body(BodyError::Malformed)),
        }
    }

    /// The font map of `page` (see [`page_font_map`]).
    pub fn page_font_map(&self, page: &Page) -> (r: Result<FontMap, PdfError>)
        ensures
            match page_font_map(self.contents(), self.cross_refs(), page@) {
                Ok(fm) => r is Ok && r.unwrap()@ == fm,
                Err(e) => r == Err::<FontMap, PdfError>(e),
            },
    {
        match &page.resources {
            Some(Indirect::T(res)) => self.resource_font_map(res),
            Some(Indirect::Ref(a, b)) => {
                let o = self.get_object(&(*a, *b))?;
                match &o {
                    Object::Dictionary(_) => {},
                    _ => {
                        return Err(PdfError::Body(BodyError::Malformed));
                    },
                }
                match Resources::try_from_object(o) {
                    Ok(res) => self.resource_font_map(&res),
                    Err(_) => Err(PdfError::Body(BodyError::Malformed)),
                }
            },
            None => Err(PdfError::Body(BodyError::Malformed)),
        }
    }

    /// The font map of the resources `res`.
    fn resource_font_map(&self, res: &Resources) -> (r: Result<FontMap, PdfError>)
        ensures
            match resources_font_map(self.contents(), self.cross_refs(), res@) {
                Ok(fm) => r is Ok && r.unwrap()@ == fm,
                Err(e) => r == Err::<FontMap, PdfError>(e),
            },
    {
        match &res.font {
            None => {
                let fm = FontMap(Vec::new());
                assert(fm@ =~= Map::<Seq<char>, IndirectV<FontV>>::empty());
                Ok(fm)
            },
            Some(Indirect::T(fm)) => Ok(fm.duplicate()),
            Some(Indirect::Ref(a, b)) => {
                let o = self.get_object(&(*a, *b))?;
                match &o {
                    Object::Dictionary(_) => {},
                    _ => {
                        return Err(PdfError::Body(BodyError::Malformed));
                    },
                }
                match FontMap::try_from_object(o) {
                    Ok(fm) => Ok(fm),
                    Err(_) => Err(PdfError::Body(BodyError::Malformed)),
                }
            },
        }
    }

    /// The text of `page` (see [`page_text`]).
    pub fn page_text(&self, page: &Page) -> (r: Result<String, PdfError>)
        ensures
            match page_text(self.contents(), self.cross_refs(), page@) {
                Some(t) => r is Ok && r.unwrap()@ == t,
                None => r is Err,
            },
    {
        reveal(page_text);
        reveal(page_data);
        let data = self.page_content(page)?;
        let fonts = self.page_fonts(page)?;
        let mut text = TextContent::new(data.as_slice(), fonts);
        match text.try_get_text() {
            Ok(t) => Ok(t),
            Err(e) => Err(PdfError::Text(e)),
        }
    }

    /// The text of the document (see [`document_text`]): the texts of its
    /// pages, separated by new lines.
    pub fn extract_text(&self) -> (r: Result<String, PdfError>)
        ensures
            match document_text(self.contents(), self.cross_refs(), self.xref_offset() as int) {
                Some(t) => r is Ok && r.unwrap()@ == t,
                None => r is Err,
            },
    {
        let pages = self.pages()?;
        self.texts_of(&pages)
    }

    /// The texts of `pages`, separated by new lines (see [`texts_from`]).
    fn texts_of(&self, pages: &Vec<Page>) -> (r: Result<String, PdfError>)
        ensures
            match texts_from(self.contents(), self.cross_refs(), pages_view(pages@), 0, seq![]) {
                Some(t) => r is Ok && r.unwrap()@ == t,
                None => r is Err,
            },
    {
        let ghost ps = pages_view(pages@);
        let ghost c = self.contents();
        let ghost x = self.cross_refs();
        let mut out = String::new();
        let mut j: usize = 0;
        while j < pages.len()
            invariant
                j <= pages@.len(),
                ps == pages_view(pages@),
                ps.len() == pages@.len(),
                c == self.contents(),
                x == self.cross_refs(),
                texts_from(c, x, ps, j as int, out@) == texts_from(c, x, ps, 0, seq![]),
            decreases pages@.len() - j,
        {
            assert(ps[j as int] == pages@[j as int]@);
            let t = self.page_text(&pages[j])?;
            let ghost acc = out@;
            if j > 0 {
                push_char(&mut out, '\n');
            }
            out.append(t.as_str());
            assert(out@ == if j == 0 { acc + t@ } else { acc.push('\n') + t@ });
            j = j + 1;
        }
        Ok(out)
    }

    /// The decoded content streams of the pages, in order.
    pub fn page_contents(&self) -> (r: Result<Vec<Vec<u8>>, PdfError>)
        ensures
            match document_pages(self.contents(), self.cross_refs(), self.xref_offset() as int) {
                Ok(ps) => match contents_from(self.contents(), self.cross_refs(), ps, 0, seq![]) {
                    Ok(ds) => r is Ok && r.unwrap()@.map_values(|d: Vec<u8>| d@) == ds,
                    Err(e) => r == Err::<Vec<Vec<u8>>, PdfError>(e),
                },
                Err(e) => r == Err::<Vec<Vec<u8>>, PdfError>(e),
            },
    {
        let pages = self.pages()?;
        self.contents_of(&pages)
    }

    /// The decoded content streams of `pages` (see [`contents_from`]).
    fn contents_of(&self, pages: &Vec<Page>) -> (r: Result<Vec<Vec<u8>>, PdfError>)
        ensures
            match contents_from(self.contents(), self.cross_refs(), pages_view(pages@), 0, seq![]) {
                Ok(ds) => r is Ok && r.unwrap()@.map_values(|d: Vec<u8>| d@) == ds,
                Err(e) => r == Err::<Vec<Vec<u8>>, PdfError>(e),
            },
    {
        let ghost ps = pages_view(pages@);
        let ghost c = self.contents();
        let ghost x = self.cross_refs();
        let mut out: Vec<Vec<u8>> = Vec::new();
        let mut j: usize = 0;
        assert(out@.map_values(|d: Vec<u8>| d@) =~= seq![]);
        while j < pages.len()
            invariant
                j <= pages@.len(),
                ps == pages_view(pages@),
                ps.len() == pages@.len(),
                c == self.contents(),
                x == self.cross_refs(),
                contents_from(c, x, ps, j as int, out@.map_values(|d: Vec<u8>| d@)) == contents_from(
                    c,
                    x,
                    ps,
                    0,
                    seq![],
                ),
            decreases pages@.len() - j,
        {
            assert(ps[j as int] == pages@[j as int]@);
            let d = self.page_content(&pages[j])?;
            let ghost before = out@.map_values(|d: Vec<u8>| d@);
            out.push(d);
            assert(out@.map_values(|d: Vec<u8>| d@) =~= before.push(d@));
            j = j + 1;
        }
        Ok(out)
    }

    /// The pages of the document, in order (see [`document_pages`]).
    pub fn pages(&self) -> (r: Result<Vec<Page>, PdfError>)
        ensures
            match document_pages(self.contents(), self.cross_refs(), self.xref_offset() as int) {
                Ok(ps) => r is Ok && pages_view(r.unwrap()@) == ps,
                Err(e) => r == Err::<Vec<Page>, PdfError>(e),
            },
    {
        let catalog = self.catalog()?;
        let o = self.get_object(&catalog.pages_ref)?;
        let node = match PageTreeNode::try_from_object(o) {
            Ok(n) => n,
            Err(_) => {
                return Err(PdfError::Body(BodyError::Malformed));
            },
        };
        let mut out: Vec<Page> = Vec::new();
        assert(pages_view(out@) =~= seq![]);
        self.collect_kids(&node, self.file.len(), &mut out)?;
        Ok(out)
    }
}

/// The catalog of the file `c`, found through the `Root` entry of its
/// trailer.
pub open spec fn catalog_in(c: Seq<u8>, x: XRefV, start: int) -> Result<Catalog, PdfError> {
    match trailer_dict(c, x, start) {
        Some(m) => match trailer_of(m, x, c) {
            Some(t) => match t.root {
                Some(cat) => Ok(cat),
                None => Err(PdfError::NotFound),
            },
            None => Err(PdfError::Trailer),
        },
        None => Err(PdfError::Trailer),
    }
}

/// `acc` followed by the pages under the kid `key` of a page tree node: the
/// kid itself where it is a page, the pages under its kids, in order, where
/// it is a page tree node. Nodes nest at most `fuel` deep.
pub open spec fn kid_into(c: Seq<u8>, x: XRefV, key: (i32, i32), fuel: nat, acc: Seq<PageV>) -> Result<
    Seq<PageV>,
    PdfError,
>
    decreases fuel, 0nat,
{
    match object_of(c, x, key) {
        Ok(ObjectV::Dictionary(m)) => match kid_of(m) {
            Some(KidV::Page(p)) => Ok(acc.push(p)),
            Some(KidV::Node(n)) => if fuel == 0 {
                Err(PdfError::TooDeep)
            } else {
                kids_into(c, x, n.kids, 0, (fuel - 1) as nat, acc)
            },
            None => Err(PdfError::Body(BodyError::Malformed)),
        },
        Ok(_) => Err(PdfError::Body(BodyError::Malformed)),
        Err(e) => Err(e),
    }
}

/// `acc` followed by the pages under the kids `kids` from index `j` on.
pub open spec fn kids_into(
    c: Seq<u8>,
    x: XRefV,
    kids: Seq<(i32, i32)>,
    j: int,
    fuel: nat,
    acc: Seq<PageV>,
) -> Result<Seq<PageV>, PdfError>
    decreases fuel, kids.len() - j + 1,
{
    if j < 0 || j >= kids.len() {
        Ok(acc)
    } else {
        match kid_into(c, x, kids[j], fuel, acc) {
            Ok(a) => kids_into(c, x, kids, j + 1, fuel, a),
            Err(e) => Err(e),
        }
    }
}

/// The pages of the page tree whose root node is `root`, in order.
pub open spec fn page_tree(c: Seq<u8>, x: XRefV, root: (i32, i32), fuel: nat) -> Result<Seq<PageV>, PdfError> {
    match object_of(c, x, root) {
        Ok(ObjectV::Dictionary(m)) => match node_of(m) {
            Some(n) => kids_into(c, x, n.kids, 0, fuel, seq![]),
            None => Err(PdfError::Body(BodyError::Malformed)),
        },
        Ok(_) => Err(PdfError::Body(BodyError::Malformed)),
        Err(e) => Err(e),
    }
}

/// The pages of the document `c`, in order.
pub open spec fn document_pages(c: Seq<u8>, x: XRefV, start: int) -> Result<Seq<PageV>, PdfError> {
    match catalog_in(c, x, start) {
        Ok(cat) => page_tree(c, x, cat.pages_ref, c.len()),
        Err(e) => Err(e),
    }
}

pub open spec fn pages_view(v: Seq<Page>) -> Seq<PageV> {
    v.map_values(|p: Page| p@)
}


/// The stream object `key`, its data decoded.
pub open spec fn stream_at(c: Seq<u8>, x: XRefV, key: (i32, i32)) -> Result<StreamV, PdfError> {
    match object_of(c, x, key) {
        Ok(ObjectV::Stream(m, d)) => match stream_of(m, d) {
            Ok(sv) => Ok(sv),
            Err(e) => Err(PdfError::Body(e)),
        },
        Ok(_) => Err(PdfError::Body(BodyError::Malformed)),
        Err(e) => Err(e),
    }
}

/// The decoded content stream of a page, which must have one.
#[verifier::opaque]
pub open spec fn page_data(c: Seq<u8>, x: XRefV, p: PageV) -> Result<Seq<u8>, PdfError> {
    match p.contents {
        Some(IndirectV::Ref(a, b)) => match stream_at(c, x, (a, b)) {
            Ok(sv) => Ok(sv.data),
            Err(e) => Err(e),
        },
        Some(IndirectV::T(sv)) => Ok(sv.data),
        None => Err(PdfError::NoContents),
    }
}

/// The font that an entry of a font map gives, read where it is a reference.
pub open spec fn font_at(c: Seq<u8>, x: XRefV, f: IndirectV<FontV>) -> Result<FontV, PdfError> {
    match f {
        IndirectV::T(font) => Ok(font),
        IndirectV::Ref(a, b) => match object_of(c, x, (a, b)) {
            Ok(ObjectV::Dictionary(m)) => match font_of(m) {
                Some(font) => Ok(font),
                None => Err(PdfError::Body(BodyError::Malformed)),
            },
            Ok(_) => Err(PdfError::Body(BodyError::Malformed)),
            Err(e) => Err(e),
        },
    }
}

/// The codes that the ToUnicode entry `t` of a font maps: a CMap given by
/// reference is read from the decoded data of its stream, which must be UTF-8
/// text.
pub open spec fn unicode_of(c: Seq<u8>, x: XRefV, t: Option<IndirectV<(bool, Map<usize, char>)>>) -> Result<
    Option<(bool, Map<usize, char>)>,
    PdfError,
> {
    match t {
        None => Ok(None),
        Some(IndirectV::T(codes)) => Ok(Some(codes)),
        Some(IndirectV::Ref(a, b)) => match stream_at(c, x, (a, b)) {
            Ok(sv) => if valid_utf8(sv.data) {
                match cmap_of(encode_utf8(decode_utf8(sv.data))) {
                    Some((begin, _, m)) => Ok(Some((begin.len() == 2, m))),
                    None => Err(PdfError::CMap),
                }
            } else {
                Err(PdfError::CMap)
            },
            Err(e) => Err(e),
        },
    }
}

/// The CMap codes of the font that an entry of a font map gives.
pub open spec fn entry_codes(c: Seq<u8>, x: XRefV, f: IndirectV<FontV>) -> Result<Option<(bool, Map<usize, char>)>, PdfError> {
    match font_at(c, x, f) {
        Ok(font) => unicode_of(c, x, font.to_unicode),
        Err(e) => Err(e),
    }
}

/// The fonts of a font map with the codes of each, where each can be read.
pub open spec fn resolved_fonts(c: Seq<u8>, x: XRefV, fm: Map<Seq<char>, IndirectV<FontV>>) -> Option<
    Map<Seq<char>, Option<(bool, Map<usize, char>)>>,
> {
    if forall|k: Seq<char>| fm.contains_key(k) ==> (#[trigger] entry_codes(c, x, fm[k])) is Ok {
        Some(Map::new(|k: Seq<char>| fm.contains_key(k), |k: Seq<char>| entry_codes(c, x, fm[k])->Ok_0))
    } else {
        None
    }
}

/// The widths array of a font, read where it is a reference.
pub open spec fn widths_of_font(c: Seq<u8>, x: XRefV, f: FontV) -> Result<Seq<NumberV>, PdfError> {
    match f.widths {
        None => Err(PdfError::Body(BodyError::Malformed)),
        Some(IndirectV::T(ws)) => Ok(ws),
        Some(IndirectV::Ref(a, b)) => match object_of(c, x, (a, b)) {
            Ok(ObjectV::Array(arr)) => match all_numbers(arr) {
                Some(ws) => Ok(ws),
                None => Err(PdfError::Body(BodyError::Malformed)),
            },
            Ok(_) => Err(PdfError::Body(BodyError::Malformed)),
            Err(e) => Err(e),
        },
    }
}

/// The resources of a page, read where they are given by reference.
pub open spec fn page_resources_of(c: Seq<u8>, x: XRefV, p: PageV) -> Result<ResourcesV, PdfError> {
    match p.resources {
        Some(IndirectV::T(rv)) => Ok(rv),
        Some(IndirectV::Ref(a, b)) => match object_of(c, x, (a, b)) {
            Ok(ObjectV::Dictionary(m)) => match resources_of(m) {
                Some(rv) => Ok(rv),
                None => Err(PdfError::Body(BodyError::Malformed)),
            },
            Ok(_) => Err(PdfError::Body(BodyError::Malformed)),
            Err(e) => Err(e),
        },
        None => Err(PdfError::Body(BodyError::Malformed)),
    }
}

/// The font map of resources `rv`, read where it is given by reference;
/// empty where the resources have no fonts.
pub open spec fn resources_font_map(c: Seq<u8>, x: XRefV, rv: ResourcesV) -> Result<Map<Seq<char>, IndirectV<FontV>>, PdfError> {
    match rv.font {
        None => Ok(Map::empty()),
        Some(IndirectV::T(fm)) => Ok(fm),
        Some(IndirectV::Ref(a, b)) => match object_of(c, x, (a, b)) {
            Ok(ObjectV::Dictionary(m)) => match font_map_of(m) {
                Some(fm) => Ok(fm),
                None => Err(PdfError::Body(BodyError::Malformed)),
            },
            Ok(_) => Err(PdfError::Body(BodyError::Malformed)),
            Err(e) => Err(e),
        },
    }
}

/// The font map of a page: that of its resources.
pub open spec fn page_font_map(c: Seq<u8>, x: XRefV, p: PageV) -> Result<Map<Seq<char>, IndirectV<FontV>>, PdfError> {
    match page_resources_of(c, x, p) {
        Ok(rv) => resources_font_map(c, x, rv),
        Err(e) => Err(e),
    }
}

/// The fonts of a page with their codes; `None` where one of them cannot be
/// read.
pub open spec fn page_fonts_of(c: Seq<u8>, x: XRefV, p: PageV) -> Option<Map<Seq<char>, Option<(bool, Map<usize, char>)>>> {
    match page_font_map(c, x, p) {
        Ok(fm) => resolved_fonts(c, x, fm),
        Err(_) => None,
    }
}

/// The text of a page (see [`text_from`]); `None` where its content stream,
/// its fonts or its text cannot be read.
pub open spec fn page_text(c: Seq<u8>, x: XRefV, p: PageV) -> Option<Seq<char>> {
    match page_data(c, x, p) {
        Ok(d) => match page_fonts_of(c, x, p) {
            Some(fonts) => match text_from(d, 0, initial_text_state(), fonts, seq![]) {
                Ok(t) => Some(t),
                Err(_) => None,
            },
            None => None,
        },
        Err(_) => None,
    }
}

/// `acc` followed by the texts of the pages `ps` from index `j`, each after a
/// new line but the first.
pub open spec fn texts_from(c: Seq<u8>, x: XRefV, ps: Seq<PageV>, j: int, acc: Seq<char>) -> Option<Seq<char>>
    decreases ps.len() - j,
{
    if j < 0 || j >= ps.len() {
        Some(acc)
    } else {
        match page_text(c, x, ps[j]) {
            Some(t) => texts_from(c, x, ps, j + 1, if j == 0 { acc + t } else { acc.push('\n') + t }),
            None => None,
        }
    }
}

/// The text of the document: the texts of its pages, one after the other,
/// separated by new lines.
pub open spec fn document_text(c: Seq<u8>, x: XRefV, start: int) -> Option<Seq<char>> {
    match document_pages(c, x, start) {
        Ok(ps) => texts_from(c, x, ps, 0, seq![]),
        Err(_) => None,
    }
}

/// `acc` followed by the decoded content streams of the pages `ps` from
/// index `j`.
pub open spec fn contents_from(c: Seq<u8>, x: XRefV, ps: Seq<PageV>, j: int, acc: Seq<Seq<u8>>) -> Result<
    Seq<Seq<u8>>,
    PdfError,
>
    decreases ps.len() - j,
{
    if j < 0 || j >= ps.len() {
        Ok(acc)
    } else {
        match page_data(c, x, ps[j]) {
            Ok(d) => contents_from(c, x, ps, j + 1, acc.push(d)),
            Err(e) => Err(e),
        }
    }
}

/// The codes of a CMap, where there is one.
pub open spec fn opt_codes(c: Option<ToUnicodeCMap>) -> Option<(bool, Map<usize, char>)> {
    match c {
        Some(cm) => Some(cmap_codes(cm)),
        None => None,
    }
}

/// The result of a read, by its model.
pub open spec fn object_result(r: Result<Object, PdfError>) -> Result<ObjectV, PdfError> {
    match r {
        Ok(o) => Ok(o@),
        Err(e) => Err(e),
    }
}

/// The indirect object `key` of the file `c` whose cross-reference data is
/// `x`: the object at the offset that `x` gives for it.
pub open spec fn object_of(c: Seq<u8>, x: XRefV, key: (i32, i32)) -> Result<ObjectV, PdfError> {
    match object_offset(x, key, c) {
        Ok(Some(off)) => match parse_object(c, off as int) {
            Some((o, _)) => Ok(o),
            None => Err(PdfError::Malformed),
        },
        Ok(None) => Err(PdfError::NotFound),
        Err(e) => Err(PdfError::XRef(e)),
    }
}

/// The keyword `trailer`.
pub open spec fn kw_trailer() -> Seq<u8> {
    seq![116u8, 114, 97, 105, 108, 101, 114]
}

/// The trailer dictionary of a file `c` whose last cross-reference section,
/// at offset `start`, is `x`: the dictionary after the first `trailer`
/// keyword after a table, the dictionary of a cross-reference stream.
pub open spec fn trailer_dict(c: Seq<u8>, x: XRefV, start: int) -> Option<Map<Seq<char>, ObjectV>> {
    match x {
        XRefV::Table(_) => match first_match(c, kw_trailer(), start) {
            Some(i) => match parse_object(c, i + 7) {
                Some((ObjectV::Dictionary(m), _)) => Some(m),
                _ => None,
            },
            None => None,
        },
        XRefV::Stream(_) => match parse_object(c, start) {
            Some((ObjectV::Stream(m, _), _)) => Some(m),
            _ => None,
        },
    }
}

} // verus!
