use pdfrust::algebra::Number;
use pdfrust::body::{
    deflate, BodyError, Catalog, Filter, Font, FontMap, Indirect, ObjectStreams, Page,
    PageTreeKids, PageTreeNode, Rectangle, Resources, Stream,
};
use pdfrust::object::{Dictionary, Object, Stream as StreamObject};
use std::io::Write;

fn dictionary(text: &[u8]) -> Dictionary {
    match Object::try_new(text, 0) {
        Ok(Object::Dictionary(d)) => d,
        other => panic!("not a dictionary: {other:?}"),
    }
}

#[test]
fn test_catalog() {
    let catalog = Catalog::new(b"1 0 obj  % entry point\n    <<\n      /Type /Catalog\n      /Pages 2 0 R\n    >>\n    endobj".as_slice(), 0);
    assert!(catalog.pages.is_none())
}

#[test]
fn catalog_keeps_the_page_tree_reference() {
    let catalog = Catalog::new(b"<< /Type /Catalog /Pages 2 0 R >>".as_slice(), 0);
    assert_eq!(catalog.pages_ref, (2, 0));
    assert_eq!(
        Catalog::try_new(b"<< /Type /Catalog /Pages 2 >>".as_slice(), 0),
        Err(BodyError::Malformed)
    );
    assert_eq!(
        Catalog::try_new(b"<< /Length 0 >>\nstream\n\nendstream".as_slice(), 0),
        Err(BodyError::Unsupported)
    );
    assert_eq!(Catalog::try_new(b"<<>>".as_slice(), 9), Err(BodyError::Malformed));
}

#[test]
fn font_from_dictionary() {
    let d = dictionary(b"<< /Type /Font /Subtype /TrueType /BaseFont /Arial /FirstChar 32 /LastChar 33 /Widths [250 333] /ToUnicode 9 0 R /Encoding /WinAnsiEncoding >>");
    let font = Font::from(d);
    assert_eq!(font.subtype, "TrueType".to_string());
    assert_eq!(font.base_font, "Arial".to_string());
    assert_eq!(font.name, None);
    assert_eq!(font.first_char, Some(Number::Integer(32)));
    assert_eq!(font.last_char, Some(Number::Integer(33)));
    assert_eq!(
        font.widths,
        Some(Indirect::T(vec![Number::Integer(250), Number::Integer(333)]))
    );
    assert_eq!(font.to_unicode, Some(Indirect::Ref(9, 0)));
    assert_eq!(font.encoding, Some("WinAnsiEncoding".to_string()));
}

#[test]
fn font_widths_by_reference_and_dictionary_encoding() {
    let d = dictionary(b"<< /Type /Font /Subtype /Type1 /BaseFont /Times /Widths 7 0 R /Encoding << /Differences [32 /space] >> >>");
    let font = Font::from(d);
    assert_eq!(font.widths, Some(Indirect::Ref(7, 0)));
    assert_eq!(font.encoding, None);
}

#[test]
fn font_errors() {
    let wrong_type = dictionary(b"<< /Type /XObject /Subtype /Type1 /BaseFont /Times >>");
    assert_eq!(Font::try_from(wrong_type), Err(BodyError::Malformed));
    let no_base_font = dictionary(b"<< /Type /Font /Subtype /Type1 >>");
    assert_eq!(Font::try_from(no_base_font), Err(BodyError::Malformed));
    let bad_widths = dictionary(b"<< /Type /Font /Subtype /Type1 /BaseFont /Times /Widths [1 /x] >>");
    assert_eq!(Font::try_from(bad_widths), Err(BodyError::Malformed));
    let inline_cmap = dictionary(b"<< /Type /Font /Subtype /Type1 /BaseFont /Times /ToUnicode /Identity >>");
    assert_eq!(Font::try_from(inline_cmap), Err(BodyError::Malformed));
    assert_eq!(
        Font::try_from_object(Object::Name("Font".to_string())),
        Err(BodyError::Malformed)
    );
}

#[test]
fn font_map_from_dictionary() {
    let d = dictionary(b"<< /F1 4 0 R /F2 5 0 R >>");
    let fonts = FontMap::from(d);
    assert_eq!(fonts.get("F1"), Some(&Indirect::Ref(4, 0)));
    assert_eq!(fonts.get("F2"), Some(&Indirect::Ref(5, 0)));
    assert_eq!(fonts.get("F3"), None);
    let not_refs = dictionary(b"<< /F1 4 0 R /F2 /Helvetica >>");
    assert_eq!(FontMap::try_from(not_refs), Err(BodyError::Malformed));
}

#[test]
fn font_map_last_entry_wins() {
    let d = dictionary(b"<< /F1 /Helvetica /F1 4 0 R >>");
    let fonts = FontMap::from(d);
    assert_eq!(fonts.get("F1"), Some(&Indirect::Ref(4, 0)));
}

#[test]
fn resources_from_dictionary() {
    let inline = Resources::new(b"<< /Font << /F1 4 0 R >> /ProcSet [/PDF /Text] >>");
    match inline.font {
        Some(Indirect::T(fonts)) => assert_eq!(fonts.get("F1"), Some(&Indirect::Ref(4, 0))),
        other => panic!("unexpected fonts {other:?}"),
    }
    let by_ref = Resources::new(b"<< /Font 8 0 R >>");
    assert_eq!(by_ref.font, Some(Indirect::Ref(8, 0)));
    assert_eq!(Resources::new(b"<< >>").font, None);
    assert_eq!(Resources::try_new(b"<< /Font (x) >>"), Err(BodyError::Malformed));
    assert_eq!(Resources::try_new(b"[1 2]"), Err(BodyError::Malformed));
}

#[test]
fn page_from_dictionary() {
    let page = Page::new(b"<< /Type /Page /Parent 2 0 R /Resources 6 0 R /Contents [5 0 R] >>");
    assert_eq!(page.resources, Some(Indirect::Ref(6, 0)));
    assert_eq!(page.contents, Some(Indirect::Ref(5, 0)));
    let inline = Page::new(b"<< /Type /Page /Resources << >> >>");
    assert_eq!(inline.resources, Some(Indirect::T(Resources { font: None })));
    assert_eq!(inline.contents, None);
    assert_eq!(
        Page::try_new(b"<< /Type /Page /Resources 6 0 R /Contents [5 0 R 7 0 R] >>"),
        Err(BodyError::Unsupported)
    );
    assert_eq!(
        Page::try_new(b"<< /Type /Page /Contents 5 0 R >>"),
        Err(BodyError::Malformed)
    );
}

#[test]
fn page_tree_node_from_dictionary() {
    let node = PageTreeNode::new(b"<< /Type /Pages /Kids [3 0 R 4 0 R] /Count 2 /Parent 1 0 R >>");
    assert_eq!(node.kids, vec![Indirect::Ref(3, 0), Indirect::Ref(4, 0)]);
    assert_eq!(node.parent, Some(Box::new(Indirect::Ref(1, 0))));
    assert_eq!(node.resources, None);
    assert_eq!(
        PageTreeNode::try_new(b"<< /Type /Pages /Count 0 >>"),
        Err(BodyError::Malformed)
    );
    assert_eq!(
        PageTreeNode::try_new(b"<< /Type /Pages /Kids [3 0 R /x] >>"),
        Err(BodyError::Malformed)
    );
}

#[test]
fn page_tree_kids_by_type() {
    let bytes = b"junk << /Type /Pages /Kids [3 0 R] >>";
    match PageTreeKids::new(bytes, 5) {
        PageTreeKids::PageTreeNode(Indirect::T(node)) => {
            assert_eq!(node.kids, vec![Indirect::Ref(3, 0)])
        }
        other => panic!("unexpected kid {other:?}"),
    }
    match PageTreeKids::new(b"<< /Type /Page /Resources 6 0 R >>", 0) {
        PageTreeKids::Page(Indirect::T(page)) => {
            assert_eq!(page.resources, Some(Indirect::Ref(6, 0)))
        }
        other => panic!("unexpected kid {other:?}"),
    }
    assert_eq!(
        PageTreeKids::try_new(b"<< /Type /Catalog >>", 0),
        Err(BodyError::Malformed)
    );
    assert_eq!(PageTreeKids::try_new(b"<< >>", 40), Err(BodyError::Malformed));
}

#[test]
fn rectangle_and_filter() {
    let r = Rectangle::from(vec![
        Object::Numeric(Number::Integer(0)),
        Object::Numeric(Number::Integer(0)),
        Object::Numeric(Number::Integer(612)),
        Object::Numeric(Number::Integer(792)),
    ]);
    assert_eq!(
        r,
        Rectangle([
            Number::Integer(0),
            Number::Integer(0),
            Number::Integer(612),
            Number::Integer(792)
        ])
    );
    assert_eq!(
        Rectangle::try_from(vec![Object::Numeric(Number::Integer(0))]),
        Err(BodyError::Malformed)
    );
    assert_eq!(Filter::from("FlateDecode".to_string()), Filter::FlateDecode);
    assert_eq!(
        Filter::try_from("DCTDecode".to_string()),
        Err(BodyError::Unsupported)
    );
}

fn stream_object(header: &[u8], bytes: &[u8]) -> StreamObject {
    StreamObject {
        header: dictionary(header),
        bytes: bytes.to_vec(),
    }
}

fn zlib(data: &[u8]) -> Vec<u8> {
    let mut e = flate2::write::ZlibEncoder::new(Vec::new(), flate2::Compression::default());
    e.write_all(data).unwrap();
    e.finish().unwrap()
}

#[test]
fn stream_without_filter_keeps_its_data() {
    let s = Stream::from(stream_object(b"<< /Length 5 >>", b"hello")).unwrap();
    assert_eq!(s.data, b"hello".to_vec());
    assert_eq!(s.get_data(), b"hello".to_vec());
    assert_eq!(s.length, Indirect::T(Number::Integer(5)));
    assert_eq!(s.filter, None);
}

#[test]
fn stream_with_flate_filter_is_decompressed() {
    let packed = zlib(b"BT /F1 12 Tf (Hi) Tj ET");
    let s = Stream::from(stream_object(b"<< /Length 9 0 R /Filter /FlateDecode >>", &packed)).unwrap();
    assert_eq!(s.length, Indirect::Ref(9, 0));
    assert_eq!(s.data.len(), packed.len() * 10);
    assert!(s.data.starts_with(b"BT /F1 12 Tf (Hi) Tj ET"));
    assert_eq!(deflate(&packed, Some(Filter::FlateDecode)).unwrap(), s.data);
}

#[test]
fn stream_errors() {
    assert_eq!(
        Stream::try_from(stream_object(b"<< /Length 1 /Filter /DCTDecode >>", b"x")),
        Err(BodyError::Unsupported)
    );
    assert_eq!(
        Stream::from(stream_object(b"<< /Length 6 /Filter /FlateDecode >>", b"xyzxyz")),
        Err(BodyError::Corrupt)
    );
    assert_eq!(
        Stream::try_from(stream_object(b"<< /Filter 3 >>", b"x")),
        Err(BodyError::Malformed)
    );
    assert_eq!(
        Stream::try_from(stream_object(b"<< >>", b"x")),
        Err(BodyError::Malformed)
    );
}

#[test]
fn object_streams_table_and_objects() {
    let data = b"11 0 12 9 <</A 1>> [2 3]";
    let mut os = ObjectStreams::from(stream_object(b"<< /Type /ObjStm /N 2 /First 10 /Length 24 >>", data)).unwrap();
    assert_eq!(os.n, 2);
    assert_eq!(os.first, 10);
    assert!(os.table.is_empty());
    os.create_table();
    assert_eq!(os.table.len(), 2);
    assert_eq!(os.table.get(&11), Some(&0));
    assert_eq!(os.table.get(&12), Some(&9));
    match os.get(11) {
        Object::Dictionary(d) => assert_eq!(d.get("A"), Some(&Object::Numeric(Number::Integer(1)))),
        other => panic!("unexpected object {other:?}"),
    }
    assert_eq!(
        os.get(12),
        Object::Array(vec![
            Object::Numeric(Number::Integer(2)),
            Object::Numeric(Number::Integer(3))
        ])
    );
    assert_eq!(os.try_get(13), Err(BodyError::Malformed));
}

#[test]
fn object_streams_table_must_end_before_the_data() {
    let mut os = ObjectStreams::from(stream_object(b"<< /N 1 /First 4 /Length 4 >>", b"11 0")).unwrap();
    assert_eq!(os.try_create_table(), Err(BodyError::Malformed));
    assert!(os.table.is_empty());
    assert!(ObjectStreams::try_from(stream_object(b"<< /First 4 /Length 4 >>", b"11 0")).is_err());
}

#[test]
fn font_width_of_a_character() {
    let d = dictionary(b"<< /Type /Font /Subtype /TrueType /BaseFont /Arial /FirstChar 32 /LastChar 34 /Widths [250 333 408] >>");
    let font = Font::from(d);
    let widths = vec![Number::Integer(250), Number::Integer(333), Number::Integer(408)];
    assert_eq!(font.width_of(b' ', &widths), Ok(Number::Integer(250)));
    assert_eq!(font.width_of(b'"', &widths), Ok(Number::Integer(408)));
    assert_eq!(font.width_of(b'#', &widths), Err(BodyError::Malformed));
    assert_eq!(font.width_of(b'\n', &widths), Err(BodyError::Malformed));
    let copy = font.duplicate();
    assert_eq!(copy, font);
}

#[test]
fn font_map_copy() {
    let fonts = FontMap::from(dictionary(b"<< /F1 4 0 R >>"));
    assert_eq!(fonts.duplicate(), fonts);
}
