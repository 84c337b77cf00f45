use pdfrust::body::BodyError;
use pdfrust::object::Object;
use pdfrust::xref::XRef;
use pdfrust::{pdf_version, trim_ascii, Pdf, PdfError, PdfVersion};

/// A small document with a catalog, a page tree and an information
/// dictionary, its cross-reference table written with the right offsets.
fn sample() -> Vec<u8> {
    let objects = [
        "1 0 obj\n<< /Type /Catalog /Pages 2 0 R >>\nendobj\n",
        "2 0 obj\n<< /Type /Pages /Kids [3 0 R] /Count 1 >>\nendobj\n",
        "3 0 obj\n<< /Type /Page /Parent 2 0 R /Resources << >> >>\nendobj\n",
        "4 0 obj\n<< /Title (sample) /Author (me) >>\nendobj\n",
    ];
    let mut out = String::from("%PDF-1.4\n");
    let mut offsets = vec![];
    for o in objects {
        offsets.push(out.len());
        out.push_str(o);
    }
    let xref_at = out.len();
    out.push_str("xref\n0 5\n0000000000 65535 f \n");
    for off in &offsets {
        out.push_str(&format!("{:010} 00000 n \n", off));
    }
    out.push_str(&format!(
        "trailer\n<< /Size 5 /Root 1 0 R /Info 4 0 R >>\nstartxref\n{}\n%%EOF\n\n",
        xref_at
    ));
    format!("  \n{out}").into_bytes()
}

#[test]
fn version_from_header() {
    assert_eq!(pdf_version(b"%PDF-1.7"), PdfVersion::V1_7);
    assert_eq!(pdf_version(b"%PDF-1.3"), PdfVersion::V1_3);
    assert_eq!(pdf_version(b"1.5"), PdfVersion::V1_5);
    assert_eq!(PdfVersion::V1_4.text(), "1.4".to_string());
    assert_eq!(PdfVersion::V1_6.text(), "1.6".to_string());
}

#[test]
fn trim_drops_surrounding_white_space() {
    assert_eq!(trim_ascii(b" \t\n%PDF\r\n\x0c "), b"%PDF");
    assert_eq!(trim_ascii(b"   "), b"");
    assert_eq!(trim_ascii(b"a b"), b"a b");
}

#[test]
fn open_a_document() {
    let bytes = sample();
    let pdf = Pdf::from(&bytes).unwrap();
    assert!(pdf.file().starts_with(b"%PDF-1.4"));
    assert!(pdf.file().ends_with(b"%%EOF"));
    match pdf.xref() {
        XRef::XRefTable(t) => assert_eq!(t.len(), 5),
        XRef::XRefStream(_) => panic!("expected a table"),
    }
    match pdf.get_object(&(1, 0)).unwrap() {
        Object::Dictionary(d) => {
            assert_eq!(d.get("Pages"), Some(&Object::Ref((2, 0))));
        }
        other => panic!("unexpected object {other:?}"),
    }
    assert_eq!(pdf.get_object(&(9, 0)), Err(PdfError::NotFound));
}

#[test]
fn read_catalog_and_info_at_their_offsets() {
    let bytes = sample();
    let pdf = Pdf::from(&bytes).unwrap();
    let file = pdf.file();
    let catalog_at = pdf.xref().get_and_fix(&(1, 0), file).unwrap();
    let catalog = Pdf::read_catalog(file, catalog_at);
    assert_eq!(catalog.pages_ref, (2, 0));
    assert!(catalog.pages.is_none());
    let info_at = pdf.xref().get_and_fix(&(4, 0), file).unwrap();
    let info = Pdf::read_info(file, info_at);
    assert_eq!(info.title, Some("sample".to_string()));
    assert_eq!(info.author, Some("me".to_string()));
    assert_eq!(pdfrust::body::Catalog::try_new(file, info_at), Err(BodyError::Malformed));
}

#[test]
fn a_document_must_end_with_eof() {
    let mut bytes = sample();
    let n = bytes.len();
    bytes.truncate(n - 3);
    assert!(matches!(Pdf::from(&bytes), Err(PdfError::Corrupted)));
    let short = b"%%EO".to_vec();
    assert!(matches!(Pdf::from(&short), Err(PdfError::Corrupted)));
}

#[test]
fn a_document_needs_its_cross_reference_table() {
    let bytes = b"%PDF-1.4\nstartxref\n0\n%%EOF".to_vec();
    assert!(matches!(Pdf::from(&bytes), Err(PdfError::XRef(_))));
}

#[test]
fn trim_twice_is_trim_once() {
    let once = trim_ascii(b"\n\t x y \r\n");
    assert_eq!(trim_ascii(once), once);
}

#[test]
fn version_text_reads_back() {
    for v in [
        PdfVersion::V1_3,
        PdfVersion::V1_4,
        PdfVersion::V1_5,
        PdfVersion::V1_6,
        PdfVersion::V1_7,
    ] {
        assert_eq!(pdf_version(v.text().as_bytes()), v);
    }
}

#[test]
fn object_header_found_where_the_table_is_wrong() {
    let bytes = sample();
    let pdf = Pdf::from(&bytes).unwrap();
    let file = pdf.file();
    let mut table = pdfrust::xref::XRefTable::new();
    table.insert((2, 0), (3, true));
    let at = table.get_and_fix(&(2, 0), file).unwrap();
    assert!(file[at..].starts_with(b"2 0 obj"));
    match Object::new(file, at) {
        Object::Dictionary(d) => assert_eq!(d.get("Count"), Some(&Object::Numeric(pdfrust::algebra::Number::Integer(1)))),
        other => panic!("unexpected object {other:?}"),
    }
    table.insert((2, 0), (3, false));
    assert_eq!(
        table.try_get_and_fix(&(2, 0), file),
        Err(pdfrust::xref::XRefError::FreedObject)
    );
}

#[test]
fn number_text_reads_back() {
    for n in [0, 7, 10, 65535, -1, -2147483648, 2147483647] {
        let text = pdfrust::xref::i32_to_text(n);
        let mut t = pdfrust::tokenizer::Tokenizer::new(&text, 0);
        assert_eq!(
            t.next(),
            Some(pdfrust::tokenizer::Token::Numeric(pdfrust::algebra::Number::Integer(n)))
        );
    }
}
