use pdfrust::content::{TextContent, TextError};
use pdfrust::{Pdf, PdfError};
use std::io::Write;

fn zlib(data: &[u8]) -> Vec<u8> {
    let mut e = flate2::write::ZlibEncoder::new(Vec::new(), flate2::Compression::default());
    e.write_all(data).unwrap();
    e.finish().unwrap()
}

fn stream(number: usize, extra: &str, data: &[u8]) -> Vec<u8> {
    let mut out = format!(
        "{number} 0 obj\n<< /Length {}{extra} >>\nstream\n",
        data.len()
    )
    .into_bytes();
    out.extend_from_slice(data);
    out.extend_from_slice(b"\nendstream\nendobj\n");
    out
}

/// A document of two pages: the first shows a string with a simple font, the
/// second a compressed content stream whose font has a ToUnicode CMap.
fn document() -> Vec<u8> {
    let cmap = "begincodespacerange\n<0000> <FFFF>\nendcodespacerange\nbeginbfchar\n<0001> <0048>\n<0002> <0069>\nendbfchar";
    let objects: Vec<Vec<u8>> = vec![
        b"1 0 obj\n<< /Type /Catalog /Pages 2 0 R >>\nendobj\n".to_vec(),
        b"2 0 obj\n<< /Type /Pages /Kids [3 0 R 7 0 R] /Count 2 >>\nendobj\n".to_vec(),
        b"3 0 obj\n<< /Type /Page /Parent 2 0 R /Resources << /Font << /F1 4 0 R >> >> /Contents 5 0 R >>\nendobj\n".to_vec(),
        b"4 0 obj\n<< /Type /Font /Subtype /Type1 /BaseFont /Helvetica >>\nendobj\n".to_vec(),
        stream(5, "", b"BT\n70 50 TD\n/F1 12 Tf\n(Hello, world!) Tj\nET"),
        b"6 0 obj\n<< /Title (two pages) >>\nendobj\n".to_vec(),
        b"7 0 obj\n<< /Type /Page /Parent 2 0 R /Resources 8 0 R /Contents [9 0 R] >>\nendobj\n".to_vec(),
        b"8 0 obj\n<< /Font << /F2 10 0 R >> >>\nendobj\n".to_vec(),
        stream(
            9,
            " /Filter /FlateDecode",
            &zlib(b"BT /F2 10 Tf [<0001> -200 <0002>] TJ ET"),
        ),
        b"10 0 obj\n<< /Type /Font /Subtype /Type0 /BaseFont /X /ToUnicode 11 0 R >>\nendobj\n".to_vec(),
        stream(11, "", cmap.as_bytes()),
    ];
    let mut out = b"%PDF-1.7\n".to_vec();
    let mut offsets = vec![];
    for o in &objects {
        offsets.push(out.len());
        out.extend_from_slice(o);
    }
    let xref_at = out.len();
    out.extend_from_slice(format!("xref\n0 {}\n0000000000 65535 f \n", objects.len() + 1).as_bytes());
    for off in &offsets {
        out.extend_from_slice(format!("{:010} 00000 n \n", off).as_bytes());
    }
    out.extend_from_slice(
        format!(
            "trailer\n<< /Size {} /Root 1 0 R /Info 6 0 R >>\nstartxref\n{}\n%%EOF\n",
            objects.len() + 1,
            xref_at
        )
        .as_bytes(),
    );
    out
}

#[test]
fn document_trailer_and_catalog() {
    let bytes = document();
    let pdf = Pdf::from(&bytes).unwrap();
    let trailer = pdf.trailer().unwrap();
    assert_eq!(trailer.info.unwrap().title, Some("two pages".to_string()));
    let mut catalog = pdf.catalog().unwrap();
    assert_eq!(catalog.pages_ref, (2, 0));
    assert!(catalog.pages.is_none());
    pdf.resolve_pages(&mut catalog).unwrap();
    match catalog.pages {
        Some(pdfrust::body::Indirect::T(node)) => assert_eq!(node.kids.len(), 2),
        other => panic!("unexpected page tree {other:?}"),
    }
}

#[test]
fn document_pages_in_order() {
    let bytes = document();
    let pdf = Pdf::from(&bytes).unwrap();
    let pages = pdf.pages().unwrap();
    assert_eq!(pages.len(), 2);
    let fonts = pdf.page_fonts(&pages[1]).unwrap();
    assert_eq!(fonts.len(), 1);
    assert_eq!(fonts[0].0, "F2".to_string());
    let cmap = fonts[0].1.as_ref().unwrap();
    assert!(cmap.is_two_bytes);
    assert_eq!(cmap.cmap.get(&1), Some(&'H'));
}

#[test]
fn document_raw_content() {
    let bytes = document();
    let pdf = Pdf::from(&bytes).unwrap();
    let contents = pdf.page_contents().unwrap();
    assert_eq!(
        contents[0],
        b"BT\n70 50 TD\n/F1 12 Tf\n(Hello, world!) Tj\nET".to_vec()
    );
    assert!(contents[1].starts_with(b"BT /F2 10 Tf [<0001> -200 <0002>] TJ ET"));
}

#[test]
fn document_text() {
    let bytes = document();
    let pdf = Pdf::from(&bytes).unwrap();
    let pages = pdf.pages().unwrap();
    assert_eq!(pdf.page_text(&pages[0]).unwrap(), "Hello, world!".to_string());
    assert_eq!(pdf.page_text(&pages[1]).unwrap(), "Hi".to_string());
    assert_eq!(pdf.extract_text().unwrap(), "Hello, world!\nHi".to_string());
}

#[test]
fn a_page_tree_with_a_cycle_is_refused() {
    let objects = [
        "1 0 obj\n<< /Type /Catalog /Pages 2 0 R >>\nendobj\n",
        "2 0 obj\n<< /Type /Pages /Kids [3 0 R] >>\nendobj\n",
        "3 0 obj\n<< /Type /Pages /Kids [3 0 R] >>\nendobj\n",
    ];
    let mut out = String::from("%PDF-1.4\n");
    let mut offsets = vec![];
    for o in objects {
        offsets.push(out.len());
        out.push_str(o);
    }
    let xref_at = out.len();
    out.push_str("xref\n0 4\n0000000000 65535 f \n");
    for off in &offsets {
        out.push_str(&format!("{:010} 00000 n \n", off));
    }
    out.push_str(&format!("trailer\n<< /Size 4 /Root 1 0 R >>\nstartxref\n{}\n%%EOF", xref_at));
    let bytes = out.into_bytes();
    let pdf = Pdf::from(&bytes).unwrap();
    assert_eq!(pdf.pages().err(), Some(PdfError::TooDeep));
}

#[test]
fn text_needs_a_known_font() {
    let fonts = vec![("F1".to_string(), None)];
    let mut no_font = TextContent::new(b"BT (x) Tj ET", fonts.clone());
    assert_eq!(no_font.try_get_text(), Err(TextError::NoFont));
    let mut unknown = TextContent::new(b"BT /F9 1 Tf (x) Tj ET", fonts.clone());
    assert_eq!(unknown.try_get_text(), Err(TextError::UnknownFont));
    let mut known = TextContent::new(b"BT /F1 1 Tf (ab) Tj [(c) 5 (d)] TJ ET", fonts);
    assert_eq!(known.get_text(), "ab\ncd".to_string());
}

#[test]
fn text_font_is_restored_by_q() {
    let fonts = vec![("F1".to_string(), None), ("F2".to_string(), None)];
    let mut t = TextContent::new(b"/F1 1 Tf q /F9 2 Tf Q (x) Tj", fonts.clone());
    assert_eq!(t.get_text(), "x".to_string());
    let mut empty = TextContent::new(b"Q", fonts);
    assert_eq!(empty.try_get_text(), Err(TextError::EmptyStack));
}

#[test]
fn document_fonts_and_widths() {
    let bytes = document();
    let pdf = Pdf::from(&bytes).unwrap();
    let pages = pdf.pages().unwrap();
    let fm = pdf.page_font_map(&pages[0]).unwrap();
    let font = pdf.font(fm.get("F1").unwrap()).unwrap();
    assert_eq!(font.base_font, "Helvetica".to_string());
    assert!(pdf.font_widths(&font).is_err());
    let fm2 = pdf.page_font_map(&pages[1]).unwrap();
    let font2 = pdf.font(fm2.get("F2").unwrap()).unwrap();
    assert_eq!(font2.subtype, "Type0".to_string());
}

#[test]
fn text_with_an_unmapped_code_is_refused() {
    let cmap = pdfrust::cmap::ToUnicodeCMap::from(
        "begincodespacerange\n<00> <FF>\nendcodespacerange\nbeginbfchar\n<41> <0042>\nendbfchar".to_string(),
    );
    let fonts = vec![("F1".to_string(), Some(cmap))];
    let mut ok = TextContent::new(b"/F1 1 Tf [<41>] TJ", fonts.clone());
    assert_eq!(ok.get_text(), "B".to_string());
    let mut bad = TextContent::new(b"/F1 1 Tf [<42>] TJ", fonts);
    assert_eq!(bad.try_get_text(), Err(TextError::UnknownCode));
}

#[test]
fn document_page_resources() {
    let bytes = document();
    let pdf = Pdf::from(&bytes).unwrap();
    let pages = pdf.pages().unwrap();
    let res = pdf.page_resources(&pages[1]).unwrap();
    match res.font {
        Some(pdfrust::body::Indirect::T(fm)) => {
            assert_eq!(fm.get("F2"), Some(&pdfrust::body::Indirect::Ref(10, 0)))
        }
        other => panic!("unexpected fonts {other:?}"),
    }
    let inline = pdf.page_resources(&pages[0]).unwrap();
    assert!(inline.font.is_some());
}
