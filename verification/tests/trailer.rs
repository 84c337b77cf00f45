use pdfrust::algebra::Number;
use pdfrust::object::Object;
use pdfrust::trailer::{Trailer, TrailerError};
use pdfrust::xref::{XRef, XRefTable};

#[test]
fn read_trailer_multi_lines() {
    let bytes = b"<<\n  /Size 6\n  /Root 1 0 R\n>>".as_slice();
    let xref = XRef::XRefTable(XRefTable::new());
    let trailer = Trailer::new(bytes, 0, &xref);
    assert_eq!(trailer.size, Number::Integer(6));
    assert!(trailer.root.is_none());
    assert!(trailer.info.is_none());
    assert!(trailer.prev.is_none());
    assert!(trailer.encrypt.is_none());
}

#[test]
fn read_trailer_from_one_line() {
    let bytes =
        b"<< /Size 26 /Root 13 0 R /Info 1 0 R /ID [ <4e949515aaf132498f650e7bde6cdc2f>\n<4e949515aaf132498f650e7bde6cdc2f> ] >>"
            .as_slice();
    let xref = XRef::XRefTable(XRefTable::new());
    let trailer = Trailer::new(bytes, 0, &xref);
    assert_eq!(trailer.size, Number::Integer(26));
    assert!(trailer.root.is_none());
    assert!(trailer.info.is_none());
    assert!(trailer.prev.is_none());
    assert!(trailer.encrypt.is_none());
    assert_eq!(
        trailer.id,
        Some(vec![
            Object::HexString(
                [78, 148, 149, 21, 170, 241, 50, 73, 143, 101, 14, 123, 222, 108, 220, 47]
                    .to_vec()
            ),
            Object::HexString(
                [78, 148, 149, 21, 170, 241, 50, 73, 143, 101, 14, 123, 222, 108, 220, 47]
                    .to_vec()
            ),
        ])
    );
}

#[test]
fn trailer_reads_catalog_and_info_through_the_table() {
    let bytes = b"1 0 obj << /Type /Catalog /Pages 2 0 R >> endobj\n4 0 obj << /Title (t) >> endobj\ntrailer << /Size 5 /Root 1 0 R /Info 4 0 R /Prev 100 /Encrypt 7 0 R >>";
    let info_at = bytes.windows(7).position(|w| w == b"4 0 obj").unwrap();
    let mut table = XRefTable::new();
    table.insert((1, 0), (0, true));
    table.insert((4, 0), (info_at, true));
    let xref = XRef::XRefTable(table);
    let at = bytes.windows(7).position(|w| w == b"trailer").unwrap() + 7;
    let trailer = Trailer::new(bytes, at, &xref);
    assert_eq!(trailer.root.unwrap().pages_ref, (2, 0));
    assert_eq!(trailer.info.unwrap().title, Some("t".to_string()));
    assert_eq!(trailer.prev, Some(Number::Integer(100)));
    assert_eq!(trailer.encrypt, Some((7, 0)));
}

#[test]
fn trailer_errors() {
    let xref = XRef::XRefTable(XRefTable::new());
    assert!(matches!(
        Trailer::try_new(b"<< /Root 1 0 R >>", 0, &xref),
        Err(TrailerError::Malformed)
    ));
    assert!(matches!(
        Trailer::try_new(b"<< /Size 3 >>", 0, &xref),
        Err(TrailerError::Malformed)
    ));
    assert!(matches!(
        Trailer::try_new(b"<< /Size 3 /Root 1 0 R /ID (x) >>", 0, &xref),
        Err(TrailerError::Malformed)
    ));
    assert!(matches!(Trailer::try_new(b"[1]", 0, &xref), Err(TrailerError::Malformed)));
}
