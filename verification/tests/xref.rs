use pdfrust::tokenizer::Tokenizer;
use pdfrust::xref::{xref_parse, xref_table_subsection_entry, XRef, XrefEntry};

#[test]
fn xref_valid_entry_in_use() {
    let mut entry = Tokenizer::new(b"0000000010 00000 n", 0);
    assert_eq!(
        xref_table_subsection_entry(&mut entry),
        XrefEntry {
            number: 10,
            generation: 0,
            in_use: true
        }
    );
}

#[test]
fn xref_valid_entry_not_in_use() {
    let mut entry = Tokenizer::new(b"0000000000 65535 f", 0);
    assert_eq!(
        xref_table_subsection_entry(&mut entry),
        XrefEntry {
            number: 0,
            generation: 65535,
            in_use: false
        }
    );
}

#[test]
fn xref_table_valid() {
    let xref_sample = b"xref\n0 6\n0000000000 65535 f \n0000000010 00000 n \n0000000079 00000 n \n0000000173 00000 n \n0000000301 00000 n \n0000000380 00000 n";
    let table = match xref_parse(xref_sample).unwrap() {
        XRef::XRefTable(t) => t,
        XRef::XRefStream(_) => panic!(),
    };
    assert_eq!(table.len(), 6);
    assert_eq!(table.get(&(1, 0)), Some(&10));
    assert_eq!(table.get(&(2, 0)), Some(&79));
    assert_eq!(table.get(&(5, 0)), Some(&380));
}

#[test]
fn xref_stream_valid() {
    let xref_sample = b"22 0 obj\n<<\n /Type /XRef\n/Index [0 23]\n/Size 23\n/W [1 2 1]\n/Root 20 0 R\n/Info 21 0 R\n/ID [<8EBF2018CB18810B2C88BDD4E7324774> <8EBF2018CB18810B2C88BDD4E7324774>]\n/Length 0        \n/Filter /FlateDecode\n>>\nstream\n\nendstream\nendobj";
    match xref_parse(xref_sample).unwrap() {
        XRef::XRefStream(t) => t,
        XRef::XRefTable(_) => panic!(),
    };
}

#[test]
fn xref_table_default_is_empty() {
    let t = pdfrust::xref::XRefTable::default();
    assert!(t.is_empty());
    assert_eq!(t.len(), 0);
    assert_eq!(t.get(&(1, 0)), None);
}
