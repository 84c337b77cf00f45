use pdfrust::algebra::Number;
use pdfrust::lemmatizer::Lemmatizer;
use pdfrust::object::{Dictionary, Object, Stream};

#[test]
fn object_test_dictionnary_0() {
    let mut t = Lemmatizer::new(b"/Title (sample) /Author (Philip Hutchison) /Creator (Pages) >>", 0);
    let dict = Dictionary::try_from(&mut t).unwrap();
    assert_eq!(
        dict.get(&String::from("Title")),
        Some(&Object::String("sample".to_string()))
    );
    assert_eq!(
        dict.get(&String::from("Author")),
        Some(&Object::String("Philip Hutchison".to_string()))
    );
    assert_eq!(
        dict.get(&String::from("Creator")),
        Some(&Object::String("Pages".to_string()))
    );
}

#[test]
fn mod_test_dictionnary_0() {
    let mut bytes = Lemmatizer::new(b"/Title (sample) /Author (Philip Hutchison) /Creator (Pages) >>", 0);
    let dict = Dictionary::try_from(&mut bytes).unwrap();
    assert_eq!(
        dict.get(&String::from("Title")),
        Some(&Object::String("sample".to_string()))
    );
    assert_eq!(
        dict.get(&String::from("Author")),
        Some(&Object::String("Philip Hutchison".to_string()))
    );
    assert_eq!(
        dict.get(&String::from("Creator")),
        Some(&Object::String("Pages".to_string()))
    );
}

#[test]
fn test_object_trailer() {
    let bytes = b"<</Size 14/Root 12 0 R\n/Info 13 0 R\n/ID [ <6285DCD147BBD7C07D63844C37B01D23>\n<6285DCD147BBD7C07D63844C37B01D23> ]\n/DocChecksum /700D49F24CC4E7F9CC731421E1DAB422\n>>\nstartxref\n12125\n";
    let mut t = Lemmatizer::new(bytes, 0);
    match Object::try_from(&mut t) {
        Ok(Object::Dictionary(d)) => {
            assert_eq!(
                d.get(&String::from("Size")),
                Some(&Object::Numeric(Number::Integer(14)))
            );
            assert_eq!(d.get(&String::from("Root")), Some(&Object::Ref((12, 0))));
            assert_eq!(d.get(&String::from("Info")), Some(&Object::Ref((13, 0))));
            assert_eq!(
                d.get(&String::from("ID")),
                Some(&Object::Array(vec![
                    Object::HexString(
                        [
                            98, 133, 220, 209, 71, 187, 215, 192, 125, 99, 132, 76, 55, 176, 29,
                            35
                        ]
                        .to_vec()
                    ),
                    Object::HexString(
                        [
                            98, 133, 220, 209, 71, 187, 215, 192, 125, 99, 132, 76, 55, 176, 29,
                            35
                        ]
                        .to_vec()
                    )
                ]))
            );
            assert_eq!(
                d.get(&String::from("DocChecksum")),
                Some(&Object::Name(String::from(
                    "700D49F24CC4E7F9CC731421E1DAB422"
                )))
            );
        }
        other => panic!("expected a dictionary, found {other:?}"),
    }
}

fn check_catalog(bytes: &[u8]) {
    let mut t = Lemmatizer::new(bytes, 0);
    match Object::try_from(&mut t) {
        Ok(Object::Dictionary(d)) => {
            assert_eq!(
                d.get(&String::from("Type")),
                Some(&Object::Name(String::from("Catalog")))
            );
        }
        other => panic!("expected a dictionary, found {other:?}"),
    }
}

#[test]
fn object_test_object_catalog() {
    check_catalog(b"1 0 obj  % entry point\n<<\n  /Type /Catalog\n\n>>\nendobj");
}

#[test]
fn mod_test_object_catalog() {
    check_catalog(b"1 0 obj  % entry point\n<<\n  /Type /Catalog\n\n>>\nendobj");
}

fn check_pages(bytes: &[u8]) {
    let mut t = Lemmatizer::new(bytes, 0);
    match Object::try_from(&mut t) {
        Ok(Object::Dictionary(d)) => {
            assert_eq!(
                d.get(&String::from("Type")),
                Some(&Object::Name(String::from("Pages")))
            );
            assert_eq!(
                d.get(&String::from("MediaBox")),
                Some(&Object::Array(vec![
                    Object::Numeric(Number::Integer(0)),
                    Object::Numeric(Number::Integer(0)),
                    Object::Numeric(Number::Integer(200)),
                    Object::Numeric(Number::Integer(200))
                ]))
            );
            assert_eq!(
                d.get(&String::from("Count")),
                Some(&Object::Numeric(Number::Integer(1)))
            );
            assert_eq!(
                d.get(&String::from("Kids")),
                Some(&Object::Array(vec![Object::Ref((3, 0))]))
            )
        }
        other => panic!("expected a dictionary, found {other:?}"),
    }
}

#[test]
fn object_test_object_pages() {
    check_pages(b"2 0 obj\n<<\n  /Type /Pages\n  /MediaBox [ 0 0 200 200 ]\n  /Count 1\n  /Kids [ 3 0 R ]\n>>\nendobj");
}

#[test]
fn mod_test_object_pages() {
    check_pages(b"2 0 obj\n<<\n  /Type /Pages\n  /MediaBox [ 0 0 200 200 ]\n  /Count 1\n  /Kids [ 3 0 R ]\n>>\nendobj");
}

#[test]
fn test_object_stream() {
    let bytes = b"4 0 obj\n<<\n  /Length 10\n>>\nstream\n1234567890\nendstream\nendobj";
    let mut t = Lemmatizer::new(bytes, 0);
    match Object::try_from(&mut t) {
        Ok(Object::Stream(Stream {
            header: d,
            bytes: s,
        })) => {
            assert_eq!(
                d.get(&String::from("Length")),
                Some(&Object::Numeric(Number::Integer(10)))
            );
            assert_eq!(s, b"1234567890");
        }
        other => panic!("expected a stream, found {other:?}"),
    }
}

fn check_page(bytes: &[u8]) {
    let mut t = Lemmatizer::new(bytes, 0);
    match Object::try_from(&mut t) {
        Ok(Object::Dictionary(d)) => {
            assert_eq!(
                d.get(&String::from("Type")),
                Some(&Object::Name(String::from("Page")))
            );
            assert_eq!(d.get(&String::from("Parent")), Some(&Object::Ref((2, 0))));
            assert_eq!(d.get(&String::from("Contents")), Some(&Object::Ref((5, 0))));
            match d.get(&String::from("Resources")) {
                Some(Object::Dictionary(d)) => match d.get(&String::from("Font")) {
                    Some(Object::Dictionary(d)) => {
                        assert_eq!(d.get(&String::from("F1")), Some(&Object::Ref((4, 0))));
                    }
                    _ => panic!("Resources should be a dictionnary"),
                },
                _ => panic!("Resources should be a dictionnary"),
            }
        }
        other => panic!("expected a dictionary, found {other:?}"),
    }
}

#[test]
fn object_test_object_page() {
    check_page(b"3 0 obj\n<<\n  /Type /Page\n  /Parent 2 0 R\n  /Resources <<\n    /Font <<\n      /F1 4 0 R \n    >>\n  >>\n  /Contents 5 0 R\n>>\nendobj");
}

#[test]
fn mod_test_object_page() {
    check_page(b"3 0 obj\n<<\n  /Type /Page\n  /Parent 2 0 R\n  /Resources <<\n    /Font <<\n      /F1 4 0 R \n    >>\n  >>\n  /Contents 5 0 R\n>>\nendobj");
}

#[test]
fn object_from_a_tokenizer_position() {
    let t = pdfrust::tokenizer::Tokenizer::new(b"junk [1 2]", 5);
    assert_eq!(
        Object::from_tokenizer(&t),
        Object::Array(vec![
            Object::Numeric(Number::Integer(1)),
            Object::Numeric(Number::Integer(2))
        ])
    );
    let s = Stream::new(Dictionary::new(), b"ab".to_vec());
    assert_eq!(s.bytes, b"ab".to_vec());
}
