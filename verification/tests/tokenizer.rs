use pdfrust::algebra::Number;
use pdfrust::lemmatizer::Lemmatizer;
use pdfrust::tokenizer::{Token, Tokenizer};

/// The value of a real number token, as `f32` parsing of its text gives it.
fn real_value(t: Option<Token>) -> f32 {
    match t {
        Some(Token::Numeric(Number::Real(text))) => {
            std::str::from_utf8(&text).unwrap().parse::<f32>().unwrap()
        }
        other => panic!("not a real number token: {other:?}"),
    }
}

#[test]
fn tokenizer_test_pdfbytes_iterator_skipped_comment() {
    let mut pdf = Tokenizer::new(b"%PDF-1.7\n\n1 0 obj  % entry point", 0);
    assert_eq!(pdf.next(), Some(Token::Comment(b"PDF-1.7".to_vec())));
    assert_eq!(pdf.next(), Some(Token::Numeric(Number::Integer(1))));
    assert_eq!(pdf.next(), Some(Token::Numeric(Number::Integer(0))));
    assert_eq!(pdf.next(), Some(Token::String(b"obj".to_vec())));
    assert_eq!(pdf.next(), Some(Token::Comment(b" entry point".to_vec())));
    assert_eq!(pdf.next(), None);
}

#[test]
fn test_litteral_string_octal() {
    let mut pdf = Tokenizer::new(b"(\\003)", 0);
    assert_eq!(pdf.next(), Some(Token::LitteralString(vec![3])))
}

#[test]
fn tokenizer_test_pdfbytes_iterator_litteral_string() {
    let mut pdf = Tokenizer::new(b"(Hello World)", 0);
    assert_eq!(
        pdf.next(),
        Some(Token::LitteralString(b"Hello World".to_vec()))
    );
}

#[test]
fn tokenizer_test_pdfbytes_iterator_litteral_string_with_embedded_parenthesis() {
    let mut pdf = Tokenizer::new(b"((Hello) (World))", 0);
    assert_eq!(
        pdf.next(),
        Some(Token::LitteralString(b"(Hello) (World)".to_vec()))
    );
}

#[test]
fn test_pdfbytes_iterator_hex_string() {
    let mut pdf = Tokenizer::new(b"<4E6F762073686D6F7A206B6120706F702E>", 0);
    assert_eq!(
        pdf.next(),
        Some(Token::HexString(
            [78, 111, 118, 32, 115, 104, 109, 111, 122, 32, 107, 97, 32, 112, 111, 112, 46]
                .to_vec()
        ))
    );
}

#[test]
fn test_pdfbytes_numeric_float() {
    let mut pdf = Tokenizer::new(b"12.34", 0);
    assert_eq!(real_value(pdf.next()), 12.34);
}

#[test]
fn test_pdfbytes_mediabox_float() {
    let mut pdf = Tokenizer::new(b"/MediaBox [ 0 0 200.00 200.00 ] ", 0);
    assert_eq!(pdf.next(), Some(Token::Name("MediaBox".to_string())));
    assert_eq!(pdf.next(), Some(Token::ArrayBegin));
    assert_eq!(pdf.next(), Some(Token::Numeric(Number::Integer(0))));
    assert_eq!(pdf.next(), Some(Token::Numeric(Number::Integer(0))));
    assert_eq!(real_value(pdf.next()), 200.0);
    assert_eq!(real_value(pdf.next()), 200.0);
    assert_eq!(pdf.next(), Some(Token::ArrayEnd));
}

#[test]
fn test_tokenizer_1() {
    let mut pdf = Tokenizer::new(b"2 0 obj\n<<\n  /Type /Pages\n  /MediaBox [ 0 0 200 200 ]\n  /Count 1\n  /Kids [ 3 0 R ]\n>>\nendobj\n", 0);
    assert_eq!(pdf.next(), Some(Token::Numeric(Number::Integer(2))));
    assert_eq!(pdf.next(), Some(Token::Numeric(Number::Integer(0))));
    assert_eq!(pdf.next(), Some(Token::String(b"obj".to_vec())));
    assert_eq!(pdf.next(), Some(Token::DictBegin));
    assert_eq!(pdf.next(), Some(Token::Name("Type".to_string())));
    assert_eq!(pdf.next(), Some(Token::Name("Pages".to_string())));
    assert_eq!(pdf.next(), Some(Token::Name("MediaBox".to_string())));
    assert_eq!(pdf.next(), Some(Token::ArrayBegin));
    assert_eq!(pdf.next(), Some(Token::Numeric(Number::Integer(0))));
    assert_eq!(pdf.next(), Some(Token::Numeric(Number::Integer(0))));
    assert_eq!(pdf.next(), Some(Token::Numeric(Number::Integer(200))));
    assert_eq!(pdf.next(), Some(Token::Numeric(Number::Integer(200))));
    assert_eq!(pdf.next(), Some(Token::ArrayEnd));
    assert_eq!(pdf.next(), Some(Token::Name("Count".to_string())));
    assert_eq!(pdf.next(), Some(Token::Numeric(Number::Integer(1))));
    assert_eq!(pdf.next(), Some(Token::Name("Kids".to_string())));
    assert_eq!(pdf.next(), Some(Token::ArrayBegin));
    assert_eq!(pdf.next(), Some(Token::Numeric(Number::Integer(3))));
    assert_eq!(pdf.next(), Some(Token::Numeric(Number::Integer(0))));
    assert_eq!(pdf.next(), Some(Token::String(b"R".to_vec())));
    assert_eq!(pdf.next(), Some(Token::ArrayEnd));
    assert_eq!(pdf.next(), Some(Token::DictEnd));
    assert_eq!(pdf.next(), Some(Token::ObjEnd));
}

#[test]
fn test_tokenizer() {
    let mut pdf = Tokenizer::new(b"9 0 obj\n<</Type/Font/Subtype/TrueType/BaseFont/BAAAAA+DejaVuSans\n/FirstChar 0\n/LastChar 27\n/Widths[600 557 611 411 615 974 317 277 634 520 633 634 277 392 612 317\n549 633 634 591 591 634 634 317 684 277 634 579 ]\n/FontDescriptor 7 0 R\n/ToUnicode 8 0 R\n>>", 0);
    assert_eq!(pdf.next(), Some(Token::Numeric(Number::Integer(9))));
    assert_eq!(pdf.next(), Some(Token::Numeric(Number::Integer(0))));
    assert_eq!(pdf.next(), Some(Token::String(b"obj".to_vec())));
    assert_eq!(pdf.next(), Some(Token::DictBegin));
    assert_eq!(pdf.next(), Some(Token::Name("Type".to_string())));
    assert_eq!(pdf.next(), Some(Token::Name("Font".to_string())));
    assert_eq!(pdf.next(), Some(Token::Name("Subtype".to_string())));
    assert_eq!(pdf.next(), Some(Token::Name("TrueType".to_string())));
    assert_eq!(pdf.next(), Some(Token::Name("BaseFont".to_string())));
    assert_eq!(
        pdf.next(),
        Some(Token::Name("BAAAAA+DejaVuSans".to_string()))
    );
    assert_eq!(pdf.next(), Some(Token::Name("FirstChar".to_string())));
    assert_eq!(pdf.next(), Some(Token::Numeric(Number::Integer(0))));
    assert_eq!(pdf.next(), Some(Token::Name("LastChar".to_string())));
    assert_eq!(pdf.next(), Some(Token::Numeric(Number::Integer(27))));
    assert_eq!(pdf.next(), Some(Token::Name("Widths".to_string())));
    assert_eq!(pdf.next(), Some(Token::ArrayBegin));
    assert_eq!(pdf.next(), Some(Token::Numeric(Number::Integer(600))));
    assert_eq!(pdf.next(), Some(Token::Numeric(Number::Integer(557))));
    assert_eq!(pdf.next(), Some(Token::Numeric(Number::Integer(611))));
}

#[test]
fn test_lemmatizer_1() {
    let mut pdf = Lemmatizer::new(b"9 0 obj\n<</Type/Font/Subtype/TrueType/BaseFont/BAAAAA+DejaVuSans\n/FirstChar 0\n/LastChar 27\n/Widths[600 557 611 411 615 974 317 277 634 520 633 634 277 392 612 317\n549 633 634 591 591 634 634 317 684 277 634 579 ]\n/FontDescriptor 7 0 R\n/ToUnicode 8 0 R\n>>", 0);
    assert_eq!(pdf.next(), Some(Token::ObjBegin));
    assert_eq!(pdf.next(), Some(Token::DictBegin));
    assert_eq!(pdf.next(), Some(Token::Name("Type".to_string())));
    assert_eq!(pdf.next(), Some(Token::Name("Font".to_string())));
    assert_eq!(pdf.next(), Some(Token::Name("Subtype".to_string())));
    assert_eq!(pdf.next(), Some(Token::Name("TrueType".to_string())));
    assert_eq!(pdf.next(), Some(Token::Name("BaseFont".to_string())));
    assert_eq!(
        pdf.next(),
        Some(Token::Name("BAAAAA+DejaVuSans".to_string()))
    );
    assert_eq!(pdf.next(), Some(Token::Name("FirstChar".to_string())));
    assert_eq!(pdf.next(), Some(Token::Numeric(Number::Integer(0))));
    assert_eq!(pdf.next(), Some(Token::Name("LastChar".to_string())));
    assert_eq!(pdf.next(), Some(Token::Numeric(Number::Integer(27))));
    assert_eq!(pdf.next(), Some(Token::Name("Widths".to_string())));
    assert_eq!(pdf.next(), Some(Token::ArrayBegin));
    assert_eq!(pdf.next(), Some(Token::Numeric(Number::Integer(600))));
    assert_eq!(pdf.next(), Some(Token::Numeric(Number::Integer(557))));
    assert_eq!(pdf.next(), Some(Token::Numeric(Number::Integer(611))));
}

#[test]
fn test_lemmatizer_0() {
    let bytes = b"2 0 obj\n<<\n  /Type /Pages\n  /MediaBox [ 0 0 200 200 ]\n  /Count 1\n  /Kids [ 3 0 R ]\n>>\nendobj\n";
    let mut pdf = Lemmatizer::new(bytes, 0);
    assert_eq!(pdf.next(), Some(Token::ObjBegin));
    assert_eq!(pdf.next(), Some(Token::DictBegin));
    assert_eq!(pdf.next(), Some(Token::Name("Type".to_string())));
    assert_eq!(pdf.next(), Some(Token::Name("Pages".to_string())));
    assert_eq!(pdf.next(), Some(Token::Name("MediaBox".to_string())));
    assert_eq!(pdf.next(), Some(Token::ArrayBegin));
    assert_eq!(pdf.next(), Some(Token::Numeric(Number::Integer(0))));
    assert_eq!(pdf.next(), Some(Token::Numeric(Number::Integer(0))));
    assert_eq!(pdf.next(), Some(Token::Numeric(Number::Integer(200))));
    assert_eq!(pdf.next(), Some(Token::Numeric(Number::Integer(200))));
    assert_eq!(pdf.next(), Some(Token::ArrayEnd));
    assert_eq!(pdf.next(), Some(Token::Name("Count".to_string())));
    assert_eq!(pdf.next(), Some(Token::Numeric(Number::Integer(1))));
    assert_eq!(pdf.next(), Some(Token::Name("Kids".to_string())));
    assert_eq!(pdf.next(), Some(Token::ArrayBegin));
    assert_eq!(pdf.next(), Some(Token::IndirectRef(3, 0)));
    assert_eq!(pdf.next(), Some(Token::ArrayEnd));
    assert_eq!(pdf.next(), Some(Token::DictEnd));
    assert_eq!(pdf.next(), Some(Token::ObjEnd));
}

#[test]
fn test_pdfbytes_iterator_full() {
    let mut pdf = Lemmatizer::new(b"2 0 obj\n<<\n  /Type /Pages\n  /MediaBox [ 0 0 200 200 ]\n  /Count 1\n  /Kids [ 3 0 R ]\n>>\nendobj\n", 0);
    assert_eq!(pdf.next(), Some(Token::ObjBegin));
    assert_eq!(pdf.next(), Some(Token::DictBegin));
    assert_eq!(pdf.next(), Some(Token::Name("Type".to_string())));
    assert_eq!(pdf.next(), Some(Token::Name("Pages".to_string())));
    assert_eq!(pdf.next(), Some(Token::Name("MediaBox".to_string())));
    assert_eq!(pdf.next(), Some(Token::ArrayBegin));
    assert_eq!(pdf.next(), Some(Token::Numeric(Number::Integer(0))));
    assert_eq!(pdf.next(), Some(Token::Numeric(Number::Integer(0))));
    assert_eq!(pdf.next(), Some(Token::Numeric(Number::Integer(200))));
    assert_eq!(pdf.next(), Some(Token::Numeric(Number::Integer(200))));
    assert_eq!(pdf.next(), Some(Token::ArrayEnd));
    assert_eq!(pdf.next(), Some(Token::Name("Count".to_string())));
    assert_eq!(pdf.next(), Some(Token::Numeric(Number::Integer(1))));
    assert_eq!(pdf.next(), Some(Token::Name("Kids".to_string())));
    assert_eq!(pdf.next(), Some(Token::ArrayBegin));
    assert_eq!(pdf.next(), Some(Token::IndirectRef(3, 0)));
    assert_eq!(pdf.next(), Some(Token::ArrayEnd));
    assert_eq!(pdf.next(), Some(Token::DictEnd));
    assert_eq!(pdf.next(), Some(Token::ObjEnd));
}

#[test]
fn octal_escape_gives_its_octal_code() {
    let mut pdf = Tokenizer::new(b"(\\101\\060)", 0);
    assert_eq!(pdf.next(), Some(Token::LitteralString(vec![65, 48])));
}

#[test]
fn lemmatizer_integers_before_a_word_are_numbers() {
    let mut l = Lemmatizer::new(b"1 2 foo", 0);
    assert_eq!(l.next(), Some(Token::Numeric(Number::Integer(1))));
    assert_eq!(l.next(), Some(Token::Numeric(Number::Integer(2))));
    assert_eq!(l.next(), Some(Token::String(b"foo".to_vec())));
    assert_eq!(l.next(), None);
}

#[test]
fn tokenizer_from_an_offset_reads_as_on_the_rest() {
    let bytes = b"junk << /Type /Font /W [1 2.5] (a\\051b) <41> >> % c";
    let mut at = Tokenizer::new(bytes, 5);
    let mut rest = Tokenizer::new(&bytes[5..], 0);
    loop {
        let a = at.next();
        let b = rest.next();
        assert_eq!(a, b);
        assert_eq!(at.pos(), rest.pos() + 5);
        if a.is_none() {
            break;
        }
    }
}
