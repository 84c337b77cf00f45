use pdfrust::algebra::Number;
use pdfrust::content::{ArrayVal, Content, ContentError, GraphicsInstruction};

/// The value of a real number, as `f32` parsing of its text gives it.
fn real_value(n: &Number) -> f32 {
    match n {
        Number::Real(text) => std::str::from_utf8(text).unwrap().parse::<f32>().unwrap(),
        other => panic!("not a real number: {other:?}"),
    }
}

#[test]
fn content_test_tokens() {
    let raw = b"BT\n70 50 TD\n/F1 12 Tf\n(Hello, world!) Tj\nET".as_slice();
    let mut stream = Content::from(raw);
    assert_eq!(stream.next(), Some(GraphicsInstruction::BeginText));
    assert_eq!(
        stream.next(),
        Some(GraphicsInstruction::TD(
            Number::Integer(70),
            Number::Integer(50)
        ))
    );
    assert_eq!(
        stream.next(),
        Some(GraphicsInstruction::Tf(
            "F1".to_string(),
            Number::Integer(12)
        ))
    );
    assert_eq!(
        stream.next(),
        Some(GraphicsInstruction::Tj(b"Hello, world!".to_vec()))
    );
    assert_eq!(stream.next(), Some(GraphicsInstruction::EndText));
    assert_eq!(stream.next(), None);
}

#[test]
fn content_test_stream_hexstrings() {
    let raw = b"[<18>14<0D>2<06>7<14>1<04>-4<03>21<02>1<06>-2<04>-4<02>1<0906>]TJ".as_slice();
    let mut stream = Content::from(raw);
    assert_eq!(
        stream.next(),
        Some(GraphicsInstruction::TJ(vec![
            ArrayVal::Text(vec![24]),
            ArrayVal::Pos(Number::Integer(14)),
            ArrayVal::Text(vec![13]),
            ArrayVal::Pos(Number::Integer(2)),
            ArrayVal::Text(vec![6]),
            ArrayVal::Pos(Number::Integer(7)),
            ArrayVal::Text(vec![20]),
            ArrayVal::Pos(Number::Integer(1)),
            ArrayVal::Text(vec![4]),
            ArrayVal::Pos(Number::Integer(-4)),
            ArrayVal::Text(vec![3]),
            ArrayVal::Pos(Number::Integer(21)),
            ArrayVal::Text(vec![2]),
            ArrayVal::Pos(Number::Integer(1)),
            ArrayVal::Text(vec![6]),
            ArrayVal::Pos(Number::Integer(-2)),
            ArrayVal::Text(vec![4]),
            ArrayVal::Pos(Number::Integer(-4)),
            ArrayVal::Text(vec![2]),
            ArrayVal::Pos(Number::Integer(1)),
            ArrayVal::Text(vec![9, 6]),
        ]))
    );
}

#[test]
fn test_tokenizer_dict() {
    let raw = b" /P <</MCID 0>> BDC q\n0.00000887 0 595.25 842 re".as_slice();
    let mut text_stream = Content::from(raw);
    assert_eq!(text_stream.next(), Some(GraphicsInstruction::BDC));
    assert_eq!(text_stream.next(), Some(GraphicsInstruction::LowerQ));
    match text_stream.next() {
        Some(GraphicsInstruction::Re(x, y, w, h)) => {
            assert_eq!(real_value(&x), 0.00000887);
            assert_eq!(y, Number::Integer(0));
            assert_eq!(real_value(&w), 595.25);
            assert_eq!(h, Number::Integer(842));
        }
        other => panic!("expected a rectangle, found {other:?}"),
    }
}

#[test]
fn test_tokenizer_complex() {
    let raw = b"BT\n/F33 8.9664 Tf 54 713.7733 Td[(v0)-525(:=)-525(ld)-525(state[748])-2625(//)-525(load)-525(primes)-525(from)-525(the)-525(trace)-525(activation)-525(record)]TJ".as_slice();
    let mut text_stream = Content::from(raw);
    assert_eq!(text_stream.next(), Some(GraphicsInstruction::BeginText));
    match text_stream.next() {
        Some(GraphicsInstruction::Tf(font, size)) => {
            assert_eq!(font, "F33".to_string());
            assert_eq!(real_value(&size), 8.9664);
        }
        other => panic!("expected a font, found {other:?}"),
    }
    match text_stream.next() {
        Some(GraphicsInstruction::Td(x, y)) => {
            assert_eq!(x, Number::Integer(54));
            assert_eq!(real_value(&y), 713.7733);
        }
        other => panic!("expected a text move, found {other:?}"),
    }
    assert_eq!(
        text_stream.next(),
        Some(GraphicsInstruction::TJ(vec![
            ArrayVal::Text(b"v0".to_vec()),
            ArrayVal::Pos(Number::Integer(-525)),
            ArrayVal::Text(b":=".to_vec()),
            ArrayVal::Pos(Number::Integer(-525)),
            ArrayVal::Text(b"ld".to_vec()),
            ArrayVal::Pos(Number::Integer(-525)),
            ArrayVal::Text(b"state[748]".to_vec()),
            ArrayVal::Pos(Number::Integer(-2625)),
            ArrayVal::Text(b"//".to_vec()),
            ArrayVal::Pos(Number::Integer(-525)),
            ArrayVal::Text(b"load".to_vec()),
            ArrayVal::Pos(Number::Integer(-525)),
            ArrayVal::Text(b"primes".to_vec()),
            ArrayVal::Pos(Number::Integer(-525)),
            ArrayVal::Text(b"from".to_vec()),
            ArrayVal::Pos(Number::Integer(-525)),
            ArrayVal::Text(b"the".to_vec()),
            ArrayVal::Pos(Number::Integer(-525)),
            ArrayVal::Text(b"trace".to_vec()),
            ArrayVal::Pos(Number::Integer(-525)),
            ArrayVal::Text(b"activation".to_vec()),
            ArrayVal::Pos(Number::Integer(-525)),
            ArrayVal::Text(b"record".to_vec()),
        ]))
    );
    assert_eq!(text_stream.next(), None);
}

#[test]
fn content_dash_pattern() {
    let mut stream = Content::from(b"[3 5] 6 d".as_slice());
    assert_eq!(
        stream.next(),
        Some(GraphicsInstruction::LowerD(
            vec![Number::Integer(3), Number::Integer(5)],
            Number::Integer(6)
        ))
    );
    assert_eq!(stream.next(), None);
}

#[test]
fn content_td_with_wrong_operand_count_starts_over() {
    let mut stream = Content::from(b"1 2 3 Td 4 5 Td".as_slice());
    assert_eq!(
        stream.next(),
        Some(GraphicsInstruction::Td(Number::Integer(4), Number::Integer(5)))
    );
}

#[test]
fn content_unknown_operator_keeps_operands() {
    let mut stream = Content::from(b"7 zz w".as_slice());
    assert_eq!(stream.next(), Some(GraphicsInstruction::LowerW(Number::Integer(7))));
}

#[test]
fn content_missing_operand_is_an_error() {
    let mut stream = Content::from(b"/F1 Tf".as_slice());
    assert_eq!(stream.try_next(), Err(ContentError::Operands));
}

#[test]
fn content_wrong_operand_kind_is_an_error() {
    let mut stream = Content::from(b"<41> Tj".as_slice());
    assert_eq!(stream.try_next(), Err(ContentError::Operands));
}

#[test]
fn content_unexpected_token_is_an_error() {
    let mut stream = Content::from(b"% note\nq".as_slice());
    assert_eq!(stream.try_next(), Err(ContentError::UnexpectedToken));
}

#[test]
fn content_dictionary_operand_is_skipped() {
    let mut stream = Content::from(b"/Span <</ActualText (x)>> BDC EMC".as_slice());
    assert_eq!(stream.next(), Some(GraphicsInstruction::BDC));
    assert_eq!(stream.next(), Some(GraphicsInstruction::EMC));
    assert_eq!(stream.next(), None);
}

#[test]
fn text_test_tokens() {
    let raw = b"BT\n70 50 TD\n/F1 12 Tf\n(Hello, world!) Tj\nET".as_slice();
    let mut stream = Content::from(raw);
    assert_eq!(stream.next(), Some(GraphicsInstruction::BeginText));
    assert_eq!(
        stream.next(),
        Some(GraphicsInstruction::TD(
            Number::Integer(70),
            Number::Integer(50)
        ))
    );
    assert_eq!(
        stream.next(),
        Some(GraphicsInstruction::Tf(
            "F1".to_string(),
            Number::Integer(12)
        ))
    );
    assert_eq!(
        stream.next(),
        Some(GraphicsInstruction::Tj(b"Hello, world!".to_vec()))
    );
    assert_eq!(stream.next(), Some(GraphicsInstruction::EndText));
    assert_eq!(stream.next(), None);
}

#[test]
fn text_test_stream_hexstrings() {
    let raw = b"[<18>14<0D>2<06>7<14>1<04>-4<03>21<02>1<06>-2<04>-4<02>1<0906>]TJ".as_slice();
    let mut stream = Content::from(raw);
    assert!(matches!(stream.next(), Some(GraphicsInstruction::TJ(_))));
}

#[test]
fn content_from_a_tokenizer_starts_at_its_position() {
    let mut stream = Content::from_tokenizer(pdfrust::tokenizer::Tokenizer::new(b"q 2 w", 2));
    assert_eq!(stream.next(), Some(GraphicsInstruction::LowerW(Number::Integer(2))));
    assert_eq!(stream.next(), None);
}

#[test]
fn content_every_operand_kind() {
    let raw = b"1 0 0 1 5 6 cm 2 w 1 J 0.5 i /GS1 gs 1 2 m 3 4 l 1 2 3 4 5 6 c h 0 0 9 9 re W W* S f f* n /DeviceRGB cs 1 sc 0.5 G 0 g 1 0 0 RG 0 1 0 rg 1 2 TD T* 1 Tc 0 Tr 1 0 0 1 7 8 Tm /Im1 Do BMC";
    let mut s = Content::from(raw.as_slice());
    let mut seen = vec![];
    while let Some(i) = s.next() {
        seen.push(i);
    }
    assert_eq!(seen.len(), 29);
    assert_eq!(
        seen[0],
        GraphicsInstruction::Cm(
            Number::Integer(1),
            Number::Integer(0),
            Number::Integer(0),
            Number::Integer(1),
            Number::Integer(5),
            Number::Integer(6)
        )
    );
    assert_eq!(seen[4], GraphicsInstruction::Gs);
    assert_eq!(seen[16], GraphicsInstruction::Cs("DeviceRGB".to_string()));
    assert_eq!(seen[17], GraphicsInstruction::Sc(Number::Integer(1)));
    assert_eq!(seen[27], GraphicsInstruction::Do("Im1".to_string()));
    assert_eq!(seen[28], GraphicsInstruction::BMC);
}

#[test]
fn content_restore_needs_a_saved_state() {
    let mut stream = Content::from(b"q Q Q".as_slice());
    assert_eq!(stream.next(), Some(GraphicsInstruction::LowerQ));
    assert_eq!(stream.next(), Some(GraphicsInstruction::UpperQ));
    assert_eq!(stream.try_next(), Err(ContentError::EmptyStack));
}

#[test]
fn content_bytes_that_form_no_token_are_an_error() {
    let mut stream = Content::from(b"q {".as_slice());
    assert_eq!(stream.next(), Some(GraphicsInstruction::LowerQ));
    assert_eq!(stream.try_next(), Err(ContentError::UnexpectedToken));
    let mut in_dict = Content::from(b"/P << /A { >> BDC".as_slice());
    assert_eq!(in_dict.try_next(), Err(ContentError::UnexpectedToken));
    let mut open_dict = Content::from(b"/P << /A 1".as_slice());
    assert_eq!(open_dict.try_next(), Ok(None));
}
