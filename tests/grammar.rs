use bytes_plus::{escape_literal, Input, ParseError, Primitive, Type};

fn s(x: &str) -> String {
    x.to_string()
}

#[test]
fn primitive_names_parse() {
    assert_eq!(Type::parse("u8"), Ok(Type::Primitive(Primitive::U8)));
    assert_eq!(Type::parse("u16"), Ok(Type::Primitive(Primitive::U16)));
    assert_eq!(Type::parse("u32"), Ok(Type::Primitive(Primitive::U32)));
    assert_eq!(Type::parse("u64"), Ok(Type::Primitive(Primitive::U64)));
    assert_eq!(Type::parse("u128"), Ok(Type::Primitive(Primitive::U128)));
}

#[test]
fn array_expression_parses() {
    assert_eq!(Type::parse("[u16;12]"), Ok(Type::Array(Primitive::U16, 12)));
    assert_eq!(Type::parse("[u8;+3]"), Ok(Type::Array(Primitive::U8, 3)));
}

#[test]
fn zero_size_array_rejected() {
    assert_eq!(Type::parse("[u8;0]"), Err(ParseError::ArrayInvalidSize(s("[u8;0]"))));
    let r = Input::parse("\"data.bin\" as [u8; 0]");
    assert!(matches!(r, Err(ParseError::ArrayInvalidSize(ref e)) if e == "[u8;0]"));
}

#[test]
fn type_errors() {
    assert_eq!(Type::parse(""), Err(ParseError::MissingType));
    assert_eq!(Type::parse("i32"), Err(ParseError::UnsupportedType(s("i32"))));
    assert_eq!(Type::parse("[u8;2"), Err(ParseError::ArrayUnclosedBrackets(s("[u8;2"))));
    assert_eq!(Type::parse("["), Err(ParseError::ArrayUnclosedBrackets(s("["))));
    assert_eq!(Type::parse("[u8]"), Err(ParseError::ArrayMissingSize(s("[u8]"))));
    assert_eq!(Type::parse("[]"), Err(ParseError::ArrayMissingSize(s("[]"))));
    assert_eq!(
        Type::parse("[u8;1;2]"),
        Err(ParseError::ArraySuperfluousSeparator(s("[u8;1;2]")))
    );
    assert_eq!(
        Type::parse("[i8;2]"),
        Err(ParseError::ArrayInvalidElementType(s("[i8;2]"), s("i8")))
    );
    assert_eq!(Type::parse("[u8;x]"), Err(ParseError::ArrayInvalidSize(s("[u8;x]"))));
    assert_eq!(Type::parse("[u8;]"), Err(ParseError::ArrayInvalidSize(s("[u8;]"))));
    assert_eq!(Type::parse("[u8;+]"), Err(ParseError::ArrayInvalidSize(s("[u8;+]"))));
    assert_eq!(
        Type::parse("[u8;99999999999999999999999]"),
        Err(ParseError::ArrayInvalidSize(s("[u8;99999999999999999999999]")))
    );
}

#[test]
fn quoted_path_with_spaces() {
    let i = Input::parse("\"tests/with spaces.in\" as [u16; 12]").unwrap();
    assert_eq!(i.file, "tests/with spaces.in");
    assert_eq!(i.typ, Type::Array(Primitive::U16, 12));
}

#[test]
fn unquoted_path_defaults_to_bytes() {
    let i = Input::parse("  data.bin  ").unwrap();
    assert_eq!(i.file, "data.bin");
    assert_eq!(i.typ, Type::Primitive(Primitive::U8));
}

#[test]
fn spaced_type_words() {
    let i = Input::parse("data.bin   as   u32 ").unwrap();
    assert_eq!(i.file, "data.bin");
    assert_eq!(i.typ, Type::Primitive(Primitive::U32));
    let i = Input::parse("\"d\" as [ u64 ; 2 ]").unwrap();
    assert_eq!(i.typ, Type::Array(Primitive::U64, 2));
}

#[test]
fn input_errors() {
    assert!(matches!(Input::parse("\"abc as u8"), Err(ParseError::UnterminatedPath)));
    assert!(matches!(Input::parse("\"abc\" as"), Err(ParseError::MissingType)));
    assert!(matches!(Input::parse("abc xs u8"), Err(ParseError::UnexpectedToken(ref w)) if w == "xs"));
    assert!(matches!(Input::parse("\"\" as u8"), Err(ParseError::EmptyFilePath)));
    assert!(matches!(Input::parse(""), Err(ParseError::EmptyFilePath)));
    assert!(matches!(Input::parse("\"a\" as i8"), Err(ParseError::UnsupportedType(ref t)) if t == "i8"));
}

#[test]
fn blank_quoted_path_is_empty() {
    assert!(matches!(Input::parse("\"   \""), Err(ParseError::EmptyFilePath)));
    assert!(matches!(Input::parse("\" \t \" as u16"), Err(ParseError::EmptyFilePath)));
}

#[test]
fn zero_size_rejected_for_any_path() {
    for p in ["u8", "u16", "u32", "u64", "u128"] {
        let text = format!("\"missing/file.bin\" as [{}; 0]", p);
        let expected = format!("[{};0]", p);
        assert!(matches!(Input::parse(&text), Err(ParseError::ArrayInvalidSize(ref e)) if *e == expected));
    }
}

#[test]
fn literal_escaping() {
    assert_eq!(escape_literal("Missing '\"' at the end"), "Missing '\\\"' at the end");
    assert_eq!(escape_literal("a\\b"), "a\\\\b");
    assert_eq!(escape_literal("plain"), "plain");
    assert_eq!(escape_literal(""), "");
}
