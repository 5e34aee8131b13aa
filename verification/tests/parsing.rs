//! Tests of the parser: container bodies, the boundary behaviours of each
//! error kind, and the rendered error messages.

use objc2_encode::encoding::{Encoding, EncodingBox, Primitive};
use objc2_encode::nesting::ContainerKind;
use objc2_encode::parse::{parse, verify_name, ErrorKind, Parser};

const KIND: ContainerKind = ContainerKind::Struct;

fn assert_name(enc: &str, expected: Result<(String, Option<Vec<EncodingBox>>), ErrorKind>) {
    let mut parser = Parser::new(enc);
    assert_eq!(parser.parse_container(KIND), expected);
}

#[test]
fn parse_container() {
    assert_name("abc=}", Ok(("abc".to_string(), Some(vec![]))));
    assert_name(
        "abc=ii}",
        Ok((
            "abc".to_string(),
            Some(vec![
                EncodingBox::Prim(Primitive::Int),
                EncodingBox::Prim(Primitive::Int),
            ]),
        )),
    );
    assert_name("_=}.a'", Ok(("_".to_string(), Some(vec![]))));
    assert_name("abc}def", Ok(("abc".to_string(), None)));
    assert_name("=def}", Err(ErrorKind::InvalidIdentifier(KIND)));
    assert_name(".=def}", Err(ErrorKind::InvalidIdentifier(KIND)));
    assert_name("}xyz", Err(ErrorKind::InvalidIdentifier(KIND)));
    assert_name("", Err(ErrorKind::WrongEndContainer(KIND)));
    assert_name("abc", Err(ErrorKind::WrongEndContainer(KIND)));
    assert_name("abc)def", Err(ErrorKind::WrongEndContainer(KIND)));
}

#[test]
fn empty_input_is_unexpected_end() {
    let err = parse("").unwrap_err();
    assert_eq!(err.kind(), ErrorKind::UnexpectedEnd);
    assert_eq!(err.split_point(), 0);
}

#[test]
fn lone_complex_prefix_is_unexpected_end() {
    let err = parse("j").unwrap_err();
    assert_eq!(err.kind(), ErrorKind::UnexpectedEnd);
}

#[test]
fn bad_byte_after_complex() {
    let err = parse("jx").unwrap_err();
    assert_eq!(err.kind(), ErrorKind::UnknownAfterComplex(120));
    assert_eq!(err.split_point(), 1);
}

#[test]
fn bitfield_without_width() {
    let err = parse("b").unwrap_err();
    assert_eq!(err.kind(), ErrorKind::ExpectedInteger);
}

#[test]
fn bitfield_width_too_large() {
    let err = parse("b256").unwrap_err();
    assert_eq!(err.kind(), ErrorKind::IntegerTooLarge);
}

#[test]
fn unclosed_array() {
    let err = parse("[3i").unwrap_err();
    assert_eq!(err.kind(), ErrorKind::WrongEndArray);
}

#[test]
fn unclosed_struct() {
    let err = parse("{Foo").unwrap_err();
    assert_eq!(err.kind(), ErrorKind::WrongEndContainer(ContainerKind::Struct));
}

#[test]
fn empty_struct_name_is_invalid() {
    let err = parse("{=i}").unwrap_err();
    assert_eq!(err.kind(), ErrorKind::InvalidIdentifier(ContainerKind::Struct));
    let err = parse("{.=i}").unwrap_err();
    assert_eq!(err.kind(), ErrorKind::InvalidIdentifier(ContainerKind::Struct));
}

#[test]
fn anonymous_empty_struct_parses() {
    let enc = parse("{?=}").unwrap();
    assert_eq!(enc, Encoding::Struct("?".to_string(), Some(vec![])));
}

#[test]
fn qualifiers_are_stripped() {
    let enc = parse("rrrni").unwrap();
    assert_eq!(enc, Encoding::Prim(Primitive::Int));
}

#[test]
fn unknown_byte_at_atom_position() {
    let err = parse("x").unwrap_err();
    assert_eq!(err.kind(), ErrorKind::Unknown(120));
}

#[test]
fn nesting_deeper_than_the_cap_is_refused() {
    let mut s = String::new();
    for _ in 0..300 {
        s.push('^');
    }
    s.push('i');
    let err = parse(&s).unwrap_err();
    assert_eq!(err.kind(), ErrorKind::DepthLimit);
}

#[test]
fn nesting_below_the_cap_is_accepted() {
    let mut s = String::new();
    for _ in 0..200 {
        s.push('^');
    }
    s.push('i');
    assert!(parse(&s).is_ok());
}

#[test]
fn error_messages_quote_the_input() {
    let err = parse("jx").unwrap_err();
    assert_eq!(
        err.message(),
        "failed parsing encoding: unknown encoding character x after complex at byte-index 1 in \"jx\"",
    );
    let err = parse("{Foo").unwrap_err();
    assert_eq!(
        err.message(),
        "failed parsing encoding: expected struct to be closed at byte-index 4 in \"{Foo\"",
    );
    let err = parse("(Foo").unwrap_err();
    assert_eq!(
        err.message(),
        "failed parsing encoding: expected union to be closed at byte-index 4 in \"(Foo\"",
    );
    let err = parse("ii").unwrap_err();
    assert_eq!(err.kind(), ErrorKind::NotAllConsumed);
    assert_eq!(
        err.message(),
        "failed parsing encoding: remaining contents after parsing at byte-index 1 in \"ii\"",
    );
}

#[test]
fn error_data_holds_the_input() {
    let err = parse("[12").unwrap_err();
    assert_eq!(err.data(), "[12");
    assert_eq!(err.kind(), ErrorKind::UnexpectedEnd);
}

#[test]
fn names_are_checked_as_identifiers() {
    assert!(verify_name("?"));
    assert!(verify_name("CGPoint"));
    assert!(verify_name("_NSRange"));
    assert!(verify_name("a1"));
    assert!(!verify_name(""));
    assert!(!verify_name("a b"));
    assert!(!verify_name("a-b"));
    assert!(!verify_name("??"));
}

#[test]
fn bitfield_parses_width() {
    assert_eq!(parse("b32").unwrap(), Encoding::BitField(32, None));
    assert_eq!(parse("b0").unwrap(), Encoding::BitField(0, None));
    assert_eq!(parse("b255").unwrap(), Encoding::BitField(255, None));
}
