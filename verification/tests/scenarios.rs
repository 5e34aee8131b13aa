//! End-to-end scenarios: concrete inputs through the parser, the
//! formatter and both comparators.

use objc2_encode::encoding::{Encoding, Primitive};
use objc2_encode::nesting::NestingLevel;
use objc2_encode::parse::parse;
use objc2_encode::parse::ErrorKind;
use objc2_encode::parse::Parser;
use objc2_encode::render::format_encoding;

fn prim(p: Primitive) -> Encoding {
    Encoding::Prim(p)
}

#[test]
fn cgpoint_roundtrip() {
    let e = parse("{CGPoint=ff}").unwrap();
    assert_eq!(
        e,
        Encoding::Struct(
            "CGPoint".to_string(),
            Some(vec![prim(Primitive::Float), prim(Primitive::Float)]),
        ),
    );
    assert_eq!(format_encoding(&e), "{CGPoint=ff}");
    let expected = Encoding::Struct(
        "CGPoint".to_string(),
        Some(vec![prim(Primitive::Float), prim(Primitive::Float)]),
    );
    assert!(expected.equivalent_to(&e));
}

#[test]
fn nsrange_matches_expanded_and_opaque() {
    let e = parse("{_NSRange=QQ}").unwrap();
    assert_eq!(
        e,
        Encoding::Struct(
            "_NSRange".to_string(),
            Some(vec![prim(Primitive::ULongLong), prim(Primitive::ULongLong)]),
        ),
    );
    let expected = Encoding::Struct(
        "_NSRange".to_string(),
        Some(vec![prim(Primitive::ULongLong), prim(Primitive::ULongLong)]),
    );
    // at the top level the expanded form matches
    assert!(expected.equivalent_to_str("{_NSRange=QQ}"));
    // one level deeper both the expanded and the opaque form match
    let mut p = Parser::new("{_NSRange=QQ}");
    assert!(p.expect_encoding(&expected, NestingLevel::Within).is_some());
    assert!(p.is_empty());
    let mut p = Parser::new("{_NSRange}");
    assert!(p.expect_encoding(&expected, NestingLevel::Within).is_some());
    assert!(p.is_empty());
    // but the opaque form does not match at the top level
    assert!(!expected.equivalent_to_str("{_NSRange}"));
}

#[test]
fn pointer_to_struct_roundtrip() {
    let e = parse("^{Foo=ii}").unwrap();
    assert_eq!(
        e,
        Encoding::Pointer(Box::new(Encoding::Struct(
            "Foo".to_string(),
            Some(vec![prim(Primitive::Int), prim(Primitive::Int)]),
        ))),
    );
    assert_eq!(format_encoding(&e), "^{Foo=ii}");
}

#[test]
fn array_of_pointers_roundtrip() {
    let e = parse("[8^i]").unwrap();
    assert_eq!(
        e,
        Encoding::Array(8, Box::new(Encoding::Pointer(Box::new(prim(Primitive::Int))))),
    );
    let s = format_encoding(&e);
    assert_eq!(s, "[8^i]");
    assert_eq!(parse(&s).unwrap(), e);
}

#[test]
fn qualified_object_is_object() {
    let e = parse("rn@").unwrap();
    assert_eq!(e, prim(Primitive::Object));
    assert!(prim(Primitive::Object).equivalent_to(&e));
    assert!(prim(Primitive::Object).equivalent_to_str("rn@"));
}

#[test]
fn block_is_not_object() {
    let e = parse("@?").unwrap();
    assert_eq!(e, prim(Primitive::Block));
    assert!(!prim(Primitive::Block).equivalent_to(&prim(Primitive::Object)));
    assert!(!prim(Primitive::Object).equivalent_to(&prim(Primitive::Block)));
}

#[test]
fn every_primitive_roundtrips() {
    let codes = [
        "c", "s", "i", "l", "q", "C", "S", "I", "L", "Q", "f", "d", "D", "jf", "jd", "jD", "B",
        "v", "*", "@", "@?", "#", ":", "?",
    ];
    for code in codes {
        let e = parse(code).unwrap();
        assert_eq!(format_encoding(&e), code);
    }
}

#[test]
fn deep_fields_reparse_equivalently() {
    // fields deeper than the top level render opaque, and the reparse is
    // equivalent, not equal
    let e = parse("{A={B=i}}").unwrap();
    let s = format_encoding(&e);
    assert_eq!(s, "{A={B}}");
    let e2 = parse(&s).unwrap();
    assert!(e2.equivalent_to(&e));
    assert!(e.equivalent_to(&e2));
    assert_ne!(e, e2);
}

#[test]
fn first_pointer_keeps_expansion() {
    let e = parse("^{Foo=ii}").unwrap();
    assert_eq!(format_encoding(&e), "^{Foo=ii}");
    let e = parse("^^{Foo=ii}").unwrap();
    assert_eq!(format_encoding(&e), "^^{Foo}");
    let e = parse("A{Foo=ii}").unwrap();
    assert_eq!(format_encoding(&e), "A{Foo}");
}

#[test]
fn arrays_keep_their_level() {
    let e = parse("[2{Foo=ii}]").unwrap();
    assert_eq!(format_encoding(&e), "[2{Foo=ii}]");
}

#[test]
fn trailing_input_is_not_accepted() {
    let e = parse("{CGPoint=ff}").unwrap();
    let mut s = format_encoding(&e);
    s.push('x');
    let err = parse(&s).unwrap_err();
    assert_eq!(err.kind(), ErrorKind::NotAllConsumed);
    assert_eq!(err.split_point(), 12);
}

#[test]
fn equivalence_is_reflexive_and_symmetric() {
    let samples = [
        "{CGPoint=ff}",
        "^{Foo=ii}",
        "[8^i]",
        "@?",
        "b31",
        "(U=ic)",
        "A^i",
        "{?=}",
    ];
    for a in samples {
        let ea = parse(a).unwrap();
        assert!(ea.equivalent_to(&ea));
        for b in samples {
            let eb = parse(b).unwrap();
            assert_eq!(ea.equivalent_to(&eb), eb.equivalent_to(&ea));
        }
    }
}

#[test]
fn anonymous_names_match_only_below_top() {
    let anon = Encoding::Struct("?".to_string(), Some(vec![prim(Primitive::Int)]));
    let named = Encoding::Struct("Foo".to_string(), Some(vec![prim(Primitive::Int)]));
    assert!(!anon.equivalent_to(&named));
    let deep_anon = Encoding::Pointer(Box::new(Encoding::Pointer(Box::new(anon))));
    let deep_named = Encoding::Pointer(Box::new(Encoding::Pointer(Box::new(named))));
    assert!(deep_anon.equivalent_to(&deep_named));
}

#[test]
fn bitfield_element_kind_is_tolerated() {
    let plain = Encoding::BitField(7, None);
    let carrying = Encoding::BitField(7, Some(Box::new(prim(Primitive::Int))));
    assert!(plain.equivalent_to(&carrying));
    assert!(carrying.equivalent_to(&plain));
    assert!(carrying.equivalent_to_str("b7"));
    assert_eq!(format_encoding(&carrying), "b7");
    assert!(!plain.equivalent_to(&Encoding::BitField(8, None)));
}

#[test]
fn match_string_tolerates_leading_zeros_in_widths() {
    let e = Encoding::BitField(7, None);
    assert!(e.equivalent_to_str("b07"));
    let a = Encoding::Array(8, Box::new(prim(Primitive::Int)));
    assert!(a.equivalent_to_str("[08i]"));
}

#[test]
fn match_string_requires_full_consumption() {
    let e = prim(Primitive::Int);
    assert!(e.equivalent_to_str("i"));
    assert!(!e.equivalent_to_str("ii"));
    assert!(!e.equivalent_to_str(""));
}

#[test]
fn ambiguous_fields_reparse_without_error() {
    // an object field directly before an unknown field renders "@?",
    // which reads back as a single block field: no error, but a
    // different grouping
    let e = Encoding::Struct(
        "A".to_string(),
        Some(vec![prim(Primitive::Object), prim(Primitive::Unknown)]),
    );
    let s = format_encoding(&e);
    assert_eq!(s, "{A=@?}");
    let e2 = parse(&s).unwrap();
    assert_eq!(
        e2,
        Encoding::Struct("A".to_string(), Some(vec![prim(Primitive::Block)])),
    );
    assert!(!e2.equivalent_to(&e));
}

#[test]
fn test_static_struct() {
    let s = Encoding::Struct(
        "CGPoint".to_string(),
        Some(vec![prim(Primitive::Char), prim(Primitive::Int)]),
    );
    let name = match &s {
        Encoding::Struct(name, _fields) => name.as_str(),
        _ => unreachable!(),
    };
    assert_eq!(name, "CGPoint");
    assert_eq!(format_encoding(&s), "{CGPoint=ci}");
}

#[test]
fn test_eq_encoding() {
    let i = prim(Primitive::Int);

    let s = Encoding::Struct(
        "CGPoint".to_string(),
        Some(vec![prim(Primitive::Char), prim(Primitive::Int)]),
    );
    assert!(s.equivalent_to(&s));
    assert!(!s.equivalent_to(&i));

    let s2 = parse("{CGPoint=ci}").unwrap();
    assert!(s2.equivalent_to(&s2));
    assert!(s.equivalent_to(&s2));
}

#[test]
fn formatting_is_exact_on_every_compound() {
    let e = Encoding::Struct(
        "Outer".to_string(),
        Some(vec![
            Encoding::Array(3, Box::new(prim(Primitive::UChar))),
            Encoding::BitField(5, None),
            Encoding::Pointer(Box::new(Encoding::Union(
                "U".to_string(),
                Some(vec![prim(Primitive::Int), prim(Primitive::Char)]),
            ))),
        ]),
    );
    assert_eq!(format_encoding(&e), "{Outer=[3C]b5^(U)}");
    let opaque = Encoding::Union("U".to_string(), None);
    assert_eq!(format_encoding(&opaque), "(U)");
    let empty = Encoding::Struct("E".to_string(), Some(vec![]));
    assert_eq!(format_encoding(&empty), "{E=}");
}
