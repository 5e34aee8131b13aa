//! Tests of the collaborators around the encoding core: the typed value
//! box, the signature-verification façade, the class-building bookkeeping
//! and the keyed container.

use objc2_encode::declare::{ClassBuilderHelper, DeclareError, MethodDescription};
use objc2_encode::dict::{NSMutableDictionary, NSNumber, NSObject, NSString};
use objc2_encode::encoding::{Encoding, Primitive};
use objc2_encode::message::verify_signature;
use objc2_encode::value::NSValue;

fn sample_dict() -> NSMutableDictionary<NSNumber, NSObject> {
    NSMutableDictionary::from_id_slice(
        &vec![
            NSNumber::new_i32(1),
            NSNumber::new_i32(2),
            NSNumber::new_i32(3),
        ],
        vec![NSObject::new(), NSObject::new(), NSObject::new()],
    )
}

fn sample_dict_strings() -> NSMutableDictionary<NSNumber, NSString> {
    NSMutableDictionary::from_id_slice(
        &vec![
            NSNumber::new_i32(1),
            NSNumber::new_i32(2),
            NSNumber::new_i32(3),
        ],
        vec![
            NSString::from_str("a"),
            NSString::from_str("b"),
            NSString::from_str("c"),
        ],
    )
}

#[test]
fn basic() {
    let val = NSValue::new(13u32);
    assert_eq!(val.get::<u32>(), Some(13));
}

#[test]
fn test_equality() {
    let val1 = NSValue::new(123u32);
    let val2 = NSValue::new(123u32);
    assert_eq!(val1, val1);
    assert_eq!(val1, val2);

    let val3 = NSValue::new(456u32);
    assert_ne!(val1, val3);
}

#[test]
fn test_equality_across_types() {
    let val1 = NSValue::new(123i32);
    let val2 = NSValue::new(123u32);

    // the stored encoding is part of equality
    assert_ne!(val1, val2);
}

#[test]
fn value_encoding_is_checked_on_retrieval() {
    let val = NSValue::new(13u32);
    assert_eq!(val.encoding(), "I");
    assert!(val.contains_encoding::<u32>());
    assert!(!val.contains_encoding::<u8>());
    assert_eq!(val.get::<u8>(), None);
    assert_eq!(val.get::<i32>(), None);
    let val = NSValue::new(7u8);
    assert_eq!(val.encoding(), "C");
    assert_eq!(val.get::<u8>(), Some(7));
}

#[test]
fn test_verify_message() {
    // a class responding to `foo` (returns unsigned int) and `setFoo:`
    // (takes unsigned int, returns nothing)
    let foo_ret = "I";
    let foo_args: Vec<String> = vec![];
    let set_foo_ret = "v";
    let set_foo_args: Vec<String> = vec!["I".to_string()];

    assert!(
        verify_signature(&vec![], &Encoding::Prim(Primitive::UInt), &foo_args, foo_ret).is_ok()
    );
    assert!(verify_signature(
        &vec![Encoding::Prim(Primitive::UInt)],
        &Encoding::Prim(Primitive::Void),
        &set_foo_args,
        set_foo_ret,
    )
    .is_ok());

    // incorrect types
    assert!(verify_signature(
        &vec![],
        &Encoding::Prim(Primitive::ULongLong),
        &set_foo_args,
        set_foo_ret,
    )
    .is_err());
    // unimplemented selector: no method table entry to check against
    let table = ["foo", "setFoo:"];
    assert!(!table.contains(&"setFoo"));
}

#[test]
fn verify_signature_names_the_failing_slot() {
    let err = verify_signature(
        &vec![],
        &Encoding::Prim(Primitive::ULongLong),
        &vec![],
        "v",
    )
    .unwrap_err();
    assert_eq!(err.description(), "expected return to have type code Q but found v");

    let err = verify_signature(
        &vec![Encoding::Prim(Primitive::Int)],
        &Encoding::Prim(Primitive::Void),
        &vec![],
        "v",
    )
    .unwrap_err();
    assert_eq!(err.description(), "expected 1 arguments but found 0");

    let err = verify_signature(
        &vec![
            Encoding::Prim(Primitive::Int),
            Encoding::Prim(Primitive::Char),
        ],
        &Encoding::Prim(Primitive::Void),
        &vec!["i".to_string(), "I".to_string()],
        "v",
    )
    .unwrap_err();
    assert_eq!(err.description(), "expected argument 1 to have type code c but found I");
}

#[test]
fn verify_signature_strips_qualifiers() {
    assert!(verify_signature(
        &vec![Encoding::Prim(Primitive::Object)],
        &Encoding::Prim(Primitive::Void),
        &vec!["rn@".to_string()],
        "Vv",
    )
    .is_ok());
}

#[test]
fn dict_from_mutable() {
    let _: NSMutableDictionary<NSString, NSString> = NSMutableDictionary::from_id_slice(
        &vec![NSString::from_str("a")],
        vec![NSString::from_str("b")],
    );
}

#[test]
fn test_new() {
    let dict = NSMutableDictionary::<NSObject, NSObject>::new();
    assert!(dict.is_empty());
}

#[test]
fn test_get_mut() {
    let dict = sample_dict_strings();

    assert!(dict.get(&NSNumber::new_i32(1)).is_some());
    assert!(dict.get(&NSNumber::new_i32(2)).is_some());
    assert!(dict.get(&NSNumber::new_i32(4)).is_none());
}

#[test]
fn test_values_mut() {
    let dict = sample_dict();
    let vec = dict.to_array();
    assert_eq!(vec.len(), 3);
}

#[test]
fn test_insert() {
    let mut dict = NSMutableDictionary::<NSNumber, NSObject>::new();
    assert!(dict.insert_id(&NSNumber::new_i32(1), NSObject::new()).is_none());
    assert!(dict.insert_id(&NSNumber::new_i32(2), NSObject::new()).is_none());
    assert!(dict.insert_id(&NSNumber::new_i32(3), NSObject::new()).is_none());
    assert!(dict.insert_id(&NSNumber::new_i32(1), NSObject::new()).is_some());
    assert_eq!(dict.len(), 3);
}

#[test]
fn test_remove() {
    let mut dict = sample_dict();
    assert_eq!(dict.len(), 3);
    assert!(dict.remove(&NSNumber::new_i32(1)).is_some());
    assert!(dict.remove(&NSNumber::new_i32(2)).is_some());
    assert!(dict.remove(&NSNumber::new_i32(1)).is_none());
    assert!(dict.remove(&NSNumber::new_i32(4)).is_none());
    assert_eq!(dict.len(), 1);
}

#[test]
fn test_clear() {
    let mut dict = sample_dict();
    assert_eq!(dict.len(), 3);

    dict.removeAllObjects();
    assert!(dict.is_empty());
}

#[test]
fn test_to_array() {
    let dict = sample_dict();
    let array = dict.to_array();
    assert_eq!(array.len(), 3);
}

#[test]
fn insert_replaces_values() {
    let mut dict = NSMutableDictionary::<NSNumber, NSObject>::new();
    assert!(dict.insert_id(&NSNumber::new_i32(1), NSObject::with_id(10)).is_none());
    let old = dict.insert_id(&NSNumber::new_i32(1), NSObject::with_id(20));
    assert_eq!(old, Some(NSObject::with_id(10)));
    assert_eq!(dict.get(&NSNumber::new_i32(1)), Some(&NSObject::with_id(20)));
    assert_eq!(dict.len(), 1);
}

#[test]
fn class_builder_records_methods() {
    let builder = ClassBuilderHelper::new("MyObject");
    let mut proto = builder.add_protocol_methods(
        "MyProtocol",
        vec![MethodDescription { sel: "run".to_string(), types: "v@:".to_string() }],
        vec![MethodDescription { sel: "reset".to_string(), types: "v@:".to_string() }],
        vec![],
        vec![],
    );
    assert_eq!(proto.add_method("jump"), Err(DeclareError::MethodNotFound));
    assert_eq!(proto.add_method("run"), Ok(()));
    assert_eq!(proto.add_method("run"), Err(DeclareError::AlreadyAdded));
    assert_eq!(proto.add_method("reset"), Ok(()));
    let builder = proto.finish(&vec![], &vec![]).unwrap();
    let class = builder.register();
    assert_eq!(class.name(), "MyObject");
}

#[test]
fn class_builder_requires_protocol_methods() {
    let builder = ClassBuilderHelper::new("MyObject");
    let proto = builder.add_protocol_methods(
        "MyProtocol",
        vec![MethodDescription { sel: "run".to_string(), types: "v@:".to_string() }],
        vec![],
        vec![],
        vec![],
    );
    // `run` was never added and the superclass does not respond to it
    assert_eq!(
        proto.finish(&vec![], &vec![]).unwrap_err(),
        DeclareError::MissingRequiredMethod,
    );

    let builder = ClassBuilderHelper::new("MyObject");
    let proto = builder.add_protocol_methods(
        "MyProtocol",
        vec![MethodDescription { sel: "run".to_string(), types: "v@:".to_string() }],
        vec![],
        vec![],
        vec![],
    );
    // the superclass responds to `run`, so finishing is fine
    assert!(proto.finish(&vec!["run".to_string()], &vec![]).is_ok());
}

#[test]
fn ivars_are_recorded() {
    let mut builder = ClassBuilderHelper::new("MyObject");
    builder.add_static_ivar("flag");
    builder.add_static_ivar("count");
    let class = builder.register();
    assert_eq!(class.name(), "MyObject");
}
