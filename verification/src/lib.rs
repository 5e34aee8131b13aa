//! Objective-C type encodings: a model of the compact string grammar the
//! Objective-C runtime uses to describe types, together with a formatter
//! that renders an encoding to its string form, a parser that reads the
//! string form back, and comparators that decide whether two encodings
//! describe the same runtime type.

pub mod compare;
pub mod declare;
pub mod dict;
pub mod encoding;
pub mod matching;
pub mod message;
pub mod nesting;
pub mod parse;
pub mod render;
pub mod roundtrip;
pub mod value;
