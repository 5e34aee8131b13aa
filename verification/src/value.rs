//! The typed value box: a container holding the bytes of a value together
//! with the encoding string of its type. Callers can only get a value back
//! under a type whose encoding describes the same runtime type, checked
//! with the string comparator.

use vstd::prelude::*;
use vstd::string::StringSliceAdditionalSpecFns;
use vstd::utf8::encode_utf8;

use crate::encoding::{render, Enc, Encoding};
use crate::matching::s_equivalent_to_str;
use crate::nesting::NestingLevel;
use crate::render::format_encoding;

verus! {

/// Types with a known Objective-C type encoding and a fixed byte
/// representation.
pub trait Encode: Sized {
    /// The encoding of this type.
    spec fn spec_encoding() -> Enc;

    /// How many bytes represent a value of this type.
    spec fn spec_size() -> nat;

    /// The byte representation of this value.
    spec fn spec_bytes_of(&self) -> Seq<u8>;

    /// The encoding of this type.
    fn encoding() -> (e: Encoding)
        ensures
            e@ == Self::spec_encoding(),
    ;

    /// The bytes of this value, least significant first.
    fn to_bytes(&self) -> (b: Vec<u8>)
        ensures
            b@ == self.spec_bytes_of(),
            b@.len() == Self::spec_size(),
    ;

    /// The value spelled by the given bytes: some value with exactly those
    /// bytes whenever the byte count is this type's, nothing otherwise.
    fn from_bytes(b: &Vec<u8>) -> (r: Option<Self>)
        ensures
            r is Some <==> b@.len() == Self::spec_size(),
            match r {
                Option::Some(v) => v.spec_bytes_of() == b@,
                Option::None => true,
            },
    ;
}

impl Encode for u32 {
    open spec fn spec_encoding() -> Enc {
        Enc::Prim(crate::encoding::Primitive::UInt)
    }

    open spec fn spec_size() -> nat {
        4
    }

    open spec fn spec_bytes_of(&self) -> Seq<u8> {
        seq![
            (*self & 0xff) as u8,
            ((*self >> 8) & 0xff) as u8,
            ((*self >> 16) & 0xff) as u8,
            ((*self >> 24) & 0xff) as u8,
        ]
    }

    fn encoding() -> (e: Encoding)
        ensures
            e@ == Self::spec_encoding(),
    {
        Encoding::Prim(crate::encoding::Primitive::UInt)
    }

    fn to_bytes(&self) -> (b: Vec<u8>)
        ensures
            b@ == self.spec_bytes_of(),
            b@.len() == Self::spec_size(),
    {
        let mut b: Vec<u8> = Vec::new();
        b.push((*self & 0xff) as u8);
        b.push(((*self >> 8) & 0xff) as u8);
        b.push(((*self >> 16) & 0xff) as u8);
        b.push(((*self >> 24) & 0xff) as u8);
        proof {
            assert(b@ =~= self.spec_bytes_of());
        }
        b
    }

    fn from_bytes(b: &Vec<u8>) -> (r: Option<u32>)
        ensures
            r is Some <==> b@.len() == Self::spec_size(),
            match r {
                Option::Some(v) => v.spec_bytes_of() == b@,
                Option::None => true,
            },
    {
        if b.len() != 4 {
            return Option::None;
        }
        let v: u32 = (b[0] as u32) | ((b[1] as u32) << 8) | ((b[2] as u32) << 16) | ((b[3] as u32)
            << 24);
        proof {
            let b0 = b@[0];
            let b1 = b@[1];
            let b2 = b@[2];
            let b3 = b@[3];
            assert((v & 0xff) as u8 == b0 && ((v >> 8) & 0xff) as u8 == b1 && ((v >> 16) & 0xff)
                as u8 == b2 && ((v >> 24) & 0xff) as u8 == b3) by (bit_vector)
                requires
                    v == (b0 as u32) | ((b1 as u32) << 8) | ((b2 as u32) << 16) | ((b3 as u32)
                        << 24),
            ;
            assert(v.spec_bytes_of() =~= b@);
        }
        Option::Some(v)
    }
}

impl Encode for i32 {
    open spec fn spec_encoding() -> Enc {
        Enc::Prim(crate::encoding::Primitive::Int)
    }

    open spec fn spec_size() -> nat {
        4
    }

    open spec fn spec_bytes_of(&self) -> Seq<u8> {
        (*self as u32).spec_bytes_of()
    }

    fn encoding() -> (e: Encoding)
        ensures
            e@ == Self::spec_encoding(),
    {
        Encoding::Prim(crate::encoding::Primitive::Int)
    }

    fn to_bytes(&self) -> (b: Vec<u8>)
        ensures
            b@ == self.spec_bytes_of(),
            b@.len() == Self::spec_size(),
    {
        let u: u32 = *self as u32;
        u.to_bytes()
    }

    fn from_bytes(b: &Vec<u8>) -> (r: Option<i32>)
        ensures
            r is Some <==> b@.len() == Self::spec_size(),
            match r {
                Option::Some(v) => v.spec_bytes_of() == b@,
                Option::None => true,
            },
    {
        match u32::from_bytes(b) {
            Option::Some(u) => {
                let v: i32 = u as i32;
                proof {
                    assert(v as u32 == u) by (bit_vector)
                        requires
                            v == u as i32,
                    ;
                }
                Option::Some(v)
            },
            Option::None => Option::None,
        }
    }
}

impl Encode for u8 {
    open spec fn spec_encoding() -> Enc {
        Enc::Prim(crate::encoding::Primitive::UChar)
    }

    open spec fn spec_size() -> nat {
        1
    }

    open spec fn spec_bytes_of(&self) -> Seq<u8> {
        seq![*self]
    }

    fn encoding() -> (e: Encoding)
        ensures
            e@ == Self::spec_encoding(),
    {
        Encoding::Prim(crate::encoding::Primitive::UChar)
    }

    fn to_bytes(&self) -> (b: Vec<u8>)
        ensures
            b@ == self.spec_bytes_of(),
            b@.len() == Self::spec_size(),
    {
        let mut b: Vec<u8> = Vec::new();
        b.push(*self);
        proof {
            assert(b@ =~= self.spec_bytes_of());
        }
        b
    }

    fn from_bytes(b: &Vec<u8>) -> (r: Option<u8>)
        ensures
            r is Some <==> b@.len() == Self::spec_size(),
            match r {
                Option::Some(v) => v.spec_bytes_of() == b@,
                Option::None => true,
            },
    {
        if b.len() != 1 {
            return Option::None;
        }
        let v = b[0];
        proof {
            assert(v.spec_bytes_of() =~= b@);
        }
        Option::Some(v)
    }
}

/// A value box: the bytes of a value, together with the encoding string of
/// the type it was stored under.
#[derive(Debug, Hash)]
pub struct NSValue {
    encoding: String,
    bytes: Vec<u8>,
}

impl NSValue {
    /// The stored encoding string.
    pub closed spec fn spec_encoding_str(&self) -> Seq<char> {
        self.encoding@
    }

    /// The stored bytes.
    pub closed spec fn spec_bytes(&self) -> Seq<u8> {
        self.bytes@
    }

    /// Box a value: its bytes are stored under the rendering of its
    /// type's encoding.
    pub fn new<T: Encode>(value: T) -> (v: NSValue)
        ensures
            v.spec_encoding_str() == render(T::spec_encoding(), NestingLevel::Top),
            v.spec_bytes() == value.spec_bytes_of(),
            v.spec_bytes().len() == T::spec_size(),
    {
        let e = T::encoding();
        NSValue { encoding: format_encoding(&e), bytes: value.to_bytes() }
    }

    /// The stored encoding string.
    pub fn encoding(&self) -> (s: &str)
        ensures
            s@ == self.spec_encoding_str(),
    {
        self.encoding.as_str()
    }

    /// Whether the stored encoding string describes the same runtime type
    /// as the encoding of `T`.
    pub fn contains_encoding<T: Encode>(&self) -> (r: bool)
        ensures
            r == s_equivalent_to_str(T::spec_encoding(), encode_utf8(self.spec_encoding_str())),
    {
        let e = T::encoding();
        e.equivalent_to_str(self.encoding.as_str())
    }

    /// Retrieve the boxed value under type `T`: exactly when the stored
    /// encoding string describes `T` and the stored bytes are a `T`'s, the
    /// value with those bytes comes back.
    pub fn get<T: Encode>(&self) -> (r: Option<T>)
        ensures
            r is Some <==> (s_equivalent_to_str(
                T::spec_encoding(),
                encode_utf8(self.spec_encoding_str()),
            ) && self.spec_bytes().len() == T::spec_size()),
            match r {
                Option::Some(v) => v.spec_bytes_of() == self.spec_bytes(),
                Option::None => true,
            },
    {
        if self.contains_encoding::<T>() {
            T::from_bytes(&self.bytes)
        } else {
            Option::None
        }
    }
}

impl PartialEq for NSValue {
    /// Two boxes are equal when they hold the same bytes under the same
    /// encoding string.
    fn eq(&self, other: &NSValue) -> (r: bool) {
        self.encoding.eq(&other.encoding) && bytes_eq(&self.bytes, &other.bytes)
    }
}

impl vstd::std_specs::cmp::PartialEqSpecImpl for NSValue {
    open spec fn obeys_eq_spec() -> bool {
        true
    }

    open spec fn eq_spec(&self, other: &NSValue) -> bool {
        self.spec_encoding_str() == other.spec_encoding_str() && self.spec_bytes()
            == other.spec_bytes()
    }
}

/// Whether two byte vectors hold the same bytes.
fn bytes_eq(a: &Vec<u8>, b: &Vec<u8>) -> (r: bool)
    ensures
        r == (a@ == b@),
{
    if a.len() != b.len() {
        proof {
            assert(a@ != b@);
        }
        return false;
    }
    let n = a.len();
    let mut i: usize = 0;
    while i < n
        invariant
            0 <= i <= n,
            n == a@.len() == b@.len(),
            forall|m: int| 0 <= m < i ==> a@[m] == b@[m],
        decreases n - i,
    {
        if a[i] != b[i] {
            return false;
        }
        i = i + 1;
    }
    proof {
        assert(a@ =~= b@);
    }
    true
}

} // verus!
