//! The encoding model: a recursive tagged variant covering every primitive
//! and compound kind the Objective-C runtime emits, together with its
//! mathematical mirror and the rendering function that defines what each
//! encoding looks like as a string.

use vstd::prelude::*;

use crate::nesting::{ContainerKind, IndirectionKind, NestingLevel};

verus! {

/// The scalar kinds of the grammar. Each has a fixed one-byte code, except
/// for the complex kinds (two bytes, `j` followed by the element code) and
/// blocks (`@?`).
#[derive(Clone, Copy, Debug, PartialEq, Eq, Hash, Structural)]
pub enum Primitive {
    /// `c`: signed char.
    Char,
    /// `s`: signed short.
    Short,
    /// `i`: signed int.
    Int,
    /// `l`: signed long.
    Long,
    /// `q`: signed long long.
    LongLong,
    /// `C`: unsigned char.
    UChar,
    /// `S`: unsigned short.
    UShort,
    /// `I`: unsigned int.
    UInt,
    /// `L`: unsigned long.
    ULong,
    /// `Q`: unsigned long long.
    ULongLong,
    /// `f`: float.
    Float,
    /// `d`: double.
    Double,
    /// `D`: long double.
    LongDouble,
    /// `jf`: complex float.
    FloatComplex,
    /// `jd`: complex double.
    DoubleComplex,
    /// `jD`: complex long double.
    LongDoubleComplex,
    /// `B`: C++ / C99 bool.
    Bool,
    /// `v`: void.
    Void,
    /// `*`: C string (`char *`).
    CStr,
    /// `@`: an object of any class.
    Object,
    /// `@?`: a block object.
    Block,
    /// `#`: a class.
    Class,
    /// `:`: a method selector.
    Sel,
    /// `?`: an unknown or opaque type.
    Unknown,
}

/// An Objective-C type encoding.
///
/// Sub-encodings are heap-owned, so values of this type can both be built
/// up by hand for compile-time descriptors and be produced by the parser;
/// the two uses are observationally identical under the formatter and the
/// comparators.
#[derive(Debug, PartialEq, Eq, Hash)]
pub enum Encoding {
    /// A scalar kind.
    Prim(Primitive),
    /// `b<width>`: a bit-field of the given width in bits, optionally
    /// carrying the element kind some runtimes emit. The element kind is
    /// tolerated on input and ignored by rendering and comparison.
    BitField(u8, Option<Box<Encoding>>),
    /// `^<inner>`: a pointer to the inner encoding.
    Pointer(Box<Encoding>),
    /// `A<inner>`: an atomic wrapping the inner encoding.
    Atomic(Box<Encoding>),
    /// `[<length><element>]`: an array.
    Array(usize, Box<Encoding>),
    /// `{name=fields}` or `{name}`: a struct, expanded or opaque.
    Struct(String, Option<Vec<Encoding>>),
    /// `(name=fields)` or `(name)`: a union, expanded or opaque.
    Union(String, Option<Vec<Encoding>>),
}

/// The owned shape produced by the parser; the same type as [`Encoding`].
pub type EncodingBox = Encoding;

/// The mathematical mirror of [`Encoding`]: names are character sequences
/// and field lists are sequences. Contracts and proofs speak of this type.
pub enum Enc {
    /// A scalar kind.
    Prim(Primitive),
    /// A bit-field: width and optional element kind.
    BitField(u8, Option<Box<Enc>>),
    /// A pointer to an inner encoding.
    Pointer(Box<Enc>),
    /// An atomic wrapping an inner encoding.
    Atomic(Box<Enc>),
    /// An array of a length and an element encoding.
    Array(usize, Box<Enc>),
    /// A struct with a name and an optional field list.
    Struct(Seq<char>, Option<Seq<Enc>>),
    /// A union with a name and an optional field list.
    Union(Seq<char>, Option<Seq<Enc>>),
}

/// The mirror of an encoding value.
pub open spec fn enc_view(e: Encoding) -> Enc
    decreases e,
{
    match e {
        Encoding::Prim(p) => Enc::Prim(p),
        Encoding::BitField(w, elt) => Enc::BitField(
            w,
            match elt {
                Option::Some(b) => Option::Some(Box::new(enc_view(*b))),
                Option::None => Option::None,
            },
        ),
        Encoding::Pointer(t) => Enc::Pointer(Box::new(enc_view(*t))),
        Encoding::Atomic(t) => Enc::Atomic(Box::new(enc_view(*t))),
        Encoding::Array(n, t) => Enc::Array(n, Box::new(enc_view(*t))),
        Encoding::Struct(name, fields) => Enc::Struct(
            name@,
            match fields {
                Option::Some(v) => Option::Some(views_of(v@)),
                Option::None => Option::None,
            },
        ),
        Encoding::Union(name, fields) => Enc::Union(
            name@,
            match fields {
                Option::Some(v) => Option::Some(views_of(v@)),
                Option::None => Option::None,
            },
        ),
    }
}

/// The mirrors of a sequence of encoding values, in order.
pub open spec fn views_of(s: Seq<Encoding>) -> Seq<Enc>
    decreases s,
{
    if s.len() == 0 {
        Seq::<Enc>::empty()
    } else {
        seq![enc_view(s[0])] + views_of(s.drop_first())
    }
}

impl View for Encoding {
    type V = Enc;

    open spec fn view(&self) -> Enc {
        enc_view(*self)
    }
}

/// `views_of` maps the mirror over the sequence, element by element.
pub proof fn lemma_views_of(s: Seq<Encoding>)
    ensures
        views_of(s).len() == s.len(),
        forall|i: int| 0 <= i < s.len() ==> views_of(s)[i] == enc_view(#[trigger] s[i]),
    decreases s,
{
    if s.len() > 0 {
        lemma_views_of(s.drop_first());
        assert forall|i: int| 0 <= i < s.len() implies views_of(s)[i] == enc_view(
            #[trigger] s[i],
        ) by {
            if i > 0 {
                assert(s.drop_first()[i - 1] == s[i]);
                assert(views_of(s)[i] == views_of(s.drop_first())[i - 1]);
            }
        }
    }
}

/// Appending one encoding appends its mirror.
pub proof fn lemma_views_of_push(s: Seq<Encoding>, e: Encoding)
    ensures
        views_of(s.push(e)) == views_of(s) + seq![enc_view(e)],
    decreases s,
{
    if s.len() == 0 {
        assert(s.push(e).drop_first() =~= Seq::<Encoding>::empty());
        assert(s.push(e)[0] == e);
        assert(views_of(s.push(e)) == seq![enc_view(e)] + views_of(Seq::<Encoding>::empty()));
        assert(seq![enc_view(e)] + Seq::<Enc>::empty() =~= Seq::<Enc>::empty() + seq![
            enc_view(e),
        ]);
    } else {
        assert(s.push(e).drop_first() =~= s.drop_first().push(e));
        assert(s.push(e)[0] == s[0]);
        lemma_views_of_push(s.drop_first(), e);
        assert(views_of(s.push(e)) == seq![enc_view(s[0])] + (views_of(s.drop_first()) + seq![
            enc_view(e),
        ]));
        assert(seq![enc_view(s[0])] + (views_of(s.drop_first()) + seq![enc_view(e)]) =~= (seq![
            enc_view(s[0]),
        ] + views_of(s.drop_first())) + seq![enc_view(e)]);
    }
}

/// Relies on `String::push`: appends exactly the given character.
#[verifier::external_body]
pub(crate) fn push_char(s: &mut String, c: char)
    ensures
        final(s)@ == old(s)@.push(c),
{
    s.push(c);
}

/// The characters a byte sequence spells, one character per byte.
pub open spec fn chars_of(bs: Seq<u8>) -> Seq<char> {
    bs.map_values(|b: u8| b as char)
}

/// The bytes a character sequence spells, one byte per character; faithful
/// whenever every character is ASCII.
pub open spec fn bytes_of_chars(cs: Seq<char>) -> Seq<u8> {
    cs.map_values(|c: char| c as u8)
}

/// The decimal digit character for a value below ten.
pub open spec fn digit_char(d: nat) -> char {
    ((48 + d) as u8) as char
}

/// The decimal rendering of a number, most significant digit first, with
/// no sign and no leading zeros (a lone zero for zero).
pub open spec fn dec_digits(n: nat) -> Seq<char>
    decreases n,
{
    if n < 10 {
        seq![digit_char(n)]
    } else {
        dec_digits(n / 10).push(digit_char(n % 10))
    }
}

/// The code characters of a primitive.
pub open spec fn prim_chars(p: Primitive) -> Seq<char> {
    match p {
        Primitive::Char => seq!['c'],
        Primitive::Short => seq!['s'],
        Primitive::Int => seq!['i'],
        Primitive::Long => seq!['l'],
        Primitive::LongLong => seq!['q'],
        Primitive::UChar => seq!['C'],
        Primitive::UShort => seq!['S'],
        Primitive::UInt => seq!['I'],
        Primitive::ULong => seq!['L'],
        Primitive::ULongLong => seq!['Q'],
        Primitive::Float => seq!['f'],
        Primitive::Double => seq!['d'],
        Primitive::LongDouble => seq!['D'],
        Primitive::FloatComplex => seq!['j', 'f'],
        Primitive::DoubleComplex => seq!['j', 'd'],
        Primitive::LongDoubleComplex => seq!['j', 'D'],
        Primitive::Bool => seq!['B'],
        Primitive::Void => seq!['v'],
        Primitive::CStr => seq!['*'],
        Primitive::Object => seq!['@'],
        Primitive::Block => seq!['@', '?'],
        Primitive::Class => seq!['#'],
        Primitive::Sel => seq![':'],
        Primitive::Unknown => seq!['?'],
    }
}

impl Primitive {
    /// The code of this primitive as a string.
    pub fn to_str(self) -> (r: &'static str)
        ensures
            r@ == prim_chars(self),
    {
        match self {
            Primitive::Char => {
                proof {
                    reveal_strlit("c");
                    assert("c"@ =~= prim_chars(self));
                }
                "c"
            },
            Primitive::Short => {
                proof {
                    reveal_strlit("s");
                    assert("s"@ =~= prim_chars(self));
                }
                "s"
            },
            Primitive::Int => {
                proof {
                    reveal_strlit("i");
                    assert("i"@ =~= prim_chars(self));
                }
                "i"
            },
            Primitive::Long => {
                proof {
                    reveal_strlit("l");
                    assert("l"@ =~= prim_chars(self));
                }
                "l"
            },
            Primitive::LongLong => {
                proof {
                    reveal_strlit("q");
                    assert("q"@ =~= prim_chars(self));
                }
                "q"
            },
            Primitive::UChar => {
                proof {
                    reveal_strlit("C");
                    assert("C"@ =~= prim_chars(self));
                }
                "C"
            },
            Primitive::UShort => {
                proof {
                    reveal_strlit("S");
                    assert("S"@ =~= prim_chars(self));
                }
                "S"
            },
            Primitive::UInt => {
                proof {
                    reveal_strlit("I");
                    assert("I"@ =~= prim_chars(self));
                }
                "I"
            },
            Primitive::ULong => {
                proof {
                    reveal_strlit("L");
                    assert("L"@ =~= prim_chars(self));
                }
                "L"
            },
            Primitive::ULongLong => {
                proof {
                    reveal_strlit("Q");
                    assert("Q"@ =~= prim_chars(self));
                }
                "Q"
            },
            Primitive::Float => {
                proof {
                    reveal_strlit("f");
                    assert("f"@ =~= prim_chars(self));
                }
                "f"
            },
            Primitive::Double => {
                proof {
                    reveal_strlit("d");
                    assert("d"@ =~= prim_chars(self));
                }
                "d"
            },
            Primitive::LongDouble => {
                proof {
                    reveal_strlit("D");
                    assert("D"@ =~= prim_chars(self));
                }
                "D"
            },
            Primitive::FloatComplex => {
                proof {
                    reveal_strlit("jf");
                    assert("jf"@ =~= prim_chars(self));
                }
                "jf"
            },
            Primitive::DoubleComplex => {
                proof {
                    reveal_strlit("jd");
                    assert("jd"@ =~= prim_chars(self));
                }
                "jd"
            },
            Primitive::LongDoubleComplex => {
                proof {
                    reveal_strlit("jD");
                    assert("jD"@ =~= prim_chars(self));
                }
                "jD"
            },
            Primitive::Bool => {
                proof {
                    reveal_strlit("B");
                    assert("B"@ =~= prim_chars(self));
                }
                "B"
            },
            Primitive::Void => {
                proof {
                    reveal_strlit("v");
                    assert("v"@ =~= prim_chars(self));
                }
                "v"
            },
            Primitive::CStr => {
                proof {
                    reveal_strlit("*");
                    assert("*"@ =~= prim_chars(self));
                }
                "*"
            },
            Primitive::Object => {
                proof {
                    reveal_strlit("@");
                    assert("@"@ =~= prim_chars(self));
                }
                "@"
            },
            Primitive::Block => {
                proof {
                    reveal_strlit("@?");
                    assert("@?"@ =~= prim_chars(self));
                }
                "@?"
            },
            Primitive::Class => {
                proof {
                    reveal_strlit("#");
                    assert("#"@ =~= prim_chars(self));
                }
                "#"
            },
            Primitive::Sel => {
                proof {
                    reveal_strlit(":");
                    assert(":"@ =~= prim_chars(self));
                }
                ":"
            },
            Primitive::Unknown => {
                proof {
                    reveal_strlit("?");
                    assert("?"@ =~= prim_chars(self));
                }
                "?"
            },
        }
    }
}

/// What an encoding looks like when rendered at a given nesting level.
/// This single function defines the output of the formatter, and thereby
/// the meaning of both comparators.
pub open spec fn render(e: Enc, lv: NestingLevel) -> Seq<char>
    decreases e,
{
    match e {
        Enc::Prim(p) => prim_chars(p),
        Enc::BitField(w, _elt) => seq!['b'] + dec_digits(w as nat),
        Enc::Pointer(t) => seq!['^'] + render(
            *t,
            lv.spec_indirection(IndirectionKind::Pointer),
        ),
        Enc::Atomic(t) => seq!['A'] + render(*t, lv.spec_indirection(IndirectionKind::Atomic)),
        Enc::Array(n, t) => seq!['['] + dec_digits(n as nat) + render(*t, lv.spec_array())
            + seq![']'],
        Enc::Struct(name, fields) => seq!['{'] + name + render_body(fields, lv) + seq!['}'],
        Enc::Union(name, fields) => seq!['('] + name + render_body(fields, lv) + seq![')'],
    }
}

/// The part of a container's rendering that follows its name: nothing when
/// the container is opaque or sits at an opaque level, otherwise `=` and
/// the fields, each rendered at the bottom level.
pub open spec fn render_body(fields: Option<Seq<Enc>>, lv: NestingLevel) -> Seq<char>
    decreases fields,
{
    match fields {
        Option::Some(fs) => if lv.spec_include_fields() {
            seq!['='] + render_fields(fs, lv.spec_field_level())
        } else {
            Seq::<char>::empty()
        },
        Option::None => Seq::<char>::empty(),
    }
}

/// The concatenated renderings of a list of fields.
pub open spec fn render_fields(fs: Seq<Enc>, lv: NestingLevel) -> Seq<char>
    decreases fs,
{
    if fs.len() == 0 {
        Seq::<char>::empty()
    } else {
        render(fs[0], lv) + render_fields(fs.drop_first(), lv)
    }
}

} // verus!
