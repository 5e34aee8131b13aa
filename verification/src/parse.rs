//! Parsing encodings from their string representation.
//!
//! The grammar is consumed byte by byte by a recursive-descent reader. The
//! spec functions in this module (`s_parse_enc` and its companions) define
//! the parser mathematically over the input bytes; the executable
//! [`Parser`] follows them exactly, and its contracts say so.

use vstd::prelude::*;
use vstd::string::StringExecFns;
use vstd::string::StringSliceAdditionalSpecFns;

use crate::encoding::{
    chars_of, dec_digits, lemma_views_of_push, push_char, views_of, Enc, Encoding, EncodingBox,
    Primitive,
};
use crate::nesting::ContainerKind;

verus! {

broadcast use vstd::slice::group_slice_axioms;

/// The deepest nesting of compound encodings the parser accepts. Inputs
/// nested deeper fail with [`ErrorKind::DepthLimit`] instead of exhausting
/// the call stack.
pub const MAX_NESTING_DEPTH: usize = 256;

/// The terminal states in which parsing can fail.
#[derive(Clone, Copy, Debug, PartialEq, Eq, Hash, Structural)]
pub enum ErrorKind {
    /// Input exhausted in the middle of a production.
    UnexpectedEnd,
    /// A byte at an atom position that matches no rule of the grammar.
    Unknown(u8),
    /// A byte after `j` that is not `f`, `d` or `D`.
    UnknownAfterComplex(u8),
    /// A non-digit where a digit was required.
    ExpectedInteger,
    /// Digits parsed, but the value exceeds the target integer type.
    IntegerTooLarge,
    /// An array body parsed, but the next byte is not `]`.
    WrongEndArray,
    /// A container body reached the end of input without its closing byte.
    WrongEndContainer(ContainerKind),
    /// A container name that violates the identifier rule.
    InvalidIdentifier(ContainerKind),
    /// A complete encoding parsed, but input bytes remain.
    NotAllConsumed,
    /// Compound encodings nested deeper than [`MAX_NESTING_DEPTH`].
    DepthLimit,
}

/// Whether a byte is an ASCII decimal digit.
pub open spec fn is_digit_byte(b: u8) -> bool {
    48 <= b <= 57
}

/// Whether a byte may appear in a container name: ASCII alphanumeric or
/// underscore.
pub open spec fn is_ident_byte(b: u8) -> bool {
    (48 <= b <= 57) || (65 <= b <= 90) || (97 <= b <= 122) || b == 95
}

/// Whether a byte is one of the seven method qualifiers (`r`, `n`, `N`,
/// `o`, `O`, `R`, `V`), which prefix an encoding and carry no type
/// information.
pub open spec fn is_qualifier_byte(b: u8) -> bool {
    b == 114 || b == 110 || b == 78 || b == 111 || b == 79 || b == 82 || b == 86
}

/// Whether a byte sequence is a valid container name: the single byte `?`
/// (an anonymous container), or a nonempty run of identifier bytes.
pub open spec fn s_valid_name(name: Seq<u8>) -> bool {
    (name.len() == 1 && name[0] == 63) || (name.len() > 0 && forall|k: int|
        0 <= k < name.len() ==> is_ident_byte(#[trigger] name[k]))
}

/// The first position at or after `i` whose byte fails `p`, or the end of
/// the input if every remaining byte satisfies `p`.
pub open spec fn scan_end(s: Seq<u8>, i: nat, p: spec_fn(u8) -> bool) -> nat
    decreases s.len() - i,
{
    if i < s.len() && p(s[i as int]) {
        scan_end(s, (i + 1) as nat, p)
    } else {
        i
    }
}

/// What `scan_end` returns: the end of the run of bytes satisfying `p`.
pub proof fn lemma_scan_end(s: Seq<u8>, i: nat, p: spec_fn(u8) -> bool)
    requires
        i <= s.len(),
    ensures
        i <= scan_end(s, i, p) <= s.len(),
        forall|k: int| i <= k < scan_end(s, i, p) ==> p(#[trigger] s[k]),
        scan_end(s, i, p) < s.len() ==> !p(s[scan_end(s, i, p) as int]),
    decreases s.len() - i,
{
    if i < s.len() && p(s[i as int]) {
        lemma_scan_end(s, (i + 1) as nat, p);
    }
}

/// The value of the decimal digits `s[i..j)`, read most significant first.
pub open spec fn dec_value(s: Seq<u8>, i: nat, j: nat) -> int
    decreases j,
{
    if j <= i {
        0
    } else {
        10 * dec_value(s, i, (j - 1) as nat) + (s[j - 1] - 48)
    }
}

/// Over a run of digits the value is nonnegative and grows with the length
/// of the run.
pub proof fn lemma_dec_value_mono(s: Seq<u8>, i: nat, j1: nat, j2: nat)
    requires
        i <= j1 <= j2 <= s.len(),
        forall|k: int| i <= k < j2 ==> is_digit_byte(#[trigger] s[k]),
    ensures
        0 <= dec_value(s, i, j1) <= dec_value(s, i, j2),
    decreases j2,
{
    if j2 > j1 {
        lemma_dec_value_mono(s, i, j1, (j2 - 1) as nat);
    } else if j1 > i {
        lemma_dec_value_mono(s, i, i, (j1 - 1) as nat);
    }
}

/// Reading a decimal integer at position `i`: the digit run must be
/// nonempty and its value must not exceed `max`.
pub open spec fn s_parse_int(s: Seq<u8>, i: nat, max: int) -> Result<(int, nat), (ErrorKind, nat)> {
    let de = scan_end(s, i, |b: u8| is_digit_byte(b));
    if de == i {
        Err((ErrorKind::ExpectedInteger, i))
    } else if dec_value(s, i, de) > max {
        Err((ErrorKind::IntegerTooLarge, de))
    } else {
        Ok((dec_value(s, i, de), de))
    }
}

/// Parsing one encoding at position `i`, at compound nesting depth `d`:
/// leading qualifiers are discarded, then one atom is read. On success the
/// returned position is just past the bytes consumed; on failure it is
/// where the cursor stood when the error was found.
pub open spec fn s_parse_enc(s: Seq<u8>, i: nat, d: nat) -> Result<(Enc, nat), (ErrorKind, nat)>
    decreases s.len() - i, 0int,
{
    if d >= MAX_NESTING_DEPTH {
        Err((ErrorKind::DepthLimit, i))
    } else {
        let q = scan_end(s, i, |b: u8| is_qualifier_byte(b));
        if q >= s.len() {
            Err((ErrorKind::UnexpectedEnd, q))
        } else if q >= i {
            s_parse_inner(s, (q + 1) as nat, d, s[q as int])
        } else {
            Err((ErrorKind::UnexpectedEnd, i))
        }
    }
}

/// Parsing the atom whose first byte `b` stood at position `i - 1`.
pub open spec fn s_parse_inner(s: Seq<u8>, i: nat, d: nat, b: u8) -> Result<
    (Enc, nat),
    (ErrorKind, nat),
>
    decreases s.len() - i, 1int,
{
    if b == 99 {  // c
        Ok((Enc::Prim(Primitive::Char), i))
    } else if b == 115 {  // s
        Ok((Enc::Prim(Primitive::Short), i))
    } else if b == 105 {  // i
        Ok((Enc::Prim(Primitive::Int), i))
    } else if b == 108 {  // l
        Ok((Enc::Prim(Primitive::Long), i))
    } else if b == 113 {  // q
        Ok((Enc::Prim(Primitive::LongLong), i))
    } else if b == 67 {  // C
        Ok((Enc::Prim(Primitive::UChar), i))
    } else if b == 83 {  // S
        Ok((Enc::Prim(Primitive::UShort), i))
    } else if b == 73 {  // I
        Ok((Enc::Prim(Primitive::UInt), i))
    } else if b == 76 {  // L
        Ok((Enc::Prim(Primitive::ULong), i))
    } else if b == 81 {  // Q
        Ok((Enc::Prim(Primitive::ULongLong), i))
    } else if b == 102 {  // f
        Ok((Enc::Prim(Primitive::Float), i))
    } else if b == 100 {  // d
        Ok((Enc::Prim(Primitive::Double), i))
    } else if b == 68 {  // D
        Ok((Enc::Prim(Primitive::LongDouble), i))
    } else if b == 106 {  // j
        if i >= s.len() {
            Err((ErrorKind::UnexpectedEnd, i))
        } else if s[i as int] == 102 {
            Ok((Enc::Prim(Primitive::FloatComplex), (i + 1) as nat))
        } else if s[i as int] == 100 {
            Ok((Enc::Prim(Primitive::DoubleComplex), (i + 1) as nat))
        } else if s[i as int] == 68 {
            Ok((Enc::Prim(Primitive::LongDoubleComplex), (i + 1) as nat))
        } else {
            Err((ErrorKind::UnknownAfterComplex(s[i as int]), i))
        }
    } else if b == 66 {  // B
        Ok((Enc::Prim(Primitive::Bool), i))
    } else if b == 118 {  // v
        Ok((Enc::Prim(Primitive::Void), i))
    } else if b == 42 {  // *
        Ok((Enc::Prim(Primitive::CStr), i))
    } else if b == 64 {  // @, with @? the block variant
        if i < s.len() && s[i as int] == 63 {
            Ok((Enc::Prim(Primitive::Block), (i + 1) as nat))
        } else {
            Ok((Enc::Prim(Primitive::Object), i))
        }
    } else if b == 35 {  // #
        Ok((Enc::Prim(Primitive::Class), i))
    } else if b == 58 {  // :
        Ok((Enc::Prim(Primitive::Sel), i))
    } else if b == 63 {  // ?
        Ok((Enc::Prim(Primitive::Unknown), i))
    } else if b == 98 {  // b, a bit-field width in bits
        match s_parse_int(s, i, 255) {
            Ok((v, j)) => Ok((Enc::BitField(v as u8, Option::None), j)),
            Err(e) => Err(e),
        }
    } else if b == 94 {  // ^
        match s_parse_enc(s, i, (d + 1) as nat) {
            Ok((t, j)) => Ok((Enc::Pointer(Box::new(t)), j)),
            Err(e) => Err(e),
        }
    } else if b == 65 {  // A
        match s_parse_enc(s, i, (d + 1) as nat) {
            Ok((t, j)) => Ok((Enc::Atomic(Box::new(t)), j)),
            Err(e) => Err(e),
        }
    } else if b == 91 {  // [
        match s_parse_int(s, i, usize::MAX as int) {
            Ok((v, de)) => if i < de && de <= s.len() {
                match s_parse_enc(s, de, (d + 1) as nat) {
                    Ok((t, j)) => if j < s.len() && s[j as int] == 93 {
                        Ok((Enc::Array(v as usize, Box::new(t)), (j + 1) as nat))
                    } else {
                        Err((ErrorKind::WrongEndArray, j))
                    },
                    Err(e) => Err(e),
                }
            } else {
                Err((ErrorKind::ExpectedInteger, i))
            },
            Err(e) => Err(e),
        }
    } else if b == 123 {  // {
        match s_parse_container(s, i, (d + 1) as nat, ContainerKind::Struct) {
            Ok((name, fields, j)) => Ok((Enc::Struct(name, fields), j)),
            Err(e) => Err(e),
        }
    } else if b == 40 {  // (
        match s_parse_container(s, i, (d + 1) as nat, ContainerKind::Union) {
            Ok((name, fields, j)) => Ok((Enc::Union(name, fields), j)),
            Err(e) => Err(e),
        }
    } else {
        Err((ErrorKind::Unknown(b), i))
    }
}

/// Parsing a container body at position `i` (just past the opening byte):
/// a name terminated by `=` (expanded, fields follow) or by the closing
/// byte (opaque).
pub open spec fn s_parse_container(s: Seq<u8>, i: nat, d: nat, kind: ContainerKind) -> Result<
    (Seq<char>, Option<Seq<Enc>>, nat),
    (ErrorKind, nat),
>
    decreases s.len() - i, 0int,
{
    let ne = scan_end(s, i, |b: u8| b != 61 && b != kind.spec_end_byte());
    if ne >= s.len() {
        Err((ErrorKind::WrongEndContainer(kind), ne))
    } else {
        let name = s.subrange(i as int, ne as int);
        if !s_valid_name(name) {
            Err((ErrorKind::InvalidIdentifier(kind), ne))
        } else if s[ne as int] == kind.spec_end_byte() {
            Ok((chars_of(name), Option::None, (ne + 1) as nat))
        } else if ne + 1 > i {
            match s_parse_fields(s, (ne + 1) as nat, d, kind) {
                Ok((fs, j)) => Ok((chars_of(name), Option::Some(fs), j)),
                Err(e) => Err(e),
            }
        } else {
            Err((ErrorKind::WrongEndContainer(kind), ne))
        }
    }
}

/// Parsing the field list of an expanded container at position `i` (just
/// past the `=`), up to and including the closing byte.
pub open spec fn s_parse_fields(s: Seq<u8>, i: nat, d: nat, kind: ContainerKind) -> Result<
    (Seq<Enc>, nat),
    (ErrorKind, nat),
>
    decreases s.len() - i, 1int,
{
    if i >= s.len() {
        Err((ErrorKind::WrongEndContainer(kind), i))
    } else if s[i as int] == kind.spec_end_byte() {
        Ok((Seq::<Enc>::empty(), (i + 1) as nat))
    } else {
        match s_parse_enc(s, i, d) {
            Ok((e, j)) => if i < j && j <= s.len() {
                match s_parse_fields(s, j, d, kind) {
                    Ok((fs, j2)) => Ok((seq![e] + fs, j2)),
                    Err(er) => Err(er),
                }
            } else {
                Err((ErrorKind::WrongEndContainer(kind), j))
            },
            Err(er) => Err(er),
        }
    }
}

/// Parsing a whole input: one encoding, which must consume every byte.
pub open spec fn s_parse_top(s: Seq<u8>) -> Result<(Enc, nat), (ErrorKind, nat)> {
    match s_parse_enc(s, 0, 0) {
        Ok((e, j)) => if j >= s.len() {
            Ok((e, j))
        } else {
            Err((ErrorKind::NotAllConsumed, j))
        },
        Err(er) => Err(er),
    }
}

/// Exec mirror of [`is_digit_byte`].
#[verifier::when_used_as_spec(is_digit_byte)]
pub fn exec_is_digit_byte(b: u8) -> (r: bool)
    ensures
        r == is_digit_byte(b),
{
    48 <= b && b <= 57
}

/// Exec mirror of [`is_ident_byte`].
#[verifier::when_used_as_spec(is_ident_byte)]
pub fn exec_is_ident_byte(b: u8) -> (r: bool)
    ensures
        r == is_ident_byte(b),
{
    (48 <= b && b <= 57) || (65 <= b && b <= 90) || (97 <= b && b <= 122) || b == 95
}

/// Exec mirror of [`is_qualifier_byte`].
#[verifier::when_used_as_spec(is_qualifier_byte)]
pub fn exec_is_qualifier_byte(b: u8) -> (r: bool)
    ensures
        r == is_qualifier_byte(b),
{
    b == 114 || b == 110 || b == 78 || b == 111 || b == 79 || b == 82 || b == 86
}

/// The byte at position `i`, if any.
pub open spec fn s_peek(s: Seq<u8>, i: nat) -> Option<u8> {
    if i < s.len() {
        Option::Some(s[i as int])
    } else {
        Option::None
    }
}

/// The cursor-driven reader: the input string and the byte position the
/// reader stands at, together with the compound nesting depth of the
/// production being read.
#[derive(Debug)]
pub struct Parser<'a> {
    data: &'a str,
    // Always "behind"/"at" the current byte.
    split_point: usize,
    // How many compound encodings enclose the current production.
    depth: usize,
}

impl<'a> Parser<'a> {
    /// The input as bytes.
    pub closed spec fn bytes(self) -> Seq<u8> {
        self.data.spec_bytes()
    }

    /// The input string.
    pub closed spec fn spec_data(self) -> &'a str {
        self.data
    }

    /// The current byte position.
    pub closed spec fn pos(self) -> nat {
        self.split_point as nat
    }

    /// The current nesting depth.
    pub closed spec fn spec_depth(self) -> nat {
        self.depth as nat
    }

    /// The cursor never leaves the input.
    pub closed spec fn wf(self) -> bool {
        self.split_point <= self.bytes().len()
    }

    /// A reader standing at the start of the given input.
    pub fn new(data: &'a str) -> (p: Parser<'a>)
        ensures
            p.spec_data() == data,
            p.bytes() == data.spec_bytes(),
            p.pos() == 0,
            p.spec_depth() == 0,
            p.wf(),
    {
        Parser { split_point: 0, depth: 0, data }
    }

    /// The byte position the reader stands at.
    pub fn cur(&self) -> (p: usize)
        ensures
            p as nat == self.pos(),
    {
        self.split_point
    }

    /// The byte at the cursor, if any; the cursor does not move.
    pub fn try_peek(&self) -> (r: Option<u8>)
        requires
            self.wf(),
        ensures
            r == s_peek(self.bytes(), self.pos()),
    {
        match self.data.as_bytes().get(self.split_point) {
            Option::Some(b) => Option::Some(*b),
            Option::None => Option::None,
        }
    }

    /// Like [`Parser::try_peek`], but an exhausted input is the error it
    /// is in most productions.
    pub fn peek(&self) -> (r: Result<u8, ErrorKind>)
        requires
            self.wf(),
        ensures
            r == s_peek(self.bytes(), self.pos()).ok_or(ErrorKind::UnexpectedEnd),
    {
        self.try_peek().ok_or(ErrorKind::UnexpectedEnd)
    }

    /// The byte at an arbitrary in-bounds position.
    pub(crate) fn byte_at(&self, k: usize) -> (b: u8)
        requires
            self.wf(),
            k < self.bytes().len(),
        ensures
            b == self.bytes()[k as int],
    {
        match self.data.as_bytes().get(k) {
            Option::Some(b) => *b,
            Option::None => {
                proof {
                    assert(false);
                }
                0u8
            },
        }
    }

    /// Step over one byte.
    pub fn advance(&mut self)
        requires
            old(self).wf(),
            old(self).pos() < old(self).bytes().len(),
        ensures
            final(self).wf(),
            final(self).spec_data() == old(self).spec_data(),
            final(self).bytes() == old(self).bytes(),
            final(self).spec_depth() == old(self).spec_depth(),
            final(self).pos() == old(self).pos() + 1,
    {
        let n = self.data.as_bytes().len();
        self.split_point = self.split_point + 1;
    }

    /// Whether the whole input has been consumed.
    pub fn is_empty(&self) -> (r: bool)
        requires
            self.wf(),
        ensures
            r == (self.pos() == self.bytes().len()),
    {
        self.try_peek().is_none()
    }

    /// Fail with [`ErrorKind::NotAllConsumed`] unless the whole input has
    /// been consumed.
    pub fn expect_empty(&self) -> (r: Result<(), ErrorKind>)
        requires
            self.wf(),
        ensures
            r is Ok <==> self.pos() == self.bytes().len(),
            r is Err ==> r->Err_0 == ErrorKind::NotAllConsumed,
    {
        if self.is_empty() {
            Ok(())
        } else {
            Err(ErrorKind::NotAllConsumed)
        }
    }

    /// Step over the byte at the cursor if it is the expected one; on any
    /// other byte, and at the end of the input, report a mismatch and stay
    /// put.
    pub fn expect_byte(&mut self, byte: u8) -> (r: Option<()>)
        requires
            old(self).wf(),
        ensures
            final(self).wf(),
            final(self).spec_data() == old(self).spec_data(),
            final(self).bytes() == old(self).bytes(),
            final(self).spec_depth() == old(self).spec_depth(),
            r is Some <==> s_peek(old(self).bytes(), old(self).pos()) == Option::Some(byte),
            r is Some ==> final(self).pos() == old(self).pos() + 1,
            r is None ==> final(self).pos() == old(self).pos(),
    {
        match self.try_peek() {
            Option::Some(b) => {
                if b == byte {
                    self.advance();
                    Option::Some(())
                } else {
                    Option::None
                }
            },
            Option::None => Option::None,
        }
    }

    /// Strip leading qualifiers, if any.
    pub fn strip_leading_qualifiers(&mut self)
        requires
            old(self).wf(),
        ensures
            final(self).wf(),
            final(self).spec_data() == old(self).spec_data(),
            final(self).bytes() == old(self).bytes(),
            final(self).spec_depth() == old(self).spec_depth(),
            final(self).pos() == scan_end(
                old(self).bytes(),
                old(self).pos(),
                |b: u8| is_qualifier_byte(b),
            ),
    {
        loop
            invariant
                self.wf(),
                self.data == old(self).data,
                self.depth == old(self).depth,
                scan_end(old(self).bytes(), old(self).pos(), |b: u8| is_qualifier_byte(b))
                    == scan_end(self.bytes(), self.pos(), |b: u8| is_qualifier_byte(b)),
            ensures
                self.wf(),
                self.data == old(self).data,
                self.depth == old(self).depth,
                scan_end(old(self).bytes(), old(self).pos(), |b: u8| is_qualifier_byte(b))
                    == scan_end(self.bytes(), self.pos(), |b: u8| is_qualifier_byte(b)),
                self.pos() == self.bytes().len() || !is_qualifier_byte(
                    self.bytes()[self.pos() as int],
                ),
            decreases self.bytes().len() - self.pos(),
        {
            match self.try_peek() {
                Option::Some(b) => {
                    if exec_is_qualifier_byte(b) {
                        self.advance();
                    } else {
                        break;
                    }
                },
                Option::None => {
                    break;
                },
            }
        }
    }

    /// Chomp until we hit a non-digit. `+` and `-` prefixes are not
    /// supported.
    fn chomp_digits(&mut self)
        requires
            old(self).wf(),
        ensures
            final(self).wf(),
            final(self).spec_data() == old(self).spec_data(),
            final(self).bytes() == old(self).bytes(),
            final(self).spec_depth() == old(self).spec_depth(),
            final(self).pos() == scan_end(old(self).bytes(), old(self).pos(), |b: u8| is_digit_byte(b)),
            old(self).pos() <= final(self).pos(),
    {
        proof {
            lemma_scan_end(old(self).bytes(), old(self).pos(), |b: u8| is_digit_byte(b));
        }
        loop
            invariant
                self.wf(),
                self.data == old(self).data,
                self.depth == old(self).depth,
                old(self).pos() <= self.pos(),
                scan_end(old(self).bytes(), old(self).pos(), |b: u8| is_digit_byte(b)) == scan_end(
                    self.bytes(),
                    self.pos(),
                    |b: u8| is_digit_byte(b),
                ),
            ensures
                self.wf(),
                self.data == old(self).data,
                self.depth == old(self).depth,
                old(self).pos() <= self.pos(),
                scan_end(old(self).bytes(), old(self).pos(), |b: u8| is_digit_byte(b)) == scan_end(
                    self.bytes(),
                    self.pos(),
                    |b: u8| is_digit_byte(b),
                ),
                self.pos() == self.bytes().len() || !is_digit_byte(
                    self.bytes()[self.pos() as int],
                ),
            decreases self.bytes().len() - self.pos(),
        {
            match self.try_peek() {
                Option::Some(b) => {
                    if exec_is_digit_byte(b) {
                        self.advance();
                    } else {
                        break;
                    }
                },
                Option::None => {
                    break;
                },
            }
        }
        proof {
            lemma_scan_end(self.bytes(), self.pos(), |b: u8| is_digit_byte(b));
        }
    }

    /// Read a nonempty run of decimal digits as a `usize`. `+` and `-`
    /// prefixes are not supported.
    pub fn parse_usize(&mut self) -> (r: Result<usize, ErrorKind>)
        requires
            old(self).wf(),
        ensures
            final(self).wf(),
            final(self).spec_data() == old(self).spec_data(),
            final(self).bytes() == old(self).bytes(),
            final(self).spec_depth() == old(self).spec_depth(),
            match s_parse_int(old(self).bytes(), old(self).pos(), usize::MAX as int) {
                Ok((v, j)) => r == Result::<usize, ErrorKind>::Ok(v as usize) && final(self).pos() == j
                    && v == v as usize as int,
                Err((k, j)) => r == Result::<usize, ErrorKind>::Err(k) && final(self).pos() == j,
            },
    {
        let ghost s = self.bytes();
        let ghost i = self.pos();
        let ghost p = |b: u8| is_digit_byte(b);
        let start = self.split_point;
        self.chomp_digits();
        let end = self.split_point;
        proof {
            lemma_scan_end(s, i, p);
        }
        if end == start {
            return Err(ErrorKind::ExpectedInteger);
        }
        let mut acc: usize = 0;
        let mut k = start;
        while k < end
            invariant
                self.wf(),
                self.spec_data() == old(self).spec_data(),
                self.spec_depth() == old(self).spec_depth(),
                self.pos() == end as nat,
                start <= k <= end,
                end <= self.bytes().len(),
                s == self.bytes(),
                s == old(self).bytes(),
                i == old(self).pos(),
                i == start as nat,
                end == scan_end(s, i, |b: u8| is_digit_byte(b)),
                forall|m: int| i <= m < end ==> is_digit_byte(#[trigger] s[m]),
                acc as int == dec_value(s, i, k as nat),
            decreases end - k,
        {
            let d = self.byte_at(k) - 48;
            let step = match acc.checked_mul(10) {
                Option::Some(m) => m.checked_add(d as usize),
                Option::None => Option::None,
            };
            match step {
                Option::Some(next) => {
                    proof {
                        assert(dec_value(s, i, (k + 1) as nat) == 10 * dec_value(s, i, k as nat)
                            + (s[k as int] - 48));
                    }
                    acc = next;
                    k = k + 1;
                },
                Option::None => {
                    proof {
                        assert(dec_value(s, i, (k + 1) as nat) > usize::MAX);
                        lemma_dec_value_mono(s, i, (k + 1) as nat, end as nat);
                    }
                    return Err(ErrorKind::IntegerTooLarge);
                },
            }
        }
        proof {
            lemma_dec_value_mono(s, i, end as nat, end as nat);
        }
        Ok(acc)
    }

    /// Read a nonempty run of decimal digits as a `u8`.
    pub fn parse_u8(&mut self) -> (r: Result<u8, ErrorKind>)
        requires
            old(self).wf(),
        ensures
            final(self).wf(),
            final(self).spec_data() == old(self).spec_data(),
            final(self).bytes() == old(self).bytes(),
            final(self).spec_depth() == old(self).spec_depth(),
            match s_parse_int(old(self).bytes(), old(self).pos(), 255) {
                Ok((v, j)) => r == Result::<u8, ErrorKind>::Ok(v as u8) && final(self).pos() == j && v == v
                    as u8 as int,
                Err((k, j)) => r == Result::<u8, ErrorKind>::Err(k) && final(self).pos() == j,
            },
    {
        match self.parse_usize() {
            Ok(v) => {
                if v <= 255 {
                    Ok(v as u8)
                } else {
                    Err(ErrorKind::IntegerTooLarge)
                }
            },
            Err(e) => Err(e),
        }
    }
}

/// The parser's cursor moves strictly forward on success, never backward
/// on failure, and stays within the input.
pub proof fn lemma_parse_enc_advances(s: Seq<u8>, i: nat, d: nat)
    requires
        i <= s.len(),
    ensures
        match s_parse_enc(s, i, d) {
            Ok((_e, j)) => i < j <= s.len(),
            Err((_k, j)) => i <= j <= s.len(),
        },
    decreases s.len() - i, 0int,
{
    if d < MAX_NESTING_DEPTH {
        let q = scan_end(s, i, |b: u8| is_qualifier_byte(b));
        lemma_scan_end(s, i, |b: u8| is_qualifier_byte(b));
        if q < s.len() {
            lemma_parse_inner_advances(s, (q + 1) as nat, d, s[q as int]);
        }
    }
}

/// Companion of [`lemma_parse_enc_advances`] for atom bodies.
pub proof fn lemma_parse_inner_advances(s: Seq<u8>, i: nat, d: nat, b: u8)
    requires
        i <= s.len(),
    ensures
        match s_parse_inner(s, i, d, b) {
            Ok((_e, j)) => i <= j <= s.len(),
            Err((_k, j)) => i <= j <= s.len(),
        },
    decreases s.len() - i, 1int,
{
    if b == 98 {
        lemma_scan_end(s, i, |x: u8| is_digit_byte(x));
    } else if b == 94 || b == 65 {
        lemma_parse_enc_advances(s, i, (d + 1) as nat);
    } else if b == 91 {
        lemma_scan_end(s, i, |x: u8| is_digit_byte(x));
        let de = scan_end(s, i, |x: u8| is_digit_byte(x));
        if de > i {
            lemma_parse_enc_advances(s, de, (d + 1) as nat);
        }
    } else if b == 123 {
        lemma_parse_container_advances(s, i, (d + 1) as nat, ContainerKind::Struct);
    } else if b == 40 {
        lemma_parse_container_advances(s, i, (d + 1) as nat, ContainerKind::Union);
    }
}

/// Companion of [`lemma_parse_enc_advances`] for container bodies.
pub proof fn lemma_parse_container_advances(s: Seq<u8>, i: nat, d: nat, kind: ContainerKind)
    requires
        i <= s.len(),
    ensures
        match s_parse_container(s, i, d, kind) {
            Ok((_n, _f, j)) => i < j <= s.len(),
            Err((_k, j)) => i <= j <= s.len(),
        },
    decreases s.len() - i, 0int,
{
    let ne = scan_end(s, i, |b: u8| b != 61 && b != kind.spec_end_byte());
    lemma_scan_end(s, i, |b: u8| b != 61 && b != kind.spec_end_byte());
    if ne < s.len() {
        let name = s.subrange(i as int, ne as int);
        if s_valid_name(name) && s[ne as int] != kind.spec_end_byte() {
            lemma_parse_fields_advances(s, (ne + 1) as nat, d, kind);
        }
    }
}

/// A well-formed reader's cursor is within its input.
pub proof fn lemma_parser_wf<'a>(p: Parser<'a>)
    requires
        p.wf(),
    ensures
        p.pos() <= p.bytes().len(),
{
}

/// Whether an executable parsing step returned exactly what the parsing
/// spec says, both in its result and in where it left the cursor.
pub open spec fn mirrors_enc(
    r: Result<EncodingBox, ErrorKind>,
    sp: nat,
    out: Result<(Enc, nat), (ErrorKind, nat)>,
) -> bool {
    match out {
        Ok((e, j)) => match r {
            Ok(v) => v@ == e && sp == j,
            Err(_) => false,
        },
        Err((k, j)) => match r {
            Ok(_) => false,
            Err(k2) => k2 == k && sp == j,
        },
    }
}

/// The mirrors of an optional field vector.
pub open spec fn opt_views(o: Option<Vec<Encoding>>) -> Option<Seq<Enc>> {
    match o {
        Option::Some(v) => Option::Some(views_of(v@)),
        Option::None => Option::None,
    }
}

/// [`mirrors_enc`], for container bodies.
pub open spec fn mirrors_container(
    r: Result<(String, Option<Vec<EncodingBox>>), ErrorKind>,
    sp: nat,
    out: Result<(Seq<char>, Option<Seq<Enc>>, nat), (ErrorKind, nat)>,
) -> bool {
    match out {
        Ok((name, fields, j)) => match r {
            Ok((n, f)) => n@ == name && opt_views(f) == fields && sp == j,
            Err(_) => false,
        },
        Err((k, j)) => match r {
            Ok(_) => false,
            Err(k2) => k2 == k && sp == j,
        },
    }
}

/// A partial run of the field-list loop, continued by the rest of the
/// parse.
pub open spec fn fields_join(pre: Seq<Enc>, r: Result<(Seq<Enc>, nat), (ErrorKind, nat)>) -> Result<
    (Seq<Enc>, nat),
    (ErrorKind, nat),
> {
    match r {
        Ok((fs, j)) => Ok((pre + fs, j)),
        Err(e) => Err(e),
    }
}

impl<'a> Parser<'a> {
    /// Step over the run of container-name bytes at the cursor: everything
    /// up to the `=` or the container's closing byte.
    pub(crate) fn scan_name(&mut self, kind: ContainerKind)
        requires
            old(self).wf(),
        ensures
            final(self).wf(),
            final(self).spec_data() == old(self).spec_data(),
            final(self).bytes() == old(self).bytes(),
            final(self).spec_depth() == old(self).spec_depth(),
            final(self).pos() == scan_end(
                old(self).bytes(),
                old(self).pos(),
                |b: u8| b != 61 && b != kind.spec_end_byte(),
            ),
            old(self).pos() <= final(self).pos(),
    {
        proof {
            lemma_scan_end(
                old(self).bytes(),
                old(self).pos(),
                |b: u8| b != 61 && b != kind.spec_end_byte(),
            );
        }
        loop
            invariant
                self.wf(),
                self.data == old(self).data,
                self.depth == old(self).depth,
                old(self).pos() <= self.pos(),
                scan_end(
                    old(self).bytes(),
                    old(self).pos(),
                    |b: u8| b != 61 && b != kind.spec_end_byte(),
                ) == scan_end(self.bytes(), self.pos(), |b: u8| b != 61 && b != kind.spec_end_byte()),
            ensures
                self.wf(),
                self.data == old(self).data,
                self.depth == old(self).depth,
                old(self).pos() <= self.pos(),
                scan_end(
                    old(self).bytes(),
                    old(self).pos(),
                    |b: u8| b != 61 && b != kind.spec_end_byte(),
                ) == scan_end(self.bytes(), self.pos(), |b: u8| b != 61 && b != kind.spec_end_byte()),
                self.pos() == self.bytes().len() || !(self.bytes()[self.pos() as int] != 61
                    && self.bytes()[self.pos() as int] != kind.spec_end_byte()),
            decreases self.bytes().len() - self.pos(),
        {
            match self.try_peek() {
                Option::Some(b) => {
                    if b != 61 && b != kind.end_byte() {
                        self.advance();
                    } else {
                        break;
                    }
                },
                Option::None => {
                    break;
                },
            }
        }
    }

    /// Whether the bytes `[start, end)` of the input form a valid
    /// container name.
    pub(crate) fn name_ok(&self, start: usize, end: usize) -> (r: bool)
        requires
            self.wf(),
            start <= end <= self.bytes().len(),
        ensures
            r == s_valid_name(self.bytes().subrange(start as int, end as int)),
    {
        let ghost name = self.bytes().subrange(start as int, end as int);
        if end == start {
            return false;
        }
        if end - start == 1 && self.byte_at(start) == 63 {
            return true;
        }
        let mut k = start;
        while k < end
            invariant
                self.wf(),
                start <= k <= end <= self.bytes().len(),
                name == self.bytes().subrange(start as int, end as int),
                end > start,
                !(end - start == 1 && self.bytes()[start as int] == 63),
                forall|m: int| start <= m < k ==> is_ident_byte(#[trigger] self.bytes()[m]),
            decreases end - k,
        {
            let b = self.byte_at(k);
            if !exec_is_ident_byte(b) {
                proof {
                    assert(name[k - start] == self.bytes()[k as int]);
                    if name.len() == 1 && name[0] == 63 {
                        assert(self.bytes()[start as int] == 63);
                        assert(false);
                    }
                }
                return false;
            }
            k = k + 1;
        }
        proof {
            assert forall|m: int| 0 <= m < name.len() implies is_ident_byte(#[trigger] name[m]) by {
                assert(name[m] == self.bytes()[start + m]);
            }
        }
        true
    }

    /// The bytes `[start, end)` of the input as an owned string, one
    /// character per byte.
    pub(crate) fn take_name(&self, start: usize, end: usize) -> (out: String)
        requires
            self.wf(),
            start <= end <= self.bytes().len(),
        ensures
            out@ == chars_of(self.bytes().subrange(start as int, end as int)),
    {
        let mut out = String::new();
        let mut k = start;
        while k < end
            invariant
                self.wf(),
                start <= k <= end <= self.bytes().len(),
                out@ == chars_of(self.bytes().subrange(start as int, k as int)),
            decreases end - k,
        {
            let b = self.byte_at(k);
            push_char(&mut out, b as char);
            proof {
                let s = self.bytes();
                assert(s.subrange(start as int, (k + 1) as int) =~= s.subrange(
                    start as int,
                    k as int,
                ).push(s[k as int]));
                assert(chars_of(s.subrange(start as int, (k + 1) as int)) =~= chars_of(
                    s.subrange(start as int, k as int),
                ).push(s[k as int] as char));
            }
            k = k + 1;
        }
        proof {
            assert(self.bytes().subrange(start as int, end as int) == self.bytes().subrange(
                start as int,
                k as int,
            ));
        }
        out
    }

    /// Read one complete encoding at the cursor: leading qualifiers are
    /// discarded, then one atom.
    pub fn parse_encoding(&mut self) -> (r: Result<EncodingBox, ErrorKind>)
        requires
            old(self).wf(),
        ensures
            final(self).wf(),
            final(self).spec_data() == old(self).spec_data(),
            final(self).bytes() == old(self).bytes(),
            final(self).spec_depth() == old(self).spec_depth(),
            mirrors_enc(
                r,
                final(self).pos(),
                s_parse_enc(old(self).bytes(), old(self).pos(), old(self).spec_depth()),
            ),
        decreases old(self).bytes().len() - old(self).pos(), 0int,
    {
        if self.depth >= MAX_NESTING_DEPTH {
            return Err(ErrorKind::DepthLimit);
        }
        self.strip_leading_qualifiers();
        proof {
            lemma_scan_end(old(self).bytes(), old(self).pos(), |b: u8| is_qualifier_byte(b));
        }
        match self.try_peek() {
            Option::None => Err(ErrorKind::UnexpectedEnd),
            Option::Some(b) => {
                self.advance();
                self.parse_encoding_inner(b)
            },
        }
    }

    /// Read the rest of the atom whose first byte, already stepped over,
    /// was `b`.
    fn parse_encoding_inner(&mut self, b: u8) -> (r: Result<EncodingBox, ErrorKind>)
        requires
            old(self).wf(),
            old(self).spec_depth() < MAX_NESTING_DEPTH,
        ensures
            final(self).wf(),
            final(self).spec_data() == old(self).spec_data(),
            final(self).bytes() == old(self).bytes(),
            final(self).spec_depth() == old(self).spec_depth(),
            mirrors_enc(
                r,
                final(self).pos(),
                s_parse_inner(old(self).bytes(), old(self).pos(), old(self).spec_depth(), b),
            ),
        decreases old(self).bytes().len() - old(self).pos(), 1int,
    {
        if b == 99 {  // c
            Ok(Encoding::Prim(Primitive::Char))
        } else if b == 115 {  // s
            Ok(Encoding::Prim(Primitive::Short))
        } else if b == 105 {  // i
            Ok(Encoding::Prim(Primitive::Int))
        } else if b == 108 {  // l
            Ok(Encoding::Prim(Primitive::Long))
        } else if b == 113 {  // q
            Ok(Encoding::Prim(Primitive::LongLong))
        } else if b == 67 {  // C
            Ok(Encoding::Prim(Primitive::UChar))
        } else if b == 83 {  // S
            Ok(Encoding::Prim(Primitive::UShort))
        } else if b == 73 {  // I
            Ok(Encoding::Prim(Primitive::UInt))
        } else if b == 76 {  // L
            Ok(Encoding::Prim(Primitive::ULong))
        } else if b == 81 {  // Q
            Ok(Encoding::Prim(Primitive::ULongLong))
        } else if b == 102 {  // f
            Ok(Encoding::Prim(Primitive::Float))
        } else if b == 100 {  // d
            Ok(Encoding::Prim(Primitive::Double))
        } else if b == 68 {  // D
            Ok(Encoding::Prim(Primitive::LongDouble))
        } else if b == 106 {  // j
            match self.peek() {
                Err(e) => Err(e),
                Ok(c) => {
                    if c == 102 {
                        self.advance();
                        Ok(Encoding::Prim(Primitive::FloatComplex))
                    } else if c == 100 {
                        self.advance();
                        Ok(Encoding::Prim(Primitive::DoubleComplex))
                    } else if c == 68 {
                        self.advance();
                        Ok(Encoding::Prim(Primitive::LongDoubleComplex))
                    } else {
                        Err(ErrorKind::UnknownAfterComplex(c))
                    }
                },
            }
        } else if b == 66 {  // B
            Ok(Encoding::Prim(Primitive::Bool))
        } else if b == 118 {  // v
            Ok(Encoding::Prim(Primitive::Void))
        } else if b == 42 {  // *
            Ok(Encoding::Prim(Primitive::CStr))
        } else if b == 64 {  // @, with @? the block variant
            match self.try_peek() {
                Option::Some(c) => {
                    if c == 63 {
                        self.advance();
                        Ok(Encoding::Prim(Primitive::Block))
                    } else {
                        Ok(Encoding::Prim(Primitive::Object))
                    }
                },
                Option::None => Ok(Encoding::Prim(Primitive::Object)),
            }
        } else if b == 35 {  // #
            Ok(Encoding::Prim(Primitive::Class))
        } else if b == 58 {  // :
            Ok(Encoding::Prim(Primitive::Sel))
        } else if b == 63 {  // ?
            Ok(Encoding::Prim(Primitive::Unknown))
        } else if b == 98 {  // b, a bit-field width in bits
            match self.parse_u8() {
                Ok(w) => Ok(Encoding::BitField(w, Option::None)),
                Err(e) => Err(e),
            }
        } else if b == 94 {  // ^
            self.depth = self.depth + 1;
            let r0 = self.parse_encoding();
            self.depth = self.depth - 1;
            match r0 {
                Ok(t) => Ok(Encoding::Pointer(Box::new(t))),
                Err(e) => Err(e),
            }
        } else if b == 65 {  // A
            self.depth = self.depth + 1;
            let r0 = self.parse_encoding();
            self.depth = self.depth - 1;
            match r0 {
                Ok(t) => Ok(Encoding::Atomic(Box::new(t))),
                Err(e) => Err(e),
            }
        } else if b == 91 {  // [
            proof {
                lemma_scan_end(old(self).bytes(), old(self).pos(), |x: u8| is_digit_byte(x));
            }
            match self.parse_usize() {
                Err(e) => Err(e),
                Ok(len) => {
                    self.depth = self.depth + 1;
                    let r0 = self.parse_encoding();
                    self.depth = self.depth - 1;
                    match r0 {
                        Err(e) => Err(e),
                        Ok(item) => match self.expect_byte(93) {
                            Option::Some(_u) => Ok(Encoding::Array(len, Box::new(item))),
                            Option::None => Err(ErrorKind::WrongEndArray),
                        },
                    }
                },
            }
        } else if b == 123 {  // {
            self.depth = self.depth + 1;
            let r0 = self.parse_container(ContainerKind::Struct);
            self.depth = self.depth - 1;
            match r0 {
                Ok((name, items)) => Ok(Encoding::Struct(name, items)),
                Err(e) => Err(e),
            }
        } else if b == 40 {  // (
            self.depth = self.depth + 1;
            let r0 = self.parse_container(ContainerKind::Union);
            self.depth = self.depth - 1;
            match r0 {
                Ok((name, items)) => Ok(Encoding::Union(name, items)),
                Err(e) => Err(e),
            }
        } else {
            Err(ErrorKind::Unknown(b))
        }
    }

    /// Read a container body at the cursor (just past the opening byte):
    /// the name, and the field list if the name is terminated by `=`.
    pub fn parse_container(&mut self, kind: ContainerKind) -> (r: Result<
        (String, Option<Vec<EncodingBox>>),
        ErrorKind,
    >)
        requires
            old(self).wf(),
        ensures
            final(self).wf(),
            final(self).spec_data() == old(self).spec_data(),
            final(self).bytes() == old(self).bytes(),
            final(self).spec_depth() == old(self).spec_depth(),
            mirrors_container(
                r,
                final(self).pos(),
                s_parse_container(
                    old(self).bytes(),
                    old(self).pos(),
                    old(self).spec_depth(),
                    kind,
                ),
            ),
        decreases old(self).bytes().len() - old(self).pos(), 0int,
    {
        let ghost s = old(self).bytes();
        let ghost d = old(self).spec_depth();
        let start = self.split_point;
        self.scan_name(kind);
        let ne = self.split_point;
        proof {
            lemma_scan_end(s, start as nat, |b: u8| b != 61 && b != kind.spec_end_byte());
        }
        if self.is_empty() {
            return Err(ErrorKind::WrongEndContainer(kind));
        }
        if !self.name_ok(start, ne) {
            return Err(ErrorKind::InvalidIdentifier(kind));
        }
        let name = self.take_name(start, ne);
        let t = self.byte_at(ne);
        self.advance();
        if t == kind.end_byte() {
            return Ok((name, Option::None));
        }
        let mut items: Vec<EncodingBox> = Vec::new();
        loop
            invariant
                self.wf(),
                self.data == old(self).data,
                self.depth == old(self).depth,
                s == self.bytes(),
                d == self.spec_depth(),
                start == old(self).pos(),
                start <= ne < s.len(),
                ne == scan_end(s, start as nat, |b: u8| b != 61 && b != kind.spec_end_byte()),
                s_valid_name(s.subrange(start as int, ne as int)),
                s[ne as int] != kind.spec_end_byte(),
                name@ == chars_of(s.subrange(start as int, ne as int)),
                ne < self.pos() <= s.len(),
                s_parse_fields(s, (ne + 1) as nat, d, kind) == fields_join(
                    views_of(items@),
                    s_parse_fields(s, self.pos(), d, kind),
                ),
            decreases s.len() - self.pos(),
        {
            match self.try_peek() {
                Option::None => {
                    return Err(ErrorKind::WrongEndContainer(kind));
                },
                Option::Some(c) => {
                    if c == kind.end_byte() {
                        self.advance();
                        proof {
                            assert(views_of(items@) + Seq::<Enc>::empty() =~= views_of(items@));
                        }
                        return Ok((name, Option::Some(items)));
                    }
                    let ghost p0 = self.pos();
                    let e = match self.parse_encoding() {
                        Ok(e) => e,
                        Err(er) => {
                            return Err(er);
                        },
                    };
                    proof {
                        lemma_parse_enc_advances(s, p0, d);
                        lemma_views_of_push(items@, e);
                        let fs_rest = s_parse_fields(s, self.pos(), d, kind);
                        assert(fields_join(views_of(items@), fields_join(seq![e@], fs_rest))
                            == fields_join(views_of(items@.push(e)), fs_rest)) by {
                            match fs_rest {
                                Ok((fs, _j)) => {
                                    assert(views_of(items@) + (seq![e@] + fs) =~= (views_of(items@)
                                        + seq![e@]) + fs);
                                },
                                Err(_er) => {},
                            }
                        }
                    }
                    items.push(e);
                },
            }
        }
    }
}

/// Check whether a struct or union name is a valid identifier: `?` alone,
/// or a nonempty run of ASCII alphanumerics and underscores.
pub fn verify_name(name: &str) -> (r: bool)
    ensures
        r == s_valid_name(name.spec_bytes()),
{
    let bytes = name.as_bytes();
    let n = bytes.len();
    if n == 0 {
        return false;
    }
    if n == 1 && bytes[0] == 63 {
        return true;
    }
    let mut k: usize = 0;
    while k < n
        invariant
            n == name.spec_bytes().len(),
            bytes@ == name.spec_bytes(),
            0 <= k <= n,
            n > 0,
            !(n == 1 && bytes@[0] == 63),
            forall|m: int| 0 <= m < k ==> is_ident_byte(#[trigger] bytes@[m]),
        decreases n - k,
    {
        if !exec_is_ident_byte(bytes[k]) {
            return false;
        }
        k = k + 1;
    }
    true
}

/// The error that was encountered while parsing an encoding: what went
/// wrong, the input, and the byte position of the failure.
#[derive(Debug, PartialEq, Eq, Hash)]
pub struct ParseError {
    kind: ErrorKind,
    data: String,
    split_point: usize,
}

impl ParseError {
    /// What went wrong.
    pub closed spec fn spec_kind(&self) -> ErrorKind {
        self.kind
    }

    /// The input that was being parsed.
    pub closed spec fn input_view(&self) -> Seq<char> {
        self.data@
    }

    /// The byte position of the failure.
    pub closed spec fn spec_split_point(&self) -> nat {
        self.split_point as nat
    }

    /// Wrap the state of a failed reader.
    pub fn new(parser: Parser<'_>, kind: ErrorKind) -> (e: ParseError)
        ensures
            e.spec_kind() == kind,
            e.input_view() == parser.spec_data()@,
            e.spec_split_point() == parser.pos(),
    {
        ParseError { kind, data: parser.data.to_owned(), split_point: parser.split_point }
    }

    /// What went wrong.
    pub fn kind(&self) -> (k: ErrorKind)
        ensures
            k == self.spec_kind(),
    {
        self.kind
    }

    /// The input that was being parsed.
    pub fn data(&self) -> (d: &str)
        ensures
            d@ == self.input_view(),
    {
        self.data.as_str()
    }

    /// The byte position of the failure.
    pub fn split_point(&self) -> (p: usize)
        ensures
            p == self.spec_split_point(),
    {
        self.split_point
    }

    /// The full description of this failure: what went wrong, at which
    /// byte, in which input.
    pub open spec fn spec_message(&self) -> Seq<char> {
        "failed parsing encoding: "@ + self.spec_kind().spec_message() + " at byte-index "@
            + dec_digits(self.spec_split_point()) + " in \""@ + self.input_view() + "\""@
    }

    /// Render the full description of this failure.
    pub fn message(&self) -> (r: String)
        ensures
            r@ == self.spec_message(),
    {
        let mut m = "failed parsing encoding: ".to_owned();
        let km = self.kind.message();
        m.append(km.as_str());
        m.append(" at byte-index ");
        crate::render::push_dec(&mut m, self.split_point);
        m.append(" in \"");
        m.append(self.data.as_str());
        m.append("\"");
        m
    }
}

impl ErrorKind {
    /// The human-readable description of this failure.
    pub open spec fn spec_message(self) -> Seq<char> {
        match self {
            ErrorKind::UnexpectedEnd => "unexpected end"@,
            ErrorKind::Unknown(b) => "unknown encoding character "@.push(b as char),
            ErrorKind::UnknownAfterComplex(b) => "unknown encoding character "@.push(b as char)
                + " after complex"@,
            ErrorKind::ExpectedInteger => "expected integer"@,
            ErrorKind::IntegerTooLarge => "integer too large"@,
            ErrorKind::WrongEndArray => "expected array to be closed"@,
            ErrorKind::WrongEndContainer(kind) => "expected "@ + kind.spec_chars()
                + " to be closed"@,
            ErrorKind::InvalidIdentifier(kind) => "got invalid identifier in "@
                + kind.spec_chars(),
            ErrorKind::NotAllConsumed => "remaining contents after parsing"@,
            ErrorKind::DepthLimit => "encoding nested too deeply"@,
        }
    }

    /// Render the human-readable description of this failure.
    pub fn message(&self) -> (r: String)
        ensures
            r@ == self.spec_message(),
    {
        match self {
            ErrorKind::UnexpectedEnd => "unexpected end".to_owned(),
            ErrorKind::Unknown(b) => {
                let mut m = "unknown encoding character ".to_owned();
                push_char(&mut m, *b as char);
                m
            },
            ErrorKind::UnknownAfterComplex(b) => {
                let mut m = "unknown encoding character ".to_owned();
                push_char(&mut m, *b as char);
                m.append(" after complex");
                m
            },
            ErrorKind::ExpectedInteger => "expected integer".to_owned(),
            ErrorKind::IntegerTooLarge => "integer too large".to_owned(),
            ErrorKind::WrongEndArray => "expected array to be closed".to_owned(),
            ErrorKind::WrongEndContainer(kind) => {
                let mut m = "expected ".to_owned();
                m.append(kind.as_str());
                m.append(" to be closed");
                m
            },
            ErrorKind::InvalidIdentifier(kind) => {
                let mut m = "got invalid identifier in ".to_owned();
                m.append(kind.as_str());
                m
            },
            ErrorKind::NotAllConsumed => "remaining contents after parsing".to_owned(),
            ErrorKind::DepthLimit => "encoding nested too deeply".to_owned(),
        }
    }
}

/// Parse a complete type encoding: one encoding, which must consume the
/// whole input. Errors are values carrying the input and the position of
/// the failure; no input aborts.
pub fn parse(s: &str) -> (r: Result<EncodingBox, ParseError>)
    ensures
        match s_parse_top(s.spec_bytes()) {
            Ok((e, _j)) => match r {
                Ok(v) => v@ == e,
                Err(_) => false,
            },
            Err((k, j)) => match r {
                Ok(_) => false,
                Err(pe) => pe.spec_kind() == k && pe.spec_split_point() == j && pe.input_view()
                    == s@,
            },
        },
{
    let mut parser = Parser::new(s);
    match parser.parse_encoding() {
        Ok(enc) => match parser.expect_empty() {
            Ok(_u) => Ok(enc),
            Err(k) => Err(ParseError::new(parser, k)),
        },
        Err(k) => Err(ParseError::new(parser, k)),
    }
}

/// Companion of [`lemma_parse_enc_advances`] for field lists.
pub proof fn lemma_parse_fields_advances(s: Seq<u8>, i: nat, d: nat, kind: ContainerKind)
    requires
        i <= s.len(),
    ensures
        match s_parse_fields(s, i, d, kind) {
            Ok((_fs, j)) => i < j <= s.len(),
            Err((_k, j)) => i <= j <= s.len(),
        },
    decreases s.len() - i, 1int,
{
    if i < s.len() && s[i as int] != kind.spec_end_byte() {
        lemma_parse_enc_advances(s, i, d);
        match s_parse_enc(s, i, d) {
            Ok((_e, j)) => {
                lemma_parse_fields_advances(s, j, d, kind);
            },
            Err(_er) => {},
        }
    }
}

} // verus!
