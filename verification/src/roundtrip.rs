//! The laws tying the parser and the formatter together: every string the
//! formatter produces parses back, the parse consumes exactly the rendered
//! bytes and nothing more, and what comes back describes the same runtime
//! type as what was rendered.

use vstd::prelude::*;

use crate::compare::{bodies_eq_at, enc_eq, enc_eq_at, fields_eq_at};
use crate::encoding::{
    bytes_of_chars, chars_of, dec_digits, digit_char, prim_chars, render, render_body,
    render_fields, Enc, Primitive,
};
use crate::nesting::{ContainerKind, IndirectionKind, NestingLevel};
use crate::parse::{
    dec_value, is_digit_byte, is_ident_byte, is_qualifier_byte, s_parse_container, s_parse_enc,
    s_parse_fields, s_parse_inner, s_parse_int, s_parse_top, s_valid_name, scan_end, ErrorKind,
    MAX_NESTING_DEPTH,
};

verus! {

/// Whether a character may appear in a container name: ASCII alphanumeric
/// or underscore.
pub open spec fn is_ident_char(c: char) -> bool {
    (48 <= c as int <= 57) || (65 <= c as int <= 90) || (97 <= c as int <= 122) || c as int == 95
}

/// Whether a character sequence is a valid container name: `?` alone, or
/// nonempty and made of identifier characters.
pub open spec fn valid_name_chars(name: Seq<char>) -> bool {
    name == seq!['?'] || (name.len() > 0 && forall|k: int|
        0 <= k < name.len() ==> is_ident_char(#[trigger] name[k]))
}

/// Whether an encoding's rendering ends with the object code `@`. When it
/// does, a following `?` would be read back as part of a block code.
pub open spec fn ends_object(e: Enc) -> bool
    decreases e,
{
    match e {
        Enc::Prim(p) => p == Primitive::Object,
        Enc::Pointer(t) => ends_object(*t),
        Enc::Atomic(t) => ends_object(*t),
        _ => false,
    }
}

/// Whether an encoding's rendering ends with a decimal digit. When it
/// does, a following digit would be read back as part of the same number.
pub open spec fn ends_digit(e: Enc) -> bool
    decreases e,
{
    match e {
        Enc::BitField(_w, _elt) => true,
        Enc::Pointer(t) => ends_digit(*t),
        Enc::Atomic(t) => ends_digit(*t),
        _ => false,
    }
}

/// A well-formed encoding: every container name is a valid identifier, and
/// no field list puts an unknown-type field right after a field whose
/// rendering ends with `@` (the one place where the grammar is ambiguous).
pub open spec fn wf_enc(e: Enc) -> bool
    decreases e, 0int,
{
    match e {
        Enc::Prim(_p) => true,
        Enc::BitField(_w, _elt) => true,
        Enc::Pointer(t) => wf_enc(*t),
        Enc::Atomic(t) => wf_enc(*t),
        Enc::Array(_n, t) => wf_enc(*t),
        Enc::Struct(name, fields) => valid_name_chars(name) && match fields {
            Option::Some(fs) => wf_fields(fs),
            Option::None => true,
        },
        Enc::Union(name, fields) => valid_name_chars(name) && match fields {
            Option::Some(fs) => wf_fields(fs),
            Option::None => true,
        },
    }
}

/// Companion of [`wf_enc`] for field lists.
pub open spec fn wf_fields(fs: Seq<Enc>) -> bool
    decreases fs, 1int,
{
    if fs.len() == 0 {
        true
    } else {
        wf_enc(fs[0]) && (fs.len() > 1 ==> !(ends_object(fs[0]) && fs[1] == Enc::Prim(
            Primitive::Unknown,
        ))) && wf_fields(fs.drop_first())
    }
}

/// The part of well-formedness the parser guarantees by itself: every
/// container name is a valid identifier.
pub open spec fn names_wf(e: Enc) -> bool
    decreases e, 0int,
{
    match e {
        Enc::Prim(_p) => true,
        Enc::BitField(_w, _elt) => true,
        Enc::Pointer(t) => names_wf(*t),
        Enc::Atomic(t) => names_wf(*t),
        Enc::Array(_n, t) => names_wf(*t),
        Enc::Struct(name, fields) => valid_name_chars(name) && match fields {
            Option::Some(fs) => names_wf_fields(fs),
            Option::None => true,
        },
        Enc::Union(name, fields) => valid_name_chars(name) && match fields {
            Option::Some(fs) => names_wf_fields(fs),
            Option::None => true,
        },
    }
}

/// Companion of [`names_wf`] for field lists.
pub open spec fn names_wf_fields(fs: Seq<Enc>) -> bool
    decreases fs, 1int,
{
    if fs.len() == 0 {
        true
    } else {
        names_wf(fs[0]) && names_wf_fields(fs.drop_first())
    }
}

/// The part of well-formedness the parser does not guarantee: no field
/// list puts an unknown-type field right after a field whose rendering
/// ends with `@`. Such a pair renders as the block code `@?`, which reads
/// back as one field.
pub open spec fn unambiguous(e: Enc) -> bool
    decreases e, 0int,
{
    match e {
        Enc::Prim(_p) => true,
        Enc::BitField(_w, _elt) => true,
        Enc::Pointer(t) => unambiguous(*t),
        Enc::Atomic(t) => unambiguous(*t),
        Enc::Array(_n, t) => unambiguous(*t),
        Enc::Struct(_name, fields) => match fields {
            Option::Some(fs) => unambiguous_fields(fs),
            Option::None => true,
        },
        Enc::Union(_name, fields) => match fields {
            Option::Some(fs) => unambiguous_fields(fs),
            Option::None => true,
        },
    }
}

/// Companion of [`unambiguous`] for field lists.
pub open spec fn unambiguous_fields(fs: Seq<Enc>) -> bool
    decreases fs, 1int,
{
    if fs.len() == 0 {
        true
    } else {
        unambiguous(fs[0]) && (fs.len() > 1 ==> !(ends_object(fs[0]) && fs[1] == Enc::Prim(
            Primitive::Unknown,
        ))) && unambiguous_fields(fs.drop_first())
    }
}

/// Well-formedness is valid names together with unambiguity.
pub proof fn lemma_wf_from_parts(e: Enc)
    requires
        names_wf(e),
        unambiguous(e),
    ensures
        wf_enc(e),
    decreases e, 0int,
{
    match e {
        Enc::Pointer(t) => {
            lemma_wf_from_parts(*t);
        },
        Enc::Atomic(t) => {
            lemma_wf_from_parts(*t);
        },
        Enc::Array(_n, t) => {
            lemma_wf_from_parts(*t);
        },
        Enc::Struct(_name, fields) => {
            match fields {
                Option::Some(fs) => {
                    lemma_wf_fields_from_parts(fs);
                },
                Option::None => {},
            }
        },
        Enc::Union(_name, fields) => {
            match fields {
                Option::Some(fs) => {
                    lemma_wf_fields_from_parts(fs);
                },
                Option::None => {},
            }
        },
        _ => {},
    }
}

/// Companion of [`lemma_wf_from_parts`] for field lists.
pub proof fn lemma_wf_fields_from_parts(fs: Seq<Enc>)
    requires
        names_wf_fields(fs),
        unambiguous_fields(fs),
    ensures
        wf_fields(fs),
    decreases fs, 1int,
{
    if fs.len() > 0 {
        lemma_wf_from_parts(fs[0]);
        lemma_wf_fields_from_parts(fs.drop_first());
    }
}

/// A valid name over bytes is a valid name over the characters the bytes
/// spell.
pub proof fn lemma_name_chars(nb: Seq<u8>)
    requires
        s_valid_name(nb),
    ensures
        valid_name_chars(chars_of(nb)),
{
    if nb.len() == 1 && nb[0] == 63 {
        assert(chars_of(nb) =~= seq!['?']);
    } else {
        assert forall|k: int|
            0 <= k < chars_of(nb).len() implies is_ident_char(#[trigger] chars_of(nb)[k]) by {
            assert(is_ident_byte(nb[k]));
            assert(chars_of(nb)[k] == nb[k] as char);
        }
    }
}

/// Whatever the parser accepts has valid container names.
pub proof fn lemma_parse_enc_names(s: Seq<u8>, i: nat, d: nat)
    ensures
        match s_parse_enc(s, i, d) {
            Ok((e, _j)) => names_wf(e),
            Err(_) => true,
        },
    decreases s.len() - i, 0int,
{
    if d < MAX_NESTING_DEPTH {
        let q = scan_end(s, i, |b: u8| is_qualifier_byte(b));
        if q < s.len() && q >= i {
            lemma_parse_inner_names(s, (q + 1) as nat, d, s[q as int]);
        }
    }
}

/// Companion of [`lemma_parse_enc_names`] for atom bodies.
pub proof fn lemma_parse_inner_names(s: Seq<u8>, i: nat, d: nat, b: u8)
    ensures
        match s_parse_inner(s, i, d, b) {
            Ok((e, _j)) => names_wf(e),
            Err(_) => true,
        },
    decreases s.len() - i, 1int,
{
    if b == 94 || b == 65 {
        lemma_parse_enc_names(s, i, (d + 1) as nat);
    } else if b == 91 {
        match s_parse_int(s, i, usize::MAX as int) {
            Ok((_v, de)) => {
                if i < de && de <= s.len() {
                    lemma_parse_enc_names(s, de, (d + 1) as nat);
                }
            },
            Err(_e) => {},
        }
    } else if b == 123 {
        lemma_parse_container_names(s, i, (d + 1) as nat, ContainerKind::Struct);
    } else if b == 40 {
        lemma_parse_container_names(s, i, (d + 1) as nat, ContainerKind::Union);
    }
}

/// Companion of [`lemma_parse_enc_names`] for container bodies.
pub proof fn lemma_parse_container_names(s: Seq<u8>, i: nat, d: nat, kind: ContainerKind)
    ensures
        match s_parse_container(s, i, d, kind) {
            Ok((name, fields, _j)) => valid_name_chars(name) && match fields {
                Option::Some(fs) => names_wf_fields(fs),
                Option::None => true,
            },
            Err(_) => true,
        },
    decreases s.len() - i, 0int,
{
    let ne = scan_end(s, i, |b: u8| b != 61 && b != kind.spec_end_byte());
    if ne < s.len() {
        let nb = s.subrange(i as int, ne as int);
        if s_valid_name(nb) {
            lemma_name_chars(nb);
            if s[ne as int] != kind.spec_end_byte() && ne + 1 > i {
                lemma_parse_fields_names(s, (ne + 1) as nat, d, kind);
            }
        }
    }
}

/// Companion of [`lemma_parse_enc_names`] for field lists.
pub proof fn lemma_parse_fields_names(s: Seq<u8>, i: nat, d: nat, kind: ContainerKind)
    ensures
        match s_parse_fields(s, i, d, kind) {
            Ok((fs, _j)) => names_wf_fields(fs),
            Err(_) => true,
        },
    decreases s.len() - i, 1int,
{
    if i < s.len() && s[i as int] != kind.spec_end_byte() {
        lemma_parse_enc_names(s, i, d);
        match s_parse_enc(s, i, d) {
            Ok((e, j)) => {
                if i < j && j <= s.len() {
                    lemma_parse_fields_names(s, j, d, kind);
                    match s_parse_fields(s, j, d, kind) {
                        Ok((rest, _j2)) => {
                            let fs = seq![e] + rest;
                            assert(fs[0] == e);
                            assert(fs.drop_first() =~= rest);
                        },
                        Err(_e2) => {},
                    }
                }
            },
            Err(_e) => {},
        }
    }
}

/// How deeply compound encodings nest inside an encoding, counting only
/// nesting the parser has to descend into.
pub open spec fn enc_depth(e: Enc) -> nat
    decreases e, 0int,
{
    match e {
        Enc::Prim(_p) => 0,
        Enc::BitField(_w, _elt) => 0,
        Enc::Pointer(t) => 1 + enc_depth(*t),
        Enc::Atomic(t) => 1 + enc_depth(*t),
        Enc::Array(_n, t) => 1 + enc_depth(*t),
        Enc::Struct(_name, fields) => match fields {
            Option::Some(fs) => if fs.len() == 0 {
                0
            } else {
                1 + fields_depth(fs)
            },
            Option::None => 0,
        },
        Enc::Union(_name, fields) => match fields {
            Option::Some(fs) => if fs.len() == 0 {
                0
            } else {
                1 + fields_depth(fs)
            },
            Option::None => 0,
        },
    }
}

/// The deepest nesting among a list of fields.
pub open spec fn fields_depth(fs: Seq<Enc>) -> nat
    decreases fs, 1int,
{
    if fs.len() == 0 {
        0
    } else {
        let d0 = enc_depth(fs[0]);
        let dr = fields_depth(fs.drop_first());
        if d0 > dr {
            d0
        } else {
            dr
        }
    }
}

/// What parsing an encoding's rendering gives back: the same encoding,
/// except that field lists the rendering elided are gone, and bit-field
/// element kinds are gone.
pub open spec fn norm(e: Enc, lv: NestingLevel) -> Enc
    decreases e,
{
    match e {
        Enc::Prim(p) => Enc::Prim(p),
        Enc::BitField(w, _elt) => Enc::BitField(w, Option::None),
        Enc::Pointer(t) => Enc::Pointer(
            Box::new(norm(*t, lv.spec_indirection(IndirectionKind::Pointer))),
        ),
        Enc::Atomic(t) => Enc::Atomic(
            Box::new(norm(*t, lv.spec_indirection(IndirectionKind::Atomic))),
        ),
        Enc::Array(n, t) => Enc::Array(n, Box::new(norm(*t, lv.spec_array()))),
        Enc::Struct(name, fields) => Enc::Struct(name, norm_body(fields, lv)),
        Enc::Union(name, fields) => Enc::Union(name, norm_body(fields, lv)),
    }
}

/// Companion of [`norm`] for container bodies.
pub open spec fn norm_body(fields: Option<Seq<Enc>>, lv: NestingLevel) -> Option<Seq<Enc>>
    decreases fields,
{
    match fields {
        Option::Some(fs) => if lv.spec_include_fields() {
            Option::Some(norm_fields(fs, lv.spec_field_level()))
        } else {
            Option::None
        },
        Option::None => Option::None,
    }
}

/// Companion of [`norm`] for field lists.
pub open spec fn norm_fields(fs: Seq<Enc>, lv: NestingLevel) -> Seq<Enc>
    decreases fs,
{
    if fs.len() == 0 {
        Seq::<Enc>::empty()
    } else {
        seq![norm(fs[0], lv)] + norm_fields(fs.drop_first(), lv)
    }
}

/// An encoding's rendering, as the bytes the parser reads.
pub open spec fn render_b(e: Enc, lv: NestingLevel) -> Seq<u8> {
    bytes_of_chars(render(e, lv))
}

/// Whether the byte sequence `t` stands in `s` at position `i`.
pub open spec fn embedded(s: Seq<u8>, i: nat, t: Seq<u8>) -> bool {
    i + t.len() <= s.len() && forall|j: int| i <= j < i + t.len() ==> #[trigger] s[j] == t[j - i]
}

/// What must hold of the byte right after an encoding's rendering for the
/// parse to stop exactly there: no `?` after a trailing `@` (it would fuse
/// into a block code), and no digit after a trailing number.
pub open spec fn boundary_ok(e: Enc, s: Seq<u8>, j: nat) -> bool {
    (ends_object(e) ==> j >= s.len() || s[j as int] != 63) && (ends_digit(e) ==> j >= s.len()
        || !is_digit_byte(s[j as int]))
}

/// Mapping characters to bytes distributes over concatenation.
pub proof fn lemma_bytes_concat(x: Seq<char>, y: Seq<char>)
    ensures
        bytes_of_chars(x + y) == bytes_of_chars(x) + bytes_of_chars(y),
{
    assert(bytes_of_chars(x + y) =~= bytes_of_chars(x) + bytes_of_chars(y));
}

/// An embedding of a concatenation embeds both parts.
pub proof fn lemma_embedded_split(s: Seq<u8>, i: nat, a: Seq<u8>, b: Seq<u8>)
    requires
        embedded(s, i, a + b),
    ensures
        embedded(s, i, a),
        embedded(s, (i + a.len()) as nat, b),
{
    assert forall|j: int| i <= j < i + a.len() implies #[trigger] s[j] == a[j - i] by {
        assert(s[j] == (a + b)[j - i]);
    }
    assert forall|j: int| i + a.len() <= j < i + a.len() + b.len() implies #[trigger] s[j] == b[j
        - i - a.len()] by {
        assert(s[j] == (a + b)[j - i]);
    }
}

/// A run satisfying `p` up to a byte failing `p` scans to exactly there.
pub proof fn lemma_scan_end_exact(s: Seq<u8>, i: nat, j: nat, p: spec_fn(u8) -> bool)
    requires
        i <= j <= s.len(),
        forall|k: int| i <= k < j ==> p(#[trigger] s[k]),
        j == s.len() || !p(s[j as int]),
    ensures
        scan_end(s, i, p) == j,
    decreases j - i,
{
    if i < j {
        lemma_scan_end_exact(s, (i + 1) as nat, j, p);
    }
}

/// The decimal rendering of a number is a nonempty run of digits.
pub proof fn lemma_dec_digits(n: nat)
    ensures
        dec_digits(n).len() >= 1,
        forall|k: int|
            0 <= k < dec_digits(n).len() ==> is_digit_byte(#[trigger] dec_digits(n)[k] as u8),
    decreases n,
{
    if n >= 10 {
        lemma_dec_digits(n / 10);
        assert forall|k: int|
            0 <= k < dec_digits(n).len() implies is_digit_byte(
            #[trigger] dec_digits(n)[k] as u8,
        ) by {
            if k < dec_digits(n / 10).len() {
                assert(dec_digits(n)[k] == dec_digits(n / 10)[k]);
            } else {
                assert(dec_digits(n)[k] == digit_char(n % 10));
            }
        }
    }
}

/// Different numbers have different decimal renderings.
pub proof fn lemma_dec_digits_injective(a: nat, b: nat)
    requires
        a != b,
    ensures
        dec_digits(a) != dec_digits(b),
    decreases a + b,
{
    if dec_digits(a) == dec_digits(b) {
        lemma_dec_digits(a);
        lemma_dec_digits(b);
        if a < 10 && b < 10 {
            assert(dec_digits(a)[0] == digit_char(a));
            assert(dec_digits(b)[0] == digit_char(b));
            assert((48 + a) as u8 as char == (48 + b) as u8 as char);
            assert((48 + a) as u8 == (48 + b) as u8);
            assert(false);
        } else if a < 10 {
            assert(dec_digits(a).len() == 1);
            assert(dec_digits(b).len() == dec_digits(b / 10).len() + 1);
            assert(false);
        } else if b < 10 {
            assert(dec_digits(b).len() == 1);
            assert(dec_digits(a).len() == dec_digits(a / 10).len() + 1);
            assert(false);
        } else {
            assert(dec_digits(a).last() == digit_char(a % 10));
            assert(dec_digits(b).last() == digit_char(b % 10));
            assert((48 + a % 10) as u8 as char == (48 + b % 10) as u8 as char);
            assert((48 + a % 10) as u8 == (48 + b % 10) as u8);
            assert(a % 10 == b % 10);
            assert(dec_digits(a).drop_last() =~= dec_digits(a / 10));
            assert(dec_digits(b).drop_last() =~= dec_digits(b / 10));
            vstd::arithmetic::div_mod::lemma_fundamental_div_mod(a as int, 10);
            vstd::arithmetic::div_mod::lemma_fundamental_div_mod(b as int, 10);
            assert(a / 10 != b / 10);
            lemma_dec_digits_injective(a / 10, b / 10);
            assert(false);
        }
    }
}

/// Reading back the decimal rendering of a number gives the number.
pub proof fn lemma_dec_value_embedded(s: Seq<u8>, i: nat, n: nat)
    requires
        embedded(s, i, bytes_of_chars(dec_digits(n))),
    ensures
        dec_value(s, i, (i + dec_digits(n).len()) as nat) == n,
    decreases n,
{
    let ds = dec_digits(n);
    if n < 10 {
        assert(s[i as int] == bytes_of_chars(ds)[0]);
        assert(bytes_of_chars(ds)[0] == digit_char(n) as u8);
        assert(digit_char(n) as u8 == 48 + n);
        assert(dec_value(s, i, i as nat) == 0);
        assert(dec_value(s, i, (i + 1) as nat) == 10 * dec_value(s, i, i as nat) + (s[i as int]
            - 48));
    } else {
        let pre = dec_digits(n / 10);
        assert(ds == pre.push(digit_char(n % 10)));
        assert(bytes_of_chars(pre) + bytes_of_chars(seq![digit_char(n % 10)]) =~= bytes_of_chars(
            ds,
        ));
        lemma_embedded_split(s, i, bytes_of_chars(pre), bytes_of_chars(seq![digit_char(n % 10)]));
        lemma_dec_value_embedded(s, i, n / 10);
        let last = (i + ds.len() - 1) as int;
        assert(s[last] == bytes_of_chars(ds)[ds.len() - 1]);
        assert(bytes_of_chars(ds)[ds.len() - 1] == digit_char(n % 10) as u8);
        assert(digit_char(n % 10) as u8 == 48 + n % 10);
        assert(dec_value(s, i, (i + ds.len()) as nat) == 10 * dec_value(
            s,
            i,
            (i + ds.len() - 1) as nat,
        ) + (s[last] - 48));
        assert((i + ds.len() - 1) as nat == (i + pre.len()) as nat);
        vstd::arithmetic::div_mod::lemma_fundamental_div_mod(n as int, 10);
        assert(dec_value(s, i, (i + ds.len()) as nat) == 10 * (n / 10) + (n % 10));
    }
}

/// A valid name over characters is a valid name over its bytes, and the
/// bytes spell the characters back.
pub proof fn lemma_name_bytes(name: Seq<char>)
    requires
        valid_name_chars(name),
    ensures
        s_valid_name(bytes_of_chars(name)),
        chars_of(bytes_of_chars(name)) == name,
        forall|k: int|
            0 <= k < name.len() ==> (#[trigger] bytes_of_chars(name)[k]) != 61
                && bytes_of_chars(name)[k] != 125 && bytes_of_chars(name)[k] != 41,
{
    let nb = bytes_of_chars(name);
    if name == seq!['?'] {
        assert(nb[0] == '?' as u8);
        assert(chars_of(nb) =~= name);
    } else {
        assert forall|k: int| 0 <= k < name.len() implies is_ident_byte(#[trigger] nb[k]) by {
            assert(is_ident_char(name[k]));
            assert(nb[k] == name[k] as u8);
        }
        assert(chars_of(nb) =~= name);
    }
}

/// Deeper fields never exceed the deepest field.
pub proof fn lemma_fields_depth(fs: Seq<Enc>)
    requires
        fs.len() > 0,
    ensures
        enc_depth(fs[0]) <= fields_depth(fs),
        fields_depth(fs.drop_first()) <= fields_depth(fs),
{
}

/// Parsing an encoding's rendering: the parse succeeds, consumes exactly
/// the rendered bytes, and yields the rendering's read-back.
#[verifier::spinoff_prover]
#[verifier::rlimit(60)]
pub proof fn lemma_parse_render(s: Seq<u8>, i: nat, d: nat, e: Enc, lv: NestingLevel)
    requires
        wf_enc(e),
        d + enc_depth(e) < MAX_NESTING_DEPTH,
        embedded(s, i, render_b(e, lv)),
        boundary_ok(e, s, (i + render_b(e, lv).len()) as nat),
    ensures
        s_parse_enc(s, i, d) == Result::<(Enc, nat), (ErrorKind, nat)>::Ok(
            (norm(e, lv), (i + render_b(e, lv).len()) as nat),
        ),
    decreases e, 1int,
{
    let rb = render_b(e, lv);
    let j = (i + rb.len()) as nat;
    lemma_render_first(e, lv);
    assert(rb.len() == render(e, lv).len());
    assert(s[i as int] == rb[0]);
    assert(rb[0] == render(e, lv)[0] as u8);
    lemma_scan_end_exact(s, i, i, |b: u8| is_qualifier_byte(b));
    assert(i < s.len());
    match e {
        Enc::Prim(p) => {
            assert(render(e, lv) == prim_chars(p));
            if p == Primitive::FloatComplex || p == Primitive::DoubleComplex || p
                == Primitive::LongDoubleComplex || p == Primitive::Block {
                assert(s[i + 1 as int] == rb[1]);
                assert(rb[1] == render(e, lv)[1] as u8);
            }
            if p == Primitive::Object {
                assert(ends_object(e));
                assert(j == i + 1);
            }
            assert(s_parse_inner(s, (i + 1) as nat, d, s[i as int]) == Result::<
                (Enc, nat),
                (ErrorKind, nat),
            >::Ok((norm(e, lv), j)));
        },
        Enc::BitField(w, _elt) => {
            let ds = dec_digits(w as nat);
            lemma_bytes_concat(seq!['b'], ds);
            assert(bytes_of_chars(seq!['b']) =~= seq![98u8]);
            lemma_embedded_split(s, i, seq![98u8], bytes_of_chars(ds));
            lemma_dec_digits(w as nat);
            assert forall|k: int| i + 1 <= k < i + 1 + ds.len() implies is_digit_byte(
                #[trigger] s[k],
            ) by {
                assert(s[k] == bytes_of_chars(ds)[k - i - 1]);
            }
            assert(ends_digit(e));
            lemma_scan_end_exact(s, (i + 1) as nat, (i + 1 + ds.len()) as nat, |b: u8|
                is_digit_byte(b));
            lemma_dec_value_embedded(s, (i + 1) as nat, w as nat);
            crate::parse::lemma_dec_value_mono(
                s,
                (i + 1) as nat,
                (i + 1) as nat,
                (i + 1) as nat,
            );
            assert(s_parse_int(s, (i + 1) as nat, 255) == Result::<(int, nat), (ErrorKind, nat)>::Ok(
                (w as int, (i + 1 + ds.len()) as nat),
            ));
            assert(s_parse_inner(s, (i + 1) as nat, d, 98) == Result::<
                (Enc, nat),
                (ErrorKind, nat),
            >::Ok((norm(e, lv), j)));
        },
        Enc::Pointer(t) => {
            let lv2 = lv.spec_indirection(IndirectionKind::Pointer);
            lemma_bytes_concat(seq!['^'], render(*t, lv2));
            assert(bytes_of_chars(seq!['^']) =~= seq![94u8]);
            lemma_embedded_split(s, i, seq![94u8], render_b(*t, lv2));
            lemma_parse_render(s, (i + 1) as nat, (d + 1) as nat, *t, lv2);
            assert(s_parse_inner(s, (i + 1) as nat, d, 94) == Result::<
                (Enc, nat),
                (ErrorKind, nat),
            >::Ok((norm(e, lv), j)));
        },
        Enc::Atomic(t) => {
            let lv2 = lv.spec_indirection(IndirectionKind::Atomic);
            lemma_bytes_concat(seq!['A'], render(*t, lv2));
            assert(bytes_of_chars(seq!['A']) =~= seq![65u8]);
            lemma_embedded_split(s, i, seq![65u8], render_b(*t, lv2));
            lemma_parse_render(s, (i + 1) as nat, (d + 1) as nat, *t, lv2);
            assert(s_parse_inner(s, (i + 1) as nat, d, 65) == Result::<
                (Enc, nat),
                (ErrorKind, nat),
            >::Ok((norm(e, lv), j)));
        },
        Enc::Array(n, t) => {
            let lv2 = lv.spec_array();
            let ds = dec_digits(n as nat);
            let body = render(*t, lv2);
            assert(render(e, lv) == (seq!['['] + ds + body).push(']'));
            assert(seq!['['] + ds + body + seq![']'] =~= (seq!['['] + ds + body).push(']'));
            lemma_bytes_concat(seq!['['] + ds + body, seq![']']);
            lemma_bytes_concat(seq!['['] + ds, body);
            lemma_bytes_concat(seq!['['], ds);
            assert(bytes_of_chars(seq!['[']) =~= seq![91u8]);
            assert(bytes_of_chars(seq![']']) =~= seq![93u8]);
            assert(render_b(e, lv) == ((seq![91u8] + bytes_of_chars(ds)) + render_b(*t, lv2))
                + seq![93u8]) by {
                assert(render_b(e, lv) == bytes_of_chars((seq!['['] + ds + body) + seq![']']));
            }
            lemma_embedded_split(
                s,
                i,
                (seq![91u8] + bytes_of_chars(ds)) + render_b(*t, lv2),
                seq![93u8],
            );
            lemma_embedded_split(s, i, seq![91u8] + bytes_of_chars(ds), render_b(*t, lv2));
            lemma_embedded_split(s, i, seq![91u8], bytes_of_chars(ds));
            lemma_dec_digits(n as nat);
            assert forall|k: int| i + 1 <= k < i + 1 + ds.len() implies is_digit_byte(
                #[trigger] s[k],
            ) by {
                assert(s[k] == bytes_of_chars(ds)[k - i - 1]);
            }
            let de = (i + 1 + ds.len()) as nat;
            lemma_render_first(*t, lv2);
            assert(s[de as int] == render_b(*t, lv2)[0]);
            lemma_scan_end_exact(s, (i + 1) as nat, de, |b: u8| is_digit_byte(b));
            lemma_dec_value_embedded(s, (i + 1) as nat, n as nat);
            assert(s_parse_int(s, (i + 1) as nat, usize::MAX as int) == Result::<
                (int, nat),
                (ErrorKind, nat),
            >::Ok((n as int, de)));
            let jt = (de + render_b(*t, lv2).len()) as nat;
            assert(s[jt as int] == 93);
            lemma_parse_render(s, de, (d + 1) as nat, *t, lv2);
            assert(s_parse_inner(s, (i + 1) as nat, d, 91) == Result::<
                (Enc, nat),
                (ErrorKind, nat),
            >::Ok((norm(e, lv), j)));
        },
        Enc::Struct(name, fields) => {
            lemma_parse_render_container(s, i, d, e, name, fields, ContainerKind::Struct, lv);
        },
        Enc::Union(name, fields) => {
            lemma_parse_render_container(s, i, d, e, name, fields, ContainerKind::Union, lv);
        },
    }
}

/// The container case of [`lemma_parse_render`].
#[verifier::spinoff_prover]
#[verifier::rlimit(80)]
pub proof fn lemma_parse_render_container(
    s: Seq<u8>,
    i: nat,
    d: nat,
    e: Enc,
    name: Seq<char>,
    fields: Option<Seq<Enc>>,
    kind: ContainerKind,
    lv: NestingLevel,
)
    requires
        wf_enc(e),
        d + enc_depth(e) < MAX_NESTING_DEPTH,
        embedded(s, i, render_b(e, lv)),
        kind == ContainerKind::Struct ==> e == Enc::Struct(name, fields),
        kind == ContainerKind::Union ==> e == Enc::Union(name, fields),
        i < s.len(),
        scan_end(s, i, |b: u8| is_qualifier_byte(b)) == i,
    ensures
        s_parse_enc(s, i, d) == Result::<(Enc, nat), (ErrorKind, nat)>::Ok(
            (norm(e, lv), (i + render_b(e, lv).len()) as nat),
        ),
    decreases e, 0int,
{
    let rb = render_b(e, lv);
    let j = (i + rb.len()) as nat;
    let ob = kind.spec_start_byte();
    let cb = kind.spec_end_byte();
    let body = render_body(fields, lv);
    assert(render(e, lv) == (seq![ob as char] + name + body).push(cb as char)) by {
        assert(ob as char == if kind == ContainerKind::Struct {
            '{'
        } else {
            '('
        });
        assert(cb as char == if kind == ContainerKind::Struct {
            '}'
        } else {
            ')'
        });
        assert(seq![ob as char] + name + body + seq![cb as char] =~= (seq![ob as char] + name
            + body).push(cb as char));
    }
    lemma_bytes_concat(seq![ob as char] + name + body, seq![cb as char]);
    lemma_bytes_concat(seq![ob as char] + name, body);
    lemma_bytes_concat(seq![ob as char], name);
    assert(bytes_of_chars(seq![ob as char]) =~= seq![ob]);
    assert(bytes_of_chars(seq![cb as char]) =~= seq![cb]);
    let nb = bytes_of_chars(name);
    let bb = bytes_of_chars(body);
    assert(rb == ((seq![ob] + nb) + bb) + seq![cb]) by {
        assert(rb == bytes_of_chars((seq![ob as char] + name + body) + seq![cb as char]));
    }
    lemma_embedded_split(s, i, (seq![ob] + nb) + bb, seq![cb]);
    lemma_embedded_split(s, i, seq![ob] + nb, bb);
    lemma_embedded_split(s, i, seq![ob], nb);
    assert(valid_name_chars(name));
    lemma_name_bytes(name);
    let ne = (i + 1 + nb.len()) as nat;
    let namepred = |b: u8| b != 61 && b != cb;
    assert forall|k: int| i + 1 <= k < ne implies namepred(#[trigger] s[k]) by {
        assert(s[k] == nb[k - i - 1]);
    }
    // the byte after the name is either the closing byte or `=`
    let after = s[ne as int];
    assert(bb.len() == body.len());
    if body.len() == 0 {
        assert(ne == j - 1);
        assert(s[j - 1] == cb);
        assert(!namepred(after));
    } else {
        assert(body == seq!['='] + render_fields(fields->Some_0, lv.spec_field_level()));
        assert(s[ne as int] == bb[0]);
        assert(bb[0] == body[0] as u8);
        assert(after == 61);
        assert(!namepred(after));
    }
    lemma_scan_end_exact(s, (i + 1) as nat, ne, namepred);
    assert(s.subrange((i + 1) as int, ne as int) =~= nb);
    assert(s_valid_name(nb));
    assert(s[i as int] == ob) by {
        assert(s[i as int] == rb[0]);
    }
    if body.len() == 0 {
        // opaque rendering: the name is followed directly by the closing byte
        assert(s_parse_container(s, (i + 1) as nat, (d + 1) as nat, kind) == Result::<
            (Seq<char>, Option<Seq<Enc>>, nat),
            (ErrorKind, nat),
        >::Ok((name, Option::None, (ne + 1) as nat)));
        assert(norm_body(fields, lv) == Option::<Seq<Enc>>::None);
        assert(s_parse_inner(s, (i + 1) as nat, d, ob) == Result::<(Enc, nat), (ErrorKind, nat)>::Ok(
            (norm(e, lv), j),
        ));
        assert(s_parse_enc(s, i, d) == Result::<(Enc, nat), (ErrorKind, nat)>::Ok(
            (norm(e, lv), j),
        ));
    } else {
        let fs = fields->Some_0;
        let fl = render_fields(fs, lv.spec_field_level());
        lemma_bytes_concat(seq!['='], fl);
        assert(bytes_of_chars(seq!['=']) =~= seq![61u8]);
        lemma_embedded_split(s, ne, seq![61u8], bytes_of_chars(fl));
        assert(s[j - 1] == cb);
        if fs.len() > 0 {
            assert(enc_depth(e) == 1 + fields_depth(fs));
        }
        lemma_parse_render_fields(s, (ne + 1) as nat, (d + 1) as nat, fs, kind, lv.spec_field_level());
        assert(s_parse_container(s, (i + 1) as nat, (d + 1) as nat, kind) == Result::<
            (Seq<char>, Option<Seq<Enc>>, nat),
            (ErrorKind, nat),
        >::Ok((name, Option::Some(norm_fields(fs, lv.spec_field_level())), j)));
        assert(norm_body(fields, lv) == Option::Some(norm_fields(fs, lv.spec_field_level())));
        assert(s_parse_inner(s, (i + 1) as nat, d, ob) == Result::<(Enc, nat), (ErrorKind, nat)>::Ok(
            (norm(e, lv), j),
        ));
        assert(s_parse_enc(s, i, d) == Result::<(Enc, nat), (ErrorKind, nat)>::Ok(
            (norm(e, lv), j),
        ));
    }
}

/// The field-list case of [`lemma_parse_render`]: a rendered field list
/// followed by the closing byte parses to the read-back of each field, and
/// consumes up to and including the closing byte.
pub proof fn lemma_parse_render_fields(
    s: Seq<u8>,
    i: nat,
    d: nat,
    fs: Seq<Enc>,
    kind: ContainerKind,
    lv: NestingLevel,
)
    requires
        wf_fields(fs),
        lv == NestingLevel::Bottom,
        fs.len() > 0 ==> d + fields_depth(fs) < MAX_NESTING_DEPTH,
        embedded(s, i, bytes_of_chars(render_fields(fs, lv))),
        i + render_fields(fs, lv).len() < s.len(),
        s[(i + render_fields(fs, lv).len()) as int] == kind.spec_end_byte(),
    ensures
        s_parse_fields(s, i, d, kind) == Result::<(Seq<Enc>, nat), (ErrorKind, nat)>::Ok(
            (norm_fields(fs, lv), (i + render_fields(fs, lv).len() + 1) as nat),
        ),
    decreases fs, 2int,

{
    let fl = render_fields(fs, lv);
    if fs.len() == 0 {
        assert(s[i as int] == kind.spec_end_byte());
    } else {
        let f0 = fs[0];
        let r0 = render(f0, lv);
        let rest = render_fields(fs.drop_first(), lv);
        assert(fl == r0 + rest);
        lemma_bytes_concat(r0, rest);
        lemma_embedded_split(s, i, bytes_of_chars(r0), bytes_of_chars(rest));
        lemma_render_first(f0, lv);
        let j0 = (i + r0.len()) as nat;
        // what stands right after this field: the next field's first byte,
        // or the closing byte
        if fs.len() > 1 {
            lemma_render_first(fs[1], lv);
            assert(rest == render(fs[1], lv) + render_fields(
                fs.drop_first().drop_first(),
                lv,
            )) by {
                assert(fs.drop_first()[0] == fs[1]);
                assert(fs.drop_first().drop_first() =~= fs.drop_first().drop_first());
            }
            assert(s[j0 as int] == bytes_of_chars(rest)[0]);
            assert(bytes_of_chars(rest)[0] == render(fs[1], lv)[0] as u8);
            assert(boundary_ok(f0, s, j0)) by {
                if ends_object(f0) {
                    assert(!(fs[1] == Enc::Prim(Primitive::Unknown)));
                    assert(render(fs[1], lv)[0] as u8 != 63);
                }
            }
        } else {
            assert(rest.len() == 0);
            assert(fl =~= r0);
            assert(s[j0 as int] == kind.spec_end_byte());
            assert(boundary_ok(f0, s, j0));
        }
        lemma_fields_depth(fs);
        lemma_parse_render(s, i, d, f0, lv);
        assert(s[i as int] == render(f0, lv)[0] as u8);
        assert(s[i as int] != kind.spec_end_byte());
        assert(i < s.len());
        // the remaining fields, shifted past the first one
        assert(embedded(s, j0, bytes_of_chars(rest)));
        lemma_parse_render_fields(s, j0, d, fs.drop_first(), kind, lv);
        assert(r0.len() > 0);
        assert(s_parse_fields(s, i, d, kind) == Result::<(Seq<Enc>, nat), (ErrorKind, nat)>::Ok(
            (seq![norm(f0, lv)] + norm_fields(fs.drop_first(), lv), (i + fl.len() + 1) as nat),
        ));
        assert(norm_fields(fs, lv) == seq![norm(f0, lv)] + norm_fields(fs.drop_first(), lv));
    }
}

/// What parsing gives back describes the same runtime type as what was
/// rendered: the read-back of an encoding is equivalent to the encoding,
/// at every level.
pub proof fn lemma_norm_eq(e: Enc, lv: NestingLevel)
    ensures
        enc_eq_at(norm(e, lv), e, lv),
    decreases e, 0int,
{
    match e {
        Enc::Pointer(t) => {
            lemma_norm_eq(*t, lv.spec_indirection(IndirectionKind::Pointer));
        },
        Enc::Atomic(t) => {
            lemma_norm_eq(*t, lv.spec_indirection(IndirectionKind::Atomic));
        },
        Enc::Array(_n, t) => {
            lemma_norm_eq(*t, lv.spec_array());
        },
        Enc::Struct(_n, fields) => {
            match fields {
                Option::Some(fs) => {
                    if lv.spec_include_fields() {
                        lemma_norm_fields_eq(fs, lv.spec_field_level());
                    }
                },
                Option::None => {},
            }
            assert(bodies_eq_at(norm_body(fields, lv), fields, lv));
        },
        Enc::Union(_n, fields) => {
            match fields {
                Option::Some(fs) => {
                    if lv.spec_include_fields() {
                        lemma_norm_fields_eq(fs, lv.spec_field_level());
                    }
                },
                Option::None => {},
            }
            assert(bodies_eq_at(norm_body(fields, lv), fields, lv));
        },
        _ => {},
    }
}

/// Companion of [`lemma_norm_eq`] for field lists.
pub proof fn lemma_norm_fields_eq(fs: Seq<Enc>, lv: NestingLevel)
    ensures
        norm_fields(fs, lv).len() == fs.len(),
        fields_eq_at(norm_fields(fs, lv), fs, lv),
    decreases fs, 1int,
{
    if fs.len() > 0 {
        lemma_norm_eq(fs[0], lv);
        lemma_norm_fields_eq(fs.drop_first(), lv);
        assert(norm_fields(fs, lv)[0] == norm(fs[0], lv));
        assert(norm_fields(fs, lv).drop_first() =~= norm_fields(fs.drop_first(), lv));
    }
}

/// Whatever the parser accepts fits under the nesting cap, measured from
/// the depth it was parsed at.
pub proof fn lemma_parse_depth(s: Seq<u8>, i: nat, d: nat)
    ensures
        match s_parse_enc(s, i, d) {
            Ok((e, _j)) => d + enc_depth(e) < MAX_NESTING_DEPTH,
            Err(_) => true,
        },
    decreases s.len() - i, 0int,
{
    if d < MAX_NESTING_DEPTH {
        let q = scan_end(s, i, |b: u8| is_qualifier_byte(b));
        if q < s.len() && q >= i {
            lemma_parse_inner_depth(s, (q + 1) as nat, d, s[q as int]);
        }
    }
}

/// Companion of [`lemma_parse_depth`] for atom bodies.
pub proof fn lemma_parse_inner_depth(s: Seq<u8>, i: nat, d: nat, b: u8)
    requires
        d < MAX_NESTING_DEPTH,
    ensures
        match s_parse_inner(s, i, d, b) {
            Ok((e, _j)) => d + enc_depth(e) < MAX_NESTING_DEPTH,
            Err(_) => true,
        },
    decreases s.len() - i, 1int,
{
    if b == 94 || b == 65 {
        lemma_parse_depth(s, i, (d + 1) as nat);
    } else if b == 91 {
        match s_parse_int(s, i, usize::MAX as int) {
            Ok((_v, de)) => {
                if i < de && de <= s.len() {
                    lemma_parse_depth(s, de, (d + 1) as nat);
                }
            },
            Err(_e) => {},
        }
    } else if b == 123 {
        lemma_parse_container_depth(s, i, (d + 1) as nat, ContainerKind::Struct);
    } else if b == 40 {
        lemma_parse_container_depth(s, i, (d + 1) as nat, ContainerKind::Union);
    }
}

/// The deepest field is one of the fields.
pub proof fn lemma_fields_depth_from_elems(fs: Seq<Enc>, m: nat)
    requires
        forall|k: int| 0 <= k < fs.len() ==> enc_depth(#[trigger] fs[k]) < m,
        fs.len() > 0,
    ensures
        fields_depth(fs) < m,
    decreases fs,
{
    assert(enc_depth(fs[0]) < m);
    if fs.len() > 1 {
        assert forall|k: int|
            0 <= k < fs.drop_first().len() implies enc_depth(#[trigger] fs.drop_first()[k])
            < m by {
            assert(fs.drop_first()[k] == fs[k + 1]);
        }
        lemma_fields_depth_from_elems(fs.drop_first(), m);
    } else {
        assert(fields_depth(fs.drop_first()) == 0);
    }
}

/// Companion of [`lemma_parse_depth`] for container bodies.
pub proof fn lemma_parse_container_depth(s: Seq<u8>, i: nat, d: nat, kind: ContainerKind)
    ensures
        match s_parse_container(s, i, d, kind) {
            Ok((_n, fields, _j)) => match fields {
                Option::Some(fs) => fs.len() > 0 ==> d + fields_depth(fs) < MAX_NESTING_DEPTH,
                Option::None => true,
            },
            Err(_) => true,
        },
    decreases s.len() - i, 0int,
{
    let ne = scan_end(s, i, |b: u8| b != 61 && b != kind.spec_end_byte());
    if ne < s.len() {
        let name = s.subrange(i as int, ne as int);
        if s_valid_name(name) && s[ne as int] != kind.spec_end_byte() && ne + 1 > i {
            lemma_parse_fields_depth(s, (ne + 1) as nat, d, kind);
            match s_parse_fields(s, (ne + 1) as nat, d, kind) {
                Ok((fs, _j)) => {
                    if fs.len() > 0 {
                        assert forall|k: int|
                            0 <= k < fs.len() implies enc_depth(#[trigger] fs[k])
                            < MAX_NESTING_DEPTH - d by {}
                        lemma_fields_depth_from_elems(fs, (MAX_NESTING_DEPTH - d) as nat);
                    }
                },
                Err(_e) => {},
            }
        }
    }
}

/// Companion of [`lemma_parse_depth`] for field lists.
pub proof fn lemma_parse_fields_depth(s: Seq<u8>, i: nat, d: nat, kind: ContainerKind)
    ensures
        match s_parse_fields(s, i, d, kind) {
            Ok((fs, _j)) => forall|k: int|
                0 <= k < fs.len() ==> d + enc_depth(#[trigger] fs[k]) < MAX_NESTING_DEPTH,
            Err(_) => true,
        },
    decreases s.len() - i, 1int,
{
    if i < s.len() && s[i as int] != kind.spec_end_byte() {
        lemma_parse_depth(s, i, d);
        match s_parse_enc(s, i, d) {
            Ok((e, j)) => {
                if i < j && j <= s.len() {
                    lemma_parse_fields_depth(s, j, d, kind);
                    match s_parse_fields(s, j, d, kind) {
                        Ok((rest, _j2)) => {
                            let fs = seq![e] + rest;
                            assert(fs[0] == e);
                            assert forall|k: int|
                                0 <= k < fs.len() implies d + enc_depth(#[trigger] fs[k])
                                < MAX_NESTING_DEPTH by {
                                if k > 0 {
                                    assert(fs[k] == rest[k - 1]);
                                }
                            }
                        },
                        Err(_e2) => {},
                    }
                }
            },
            Err(_e) => {},
        }
    }
}

/// A rendering whose last code is `@`, followed directly by a `?`: the
/// parse succeeds, reading the `?` as part of a block code, and stops
/// right after it.
pub proof fn lemma_parse_render_fused(s: Seq<u8>, i: nat, d: nat, e: Enc, lv: NestingLevel)
    requires
        ends_object(e),
        d + enc_depth(e) < MAX_NESTING_DEPTH,
        embedded(s, i, render_b(e, lv)),
        i + render_b(e, lv).len() < s.len(),
        s[(i + render_b(e, lv).len()) as int] == 63,
    ensures
        match s_parse_enc(s, i, d) {
            Ok((_x, j)) => j == i + render_b(e, lv).len() + 1,
            Err(_) => false,
        },
    decreases e,
{
    let rb = render_b(e, lv);
    lemma_render_first(e, lv);
    assert(rb.len() == render(e, lv).len());
    assert(s[i as int] == rb[0]);
    assert(rb[0] == render(e, lv)[0] as u8);
    lemma_scan_end_exact(s, i, i, |b: u8| is_qualifier_byte(b));
    match e {
        Enc::Prim(_p) => {
            // the object code `@` fuses with the `?` into a block code
            assert(render(e, lv) == prim_chars(Primitive::Object));
            assert(s[i + 1 as int] == 63);
            assert(s_parse_inner(s, (i + 1) as nat, d, 64) == Result::<
                (Enc, nat),
                (ErrorKind, nat),
            >::Ok((Enc::Prim(Primitive::Block), (i + 2) as nat)));
        },
        Enc::Pointer(t) => {
            let lv2 = lv.spec_indirection(IndirectionKind::Pointer);
            lemma_bytes_concat(seq!['^'], render(*t, lv2));
            assert(bytes_of_chars(seq!['^']) =~= seq![94u8]);
            lemma_embedded_split(s, i, seq![94u8], render_b(*t, lv2));
            lemma_parse_render_fused(s, (i + 1) as nat, (d + 1) as nat, *t, lv2);
        },
        Enc::Atomic(t) => {
            let lv2 = lv.spec_indirection(IndirectionKind::Atomic);
            lemma_bytes_concat(seq!['A'], render(*t, lv2));
            assert(bytes_of_chars(seq!['A']) =~= seq![65u8]);
            lemma_embedded_split(s, i, seq![65u8], render_b(*t, lv2));
            lemma_parse_render_fused(s, (i + 1) as nat, (d + 1) as nat, *t, lv2);
        },
        _ => {},
    }
}

/// Parsing an encoding's rendering never errs: even without the
/// unambiguity condition the parse succeeds and consumes exactly the
/// rendered bytes, though the value read back may group fields otherwise.
pub proof fn lemma_parse_render_ok(s: Seq<u8>, i: nat, d: nat, e: Enc, lv: NestingLevel)
    requires
        names_wf(e),
        d + enc_depth(e) < MAX_NESTING_DEPTH,
        embedded(s, i, render_b(e, lv)),
        boundary_ok(e, s, (i + render_b(e, lv).len()) as nat),
    ensures
        match s_parse_enc(s, i, d) {
            Ok((_x, j)) => j == i + render_b(e, lv).len(),
            Err(_) => false,
        },
    decreases e, 1int,
{
    if unambiguous(e) {
        lemma_wf_from_parts(e);
        lemma_parse_render(s, i, d, e, lv);
    } else {
        let rb = render_b(e, lv);
        let j = (i + rb.len()) as nat;
        lemma_render_first(e, lv);
        assert(rb.len() == render(e, lv).len());
        assert(s[i as int] == rb[0]);
        assert(rb[0] == render(e, lv)[0] as u8);
        lemma_scan_end_exact(s, i, i, |b: u8| is_qualifier_byte(b));
        assert(i < s.len());
        match e {
            Enc::Pointer(t) => {
                let lv2 = lv.spec_indirection(IndirectionKind::Pointer);
                lemma_bytes_concat(seq!['^'], render(*t, lv2));
                assert(bytes_of_chars(seq!['^']) =~= seq![94u8]);
                lemma_embedded_split(s, i, seq![94u8], render_b(*t, lv2));
                lemma_parse_render_ok(s, (i + 1) as nat, (d + 1) as nat, *t, lv2);
            },
            Enc::Atomic(t) => {
                let lv2 = lv.spec_indirection(IndirectionKind::Atomic);
                lemma_bytes_concat(seq!['A'], render(*t, lv2));
                assert(bytes_of_chars(seq!['A']) =~= seq![65u8]);
                lemma_embedded_split(s, i, seq![65u8], render_b(*t, lv2));
                lemma_parse_render_ok(s, (i + 1) as nat, (d + 1) as nat, *t, lv2);
            },
            Enc::Array(n, t) => {
                let lv2 = lv.spec_array();
                let ds = dec_digits(n as nat);
                let body = render(*t, lv2);
                assert(render(e, lv) == (seq!['['] + ds + body).push(']'));
                assert(seq!['['] + ds + body + seq![']'] =~= (seq!['['] + ds + body).push(']'));
                lemma_bytes_concat(seq!['['] + ds + body, seq![']']);
                lemma_bytes_concat(seq!['['] + ds, body);
                lemma_bytes_concat(seq!['['], ds);
                assert(bytes_of_chars(seq!['[']) =~= seq![91u8]);
                assert(bytes_of_chars(seq![']']) =~= seq![93u8]);
                assert(render_b(e, lv) == ((seq![91u8] + bytes_of_chars(ds)) + render_b(*t, lv2))
                    + seq![93u8]) by {
                    assert(render_b(e, lv) == bytes_of_chars(
                        (seq!['['] + ds + body) + seq![']'],
                    ));
                }
                lemma_embedded_split(
                    s,
                    i,
                    (seq![91u8] + bytes_of_chars(ds)) + render_b(*t, lv2),
                    seq![93u8],
                );
                lemma_embedded_split(s, i, seq![91u8] + bytes_of_chars(ds), render_b(*t, lv2));
                lemma_embedded_split(s, i, seq![91u8], bytes_of_chars(ds));
                lemma_dec_digits(n as nat);
                assert forall|k: int| i + 1 <= k < i + 1 + ds.len() implies is_digit_byte(
                    #[trigger] s[k],
                ) by {
                    assert(s[k] == bytes_of_chars(ds)[k - i - 1]);
                }
                let de = (i + 1 + ds.len()) as nat;
                lemma_render_first(*t, lv2);
                assert(s[de as int] == render_b(*t, lv2)[0]);
                lemma_scan_end_exact(s, (i + 1) as nat, de, |b: u8| is_digit_byte(b));
                lemma_dec_value_embedded(s, (i + 1) as nat, n as nat);
                assert(s_parse_int(s, (i + 1) as nat, usize::MAX as int) == Result::<
                    (int, nat),
                    (ErrorKind, nat),
                >::Ok((n as int, de)));
                let jt = (de + render_b(*t, lv2).len()) as nat;
                assert(s[jt as int] == 93);
                lemma_parse_render_ok(s, de, (d + 1) as nat, *t, lv2);
            },
            Enc::Struct(name, fields) => {
                lemma_parse_render_ok_container(
                    s,
                    i,
                    d,
                    e,
                    name,
                    fields,
                    ContainerKind::Struct,
                    lv,
                );
            },
            Enc::Union(name, fields) => {
                lemma_parse_render_ok_container(s, i, d, e, name, fields, ContainerKind::Union, lv);
            },
            _ => {
                // primitives and bit-fields are always unambiguous
                assert(false);
            },
        }
    }
}

/// The container case of [`lemma_parse_render_ok`].
#[verifier::spinoff_prover]
#[verifier::rlimit(80)]
pub proof fn lemma_parse_render_ok_container(
    s: Seq<u8>,
    i: nat,
    d: nat,
    e: Enc,
    name: Seq<char>,
    fields: Option<Seq<Enc>>,
    kind: ContainerKind,
    lv: NestingLevel,
)
    requires
        names_wf(e),
        d + enc_depth(e) < MAX_NESTING_DEPTH,
        embedded(s, i, render_b(e, lv)),
        kind == ContainerKind::Struct ==> e == Enc::Struct(name, fields),
        kind == ContainerKind::Union ==> e == Enc::Union(name, fields),
        i < s.len(),
        scan_end(s, i, |b: u8| is_qualifier_byte(b)) == i,
    ensures
        match s_parse_enc(s, i, d) {
            Ok((_x, j)) => j == i + render_b(e, lv).len(),
            Err(_) => false,
        },
    decreases e, 0int,
{
    let rb = render_b(e, lv);
    let j = (i + rb.len()) as nat;
    let ob = kind.spec_start_byte();
    let cb = kind.spec_end_byte();
    let body = render_body(fields, lv);
    assert(render(e, lv) == (seq![ob as char] + name + body).push(cb as char)) by {
        assert(ob as char == if kind == ContainerKind::Struct {
            '{'
        } else {
            '('
        });
        assert(cb as char == if kind == ContainerKind::Struct {
            '}'
        } else {
            ')'
        });
        assert(seq![ob as char] + name + body + seq![cb as char] =~= (seq![ob as char] + name
            + body).push(cb as char));
    }
    lemma_bytes_concat(seq![ob as char] + name + body, seq![cb as char]);
    lemma_bytes_concat(seq![ob as char] + name, body);
    lemma_bytes_concat(seq![ob as char], name);
    assert(bytes_of_chars(seq![ob as char]) =~= seq![ob]);
    assert(bytes_of_chars(seq![cb as char]) =~= seq![cb]);
    let nb = bytes_of_chars(name);
    let bb = bytes_of_chars(body);
    assert(rb == ((seq![ob] + nb) + bb) + seq![cb]) by {
        assert(rb == bytes_of_chars((seq![ob as char] + name + body) + seq![cb as char]));
    }
    lemma_embedded_split(s, i, (seq![ob] + nb) + bb, seq![cb]);
    lemma_embedded_split(s, i, seq![ob] + nb, bb);
    lemma_embedded_split(s, i, seq![ob], nb);
    assert(valid_name_chars(name));
    lemma_name_bytes(name);
    let ne = (i + 1 + nb.len()) as nat;
    let namepred = |b: u8| b != 61 && b != cb;
    assert forall|k: int| i + 1 <= k < ne implies namepred(#[trigger] s[k]) by {
        assert(s[k] == nb[k - i - 1]);
    }
    let after = s[ne as int];
    assert(bb.len() == body.len());
    if body.len() == 0 {
        assert(ne == j - 1);
        assert(s[j - 1] == cb);
        assert(!namepred(after));
    } else {
        assert(body == seq!['='] + render_fields(fields->Some_0, lv.spec_field_level()));
        assert(s[ne as int] == bb[0]);
        assert(bb[0] == body[0] as u8);
        assert(after == 61);
        assert(!namepred(after));
    }
    lemma_scan_end_exact(s, (i + 1) as nat, ne, namepred);
    assert(s.subrange((i + 1) as int, ne as int) =~= nb);
    assert(s_valid_name(nb));
    assert(s[i as int] == ob) by {
        assert(s[i as int] == rb[0]);
    }
    if body.len() == 0 {
        assert(s_parse_container(s, (i + 1) as nat, (d + 1) as nat, kind) == Result::<
            (Seq<char>, Option<Seq<Enc>>, nat),
            (ErrorKind, nat),
        >::Ok((name, Option::None, (ne + 1) as nat)));
    } else {
        let fs = fields->Some_0;
        let fl = render_fields(fs, lv.spec_field_level());
        lemma_bytes_concat(seq!['='], fl);
        assert(bytes_of_chars(seq!['=']) =~= seq![61u8]);
        lemma_embedded_split(s, ne, seq![61u8], bytes_of_chars(fl));
        assert(s[j - 1] == cb);
        if fs.len() > 0 {
            assert(enc_depth(e) == 1 + fields_depth(fs));
        }
        lemma_parse_render_ok_fields(
            s,
            (ne + 1) as nat,
            (d + 1) as nat,
            fs,
            kind,
            lv.spec_field_level(),
        );
    }
}

/// The field-list case of [`lemma_parse_render_ok`]: a rendered field list
/// followed by the closing byte parses without error, up to and including
/// the closing byte, though an object directly before an unknown is read
/// back as one block field.
pub proof fn lemma_parse_render_ok_fields(
    s: Seq<u8>,
    i: nat,
    d: nat,
    fs: Seq<Enc>,
    kind: ContainerKind,
    lv: NestingLevel,
)
    requires
        names_wf_fields(fs),
        lv == NestingLevel::Bottom,
        fs.len() > 0 ==> d + fields_depth(fs) < MAX_NESTING_DEPTH,
        embedded(s, i, bytes_of_chars(render_fields(fs, lv))),
        i + render_fields(fs, lv).len() < s.len(),
        s[(i + render_fields(fs, lv).len()) as int] == kind.spec_end_byte(),
    ensures
        match s_parse_fields(s, i, d, kind) {
            Ok((_x, j)) => j == i + render_fields(fs, lv).len() + 1,
            Err(_) => false,
        },
    decreases fs, 2int,
{
    let fl = render_fields(fs, lv);
    if fs.len() == 0 {
        assert(s[i as int] == kind.spec_end_byte());
    } else {
        let f0 = fs[0];
        let r0 = render(f0, lv);
        let rest = render_fields(fs.drop_first(), lv);
        assert(fl == r0 + rest);
        lemma_bytes_concat(r0, rest);
        lemma_embedded_split(s, i, bytes_of_chars(r0), bytes_of_chars(rest));
        lemma_render_first(f0, lv);
        let j0 = (i + r0.len()) as nat;
        lemma_fields_depth(fs);
        assert(s[i as int] == render(f0, lv)[0] as u8);
        assert(s[i as int] != kind.spec_end_byte());
        assert(i < s.len());
        if fs.len() > 1 && ends_object(f0) && fs[1] == Enc::Prim(Primitive::Unknown) {
            // the object code and the following unknown code fuse into one
            // block field; the parse still stops exactly after the pair
            lemma_render_first(fs[1], lv);
            assert(fs.drop_first()[0] == fs[1]);
            assert(rest == render(fs[1], lv) + render_fields(fs.drop_first().drop_first(), lv));
            assert(s[j0 as int] == bytes_of_chars(rest)[0]);
            assert(bytes_of_chars(rest)[0] == render(fs[1], lv)[0] as u8);
            assert(render(fs[1], lv) == prim_chars(Primitive::Unknown));
            assert(s[j0 as int] == 63);
            lemma_parse_render_fused(s, i, d, f0, lv);
            let j1 = (j0 + 1) as nat;
            let rest2 = render_fields(fs.drop_first().drop_first(), lv);
            lemma_bytes_concat(render(fs[1], lv), rest2);
            assert(bytes_of_chars(render(fs[1], lv)) =~= seq![63u8]);
            lemma_embedded_split(s, j0, seq![63u8], bytes_of_chars(rest2));
            assert(names_wf_fields(fs.drop_first().drop_first())) by {
                assert(names_wf_fields(fs.drop_first()));
            }
            if fs.drop_first().drop_first().len() > 0 {
                lemma_fields_depth(fs.drop_first());
            }
            assert(fl.len() == r0.len() + 1 + rest2.len()) by {
                assert(rest.len() == render(fs[1], lv).len() + rest2.len());
            }
            lemma_parse_render_ok_fields(s, j1, d, fs.drop_first().drop_first(), kind, lv);
            assert(r0.len() > 0);
        } else {
            if fs.len() > 1 {
                lemma_render_first(fs[1], lv);
                assert(rest == render(fs[1], lv) + render_fields(
                    fs.drop_first().drop_first(),
                    lv,
                )) by {
                    assert(fs.drop_first()[0] == fs[1]);
                }
                assert(s[j0 as int] == bytes_of_chars(rest)[0]);
                assert(bytes_of_chars(rest)[0] == render(fs[1], lv)[0] as u8);
                assert(boundary_ok(f0, s, j0)) by {
                    if ends_object(f0) {
                        assert(!(fs[1] == Enc::Prim(Primitive::Unknown)));
                        assert(render(fs[1], lv)[0] as u8 != 63);
                    }
                }
            } else {
                assert(rest.len() == 0);
                assert(fl =~= r0);
                assert(s[j0 as int] == kind.spec_end_byte());
                assert(boundary_ok(f0, s, j0));
            }
            lemma_parse_render_ok(s, i, d, f0, lv);
            assert(embedded(s, j0, bytes_of_chars(rest)));
            lemma_parse_render_ok_fields(s, j0, d, fs.drop_first(), kind, lv);
            assert(r0.len() > 0);
        }
    }
}

/// Every string the formatter can produce parses without error and is
/// fully consumed: the parser is total on the formatter's range.
pub proof fn theorem_formatter_output_parses(e: Enc)
    requires
        names_wf(e),
        enc_depth(e) < MAX_NESTING_DEPTH,
    ensures
        s_parse_top(render_b(e, NestingLevel::Top)) is Ok,
{
    let s = render_b(e, NestingLevel::Top);
    assert(embedded(s, 0, s));
    lemma_parse_render_ok(s, 0, 0, e, NestingLevel::Top);
}

/// Every unambiguous rendering parses back to exactly the rendering's
/// read-back: the sharper form of the parser's totality on the formatter's
/// range.
pub proof fn theorem_formatter_output_roundtrips(e: Enc)
    requires
        wf_enc(e),
        enc_depth(e) < MAX_NESTING_DEPTH,
    ensures
        s_parse_top(render_b(e, NestingLevel::Top)) == Result::<(Enc, nat), (ErrorKind, nat)>::Ok(
            (norm(e, NestingLevel::Top), render_b(e, NestingLevel::Top).len() as nat),
        ),
{
    let s = render_b(e, NestingLevel::Top);
    assert(embedded(s, 0, s));
    lemma_parse_render(s, 0, 0, e, NestingLevel::Top);
}

/// Round-trip: an encoding the parser produced, rendered and parsed again,
/// comes back as an encoding that describes the same runtime type. Holds
/// for every unambiguous parse result; everything else the rendering needs
/// (valid names, nesting under the cap) the parse itself guarantees.
pub proof fn theorem_round_trip(s: Seq<u8>, e: Enc, j: nat)
    requires
        s_parse_top(s) == Result::<(Enc, nat), (ErrorKind, nat)>::Ok((e, j)),
        unambiguous(e),
    ensures
        ({
            let reparsed = s_parse_top(render_b(e, NestingLevel::Top));
            reparsed is Ok && enc_eq(reparsed->Ok_0.0, e)
        }),
{
    lemma_parse_enc_names(s, 0, 0);
    lemma_wf_from_parts(e);
    lemma_parse_depth(s, 0, 0);
    theorem_formatter_output_roundtrips(e);
    lemma_norm_eq(e, NestingLevel::Top);
}

/// Idempotence: parsing, rendering and parsing again settles after the
/// first round; the second parse result describes the same runtime type as
/// the first.
pub proof fn theorem_parse_idempotent(s: Seq<u8>, e: Enc, j: nat)
    requires
        s_parse_top(s) == Result::<(Enc, nat), (ErrorKind, nat)>::Ok((e, j)),
        unambiguous(e),
    ensures
        match s_parse_top(render_b(e, NestingLevel::Top)) {
            Ok((e2, _j2)) => enc_eq(e2, e),
            Err(_) => false,
        },
{
    theorem_round_trip(s, e, j);
}

/// No trailing input is accepted: a rendering followed by anything more
/// fails with `NotAllConsumed`, exactly at the end of the rendering.
pub proof fn theorem_no_trailing(e: Enc, t: Seq<u8>)
    requires
        wf_enc(e),
        enc_depth(e) < MAX_NESTING_DEPTH,
        t.len() > 0,
        boundary_ok(e, render_b(e, NestingLevel::Top) + t, render_b(e, NestingLevel::Top).len()),
    ensures
        s_parse_top(render_b(e, NestingLevel::Top) + t) == Result::<
            (Enc, nat),
            (ErrorKind, nat),
        >::Err((ErrorKind::NotAllConsumed, render_b(e, NestingLevel::Top).len())),
{
    let rb = render_b(e, NestingLevel::Top);
    let s = rb + t;
    assert(embedded(s, 0, rb)) by {
        assert forall|k: int| 0 <= k < rb.len() implies #[trigger] s[k] == rb[k] by {}
    }
    lemma_parse_render(s, 0, 0, e, NestingLevel::Top);
}

/// The first character of a rendering: never a qualifier, a digit, a
/// closing byte or `=`; it is `?` exactly for the unknown primitive.
pub proof fn lemma_render_first(e: Enc, lv: NestingLevel)
    ensures
        render(e, lv).len() > 0,
        !is_qualifier_byte(render(e, lv)[0] as u8),
        !is_digit_byte(render(e, lv)[0] as u8),
        render(e, lv)[0] as u8 != 125,
        render(e, lv)[0] as u8 != 41,
        render(e, lv)[0] as u8 != 93,
        render(e, lv)[0] as u8 != 61,
        (render(e, lv)[0] as u8 == 63) <==> (e == Enc::Prim(Primitive::Unknown)),
{
    match e {
        Enc::Prim(p) => {
            assert(render(e, lv) == prim_chars(p));
        },
        _ => {},
    }
}

} // verus!
