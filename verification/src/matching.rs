//! Matching an encoding against a raw encoding string: does the string
//! describe the same runtime type as the expected encoding?
//!
//! The comparator walks the expected encoding and checks that the string
//! spells the same thing at the cursor, byte by byte, with the same
//! tolerances as encoding comparison: qualifiers on the string are
//! discarded, numbers are compared by value, and at the levels where the
//! runtime elides field lists and names, an opaque container in either
//! role is accepted.

use vstd::prelude::*;
use vstd::string::StringSliceAdditionalSpecFns;

use crate::compare::names_match;
use crate::encoding::{
    bytes_of_chars, chars_of, prim_chars, views_of, Enc, Encoding, Primitive,
};
use crate::nesting::{ContainerKind, IndirectionKind, NestingLevel};
use crate::parse::{
    is_qualifier_byte, s_parse_enc, s_parse_fields, s_parse_int, scan_end, ErrorKind, Parser,
};
use crate::roundtrip::embedded;

verus! {

/// Where the match of one encoding against the string ends: the position
/// just past the matched bytes, or nothing if the string does not describe
/// the expected encoding. `d` is the nesting depth used when an elided
/// field list has to be skipped by parsing.
pub open spec fn s_matches(s: Seq<u8>, i: nat, e: Enc, lv: NestingLevel, d: nat) -> Option<nat>
    decreases e, 0int,
{
    let q = scan_end(s, i, |b: u8| is_qualifier_byte(b));
    match e {
        Enc::Prim(p) => {
            let pb = bytes_of_chars(prim_chars(p));
            if embedded(s, q, pb) {
                Option::Some((q + pb.len()) as nat)
            } else {
                Option::None
            }
        },
        Enc::BitField(w, _elt) => {
            if q < s.len() && s[q as int] == 98 {
                match s_parse_int(s, (q + 1) as nat, usize::MAX as int) {
                    Ok((v, j)) => if v == w as int {
                        Option::Some(j)
                    } else {
                        Option::None
                    },
                    Err(_e) => Option::None,
                }
            } else {
                Option::None
            }
        },
        Enc::Pointer(t) => {
            if q < s.len() && s[q as int] == 94 {
                s_matches(s, (q + 1) as nat, *t, lv.spec_indirection(IndirectionKind::Pointer), d)
            } else {
                Option::None
            }
        },
        Enc::Atomic(t) => {
            if q < s.len() && s[q as int] == 65 {
                s_matches(s, (q + 1) as nat, *t, lv.spec_indirection(IndirectionKind::Atomic), d)
            } else {
                Option::None
            }
        },
        Enc::Array(n, t) => {
            if q < s.len() && s[q as int] == 91 {
                match s_parse_int(s, (q + 1) as nat, usize::MAX as int) {
                    Ok((v, j)) => if v == n as int {
                        match s_matches(s, j, *t, lv.spec_array(), d) {
                            Option::Some(j2) => if j2 < s.len() && s[j2 as int] == 93 {
                                Option::Some((j2 + 1) as nat)
                            } else {
                                Option::None
                            },
                            Option::None => Option::None,
                        }
                    } else {
                        Option::None
                    },
                    Err(_e) => Option::None,
                }
            } else {
                Option::None
            }
        },
        Enc::Struct(name, fields) => s_matches_container(
            s,
            q,
            ContainerKind::Struct,
            name,
            fields,
            lv,
            d,
        ),
        Enc::Union(name, fields) => s_matches_container(
            s,
            q,
            ContainerKind::Union,
            name,
            fields,
            lv,
            d,
        ),
    }
}

/// Companion of [`s_matches`] for containers.
pub open spec fn s_matches_container(
    s: Seq<u8>,
    i: nat,
    kind: ContainerKind,
    name: Seq<char>,
    fields: Option<Seq<Enc>>,
    lv: NestingLevel,
    d: nat,
) -> Option<nat>
    decreases fields, 0int,
{
    if i >= s.len() || s[i as int] != kind.spec_start_byte() {
        Option::None
    } else {
        let ne = scan_end(s, (i + 1) as nat, |b: u8| b != 61 && b != kind.spec_end_byte());
        if ne >= s.len() {
            Option::None
        } else {
            let actual = chars_of(s.subrange((i + 1) as int, ne as int));
            if !names_match(actual, name, lv) {
                Option::None
            } else if s[ne as int] == kind.spec_end_byte() {
                // the string has the opaque form
                if lv == NestingLevel::Top {
                    if fields is None {
                        Option::Some((ne + 1) as nat)
                    } else {
                        Option::None
                    }
                } else {
                    Option::Some((ne + 1) as nat)
                }
            } else {
                // the string has the expanded form
                match fields {
                    Option::Some(fs) => match s_match_fields(
                        s,
                        (ne + 1) as nat,
                        fs,
                        lv.spec_field_level(),
                        d,
                    ) {
                        Option::Some(j) => if j < s.len() && s[j as int] == kind.spec_end_byte() {
                            Option::Some((j + 1) as nat)
                        } else {
                            Option::None
                        },
                        Option::None => Option::None,
                    },
                    Option::None => {
                        if lv == NestingLevel::Top {
                            Option::None
                        } else {
                            // the expectation is opaque: accept and skip
                            // whatever fields the string spells
                            match s_parse_fields(s, (ne + 1) as nat, d, kind) {
                                Ok((_fs, j)) => Option::Some(j),
                                Err(_e) => Option::None,
                            }
                        }
                    },
                }
            }
        }
    }
}

/// Companion of [`s_matches`] for field lists.
pub open spec fn s_match_fields(
    s: Seq<u8>,
    i: nat,
    fs: Seq<Enc>,
    lv: NestingLevel,
    d: nat,
) -> Option<nat>
    decreases fs, 1int,
{
    if fs.len() == 0 {
        Option::Some(i)
    } else {
        match s_matches(s, i, fs[0], lv, d) {
            Option::Some(j) => s_match_fields(s, j, fs.drop_first(), lv, d),
            Option::None => Option::None,
        }
    }
}

/// Whether a raw encoding string describes the same type as the expected
/// encoding: the expected encoding is fully matched and the string fully
/// consumed.
pub open spec fn s_equivalent_to_str(e: Enc, s: Seq<u8>) -> bool {
    match s_matches(s, 0, e, NestingLevel::Top, 0) {
        Option::Some(j) => j == s.len(),
        Option::None => false,
    }
}

/// The code bytes of a primitive: the first byte, and the second where
/// the code has two.
fn prim_code_bytes(p: Primitive) -> (r: (u8, Option<u8>))
    ensures
        bytes_of_chars(prim_chars(p)) == match r.1 {
            Option::None => seq![r.0],
            Option::Some(b1) => seq![r.0, b1],
        },
{
    let r = match p {
        Primitive::Char => (99u8, Option::<u8>::None),
        Primitive::Short => (115u8, Option::<u8>::None),
        Primitive::Int => (105u8, Option::<u8>::None),
        Primitive::Long => (108u8, Option::<u8>::None),
        Primitive::LongLong => (113u8, Option::<u8>::None),
        Primitive::UChar => (67u8, Option::<u8>::None),
        Primitive::UShort => (83u8, Option::<u8>::None),
        Primitive::UInt => (73u8, Option::<u8>::None),
        Primitive::ULong => (76u8, Option::<u8>::None),
        Primitive::ULongLong => (81u8, Option::<u8>::None),
        Primitive::Float => (102u8, Option::<u8>::None),
        Primitive::Double => (100u8, Option::<u8>::None),
        Primitive::LongDouble => (68u8, Option::<u8>::None),
        Primitive::FloatComplex => (106u8, Option::Some(102u8)),
        Primitive::DoubleComplex => (106u8, Option::Some(100u8)),
        Primitive::LongDoubleComplex => (106u8, Option::Some(68u8)),
        Primitive::Bool => (66u8, Option::<u8>::None),
        Primitive::Void => (118u8, Option::<u8>::None),
        Primitive::CStr => (42u8, Option::<u8>::None),
        Primitive::Object => (64u8, Option::<u8>::None),
        Primitive::Block => (64u8, Option::Some(63u8)),
        Primitive::Class => (35u8, Option::<u8>::None),
        Primitive::Sel => (58u8, Option::<u8>::None),
        Primitive::Unknown => (63u8, Option::<u8>::None),
    };
    proof {
        match r.1 {
            Option::None => {
                assert(bytes_of_chars(prim_chars(p)) =~= seq![r.0]);
            },
            Option::Some(b1) => {
                assert(bytes_of_chars(prim_chars(p)) =~= seq![r.0, b1]);
            },
        }
    }
    r
}

impl<'a> Parser<'a> {
    /// Step over the given bytes, or report a mismatch.
    pub fn expect_str(&mut self, s: &str) -> (r: Option<()>)
        requires
            old(self).wf(),
        ensures
            final(self).wf(),
            final(self).spec_data() == old(self).spec_data(),
            final(self).bytes() == old(self).bytes(),
            final(self).spec_depth() == old(self).spec_depth(),
            r is Some <==> embedded(old(self).bytes(), old(self).pos(), s.spec_bytes()),
            r is Some ==> final(self).pos() == old(self).pos() + s.spec_bytes().len(),
    {
        let bs = s.as_bytes();
        let n = bs.len();
        let mut k: usize = 0;
        while k < n
            invariant
                self.wf(),
                self.spec_data() == old(self).spec_data(),
                self.spec_depth() == old(self).spec_depth(),
                0 <= k <= n,
                n == s.spec_bytes().len(),
                bs@ == s.spec_bytes(),
                self.pos() == old(self).pos() + k,
                old(self).bytes() == self.bytes(),
                forall|j: int|
                    old(self).pos() <= j < old(self).pos() + k ==> #[trigger] old(self).bytes()[j]
                        == s.spec_bytes()[j - old(self).pos()],
            decreases n - k,
        {
            let b = bs[k];
            match self.expect_byte(b) {
                Option::Some(_u) => {
                    proof {
                        assert(old(self).bytes()[old(self).pos() + k] == s.spec_bytes()[k as int]);
                    }
                    k = k + 1;
                },
                Option::None => {
                    proof {
                        assert(!embedded(old(self).bytes(), old(self).pos(), s.spec_bytes())) by {
                            if embedded(old(self).bytes(), old(self).pos(), s.spec_bytes()) {
                                assert(old(self).bytes()[old(self).pos() + k] == s.spec_bytes()[k
                                    as int]);
                            }
                        }
                    }
                    return Option::None;
                },
            }
        }
        proof {
            crate::parse::lemma_parser_wf(*self);
            assert(embedded(old(self).bytes(), old(self).pos(), s.spec_bytes()));
        }
        Option::Some(())
    }

    /// Step over the code of a primitive, or report a mismatch.
    fn expect_prim(&mut self, p: Primitive) -> (r: Option<()>)
        requires
            old(self).wf(),
        ensures
            final(self).wf(),
            final(self).spec_data() == old(self).spec_data(),
            final(self).bytes() == old(self).bytes(),
            final(self).spec_depth() == old(self).spec_depth(),
            r is Some <==> embedded(
                old(self).bytes(),
                old(self).pos(),
                bytes_of_chars(prim_chars(p)),
            ),
            r is Some ==> final(self).pos() == old(self).pos() + prim_chars(p).len(),
    {
        let (b0, snd) = prim_code_bytes(p);
        let ghost pb = bytes_of_chars(prim_chars(p));
        match self.expect_byte(b0) {
            Option::None => {
                proof {
                    assert(!embedded(old(self).bytes(), old(self).pos(), pb)) by {
                        if embedded(old(self).bytes(), old(self).pos(), pb) {
                            assert(old(self).bytes()[old(self).pos() as int] == pb[0]);
                        }
                    }
                }
                Option::None
            },
            Option::Some(_u) => {
                match snd {
                    Option::None => {
                        proof {
                            assert(embedded(old(self).bytes(), old(self).pos(), pb));
                        }
                        Option::Some(())
                    },
                    Option::Some(b1) => {
                        match self.expect_byte(b1) {
                            Option::None => {
                                proof {
                                    assert(!embedded(old(self).bytes(), old(self).pos(), pb)) by {
                                        if embedded(old(self).bytes(), old(self).pos(), pb) {
                                            assert(old(self).bytes()[old(self).pos() + 1 as int]
                                                == pb[1]);
                                        }
                                    }
                                }
                                Option::None
                            },
                            Option::Some(_u2) => {
                                proof {
                                    assert(embedded(old(self).bytes(), old(self).pos(), pb));
                                }
                                Option::Some(())
                            },
                        }
                    },
                }
            },
        }
    }

    /// Step over a decimal number if it has the expected value, or report
    /// a mismatch.
    pub fn expect_usize(&mut self, expected: usize) -> (r: Option<()>)
        requires
            old(self).wf(),
        ensures
            final(self).wf(),
            final(self).spec_data() == old(self).spec_data(),
            final(self).bytes() == old(self).bytes(),
            final(self).spec_depth() == old(self).spec_depth(),
            match s_parse_int(old(self).bytes(), old(self).pos(), usize::MAX as int) {
                Ok((v, j)) => if v == expected as int {
                    r is Some && final(self).pos() == j
                } else {
                    r is None
                },
                Err(_e) => r is None,
            },
    {
        match self.parse_usize() {
            Ok(v) => {
                if v == expected {
                    Option::Some(())
                } else {
                    Option::None
                }
            },
            Err(_e) => Option::None,
        }
    }

    /// Step over a whole field list without keeping it, up to and
    /// including the closing byte of the surrounding container.
    fn skip_fields(&mut self, kind: ContainerKind) -> (r: Option<()>)
        requires
            old(self).wf(),
        ensures
            final(self).wf(),
            final(self).spec_data() == old(self).spec_data(),
            final(self).bytes() == old(self).bytes(),
            final(self).spec_depth() == old(self).spec_depth(),
            match s_parse_fields(
                old(self).bytes(),
                old(self).pos(),
                old(self).spec_depth(),
                kind,
            ) {
                Ok((_fs, j)) => r is Some && final(self).pos() == j,
                Err(_e) => r is None,
            },
    {
        let ghost s = old(self).bytes();
        let ghost d = old(self).spec_depth();
        loop
            invariant
                self.wf(),
                self.spec_data() == old(self).spec_data(),
                self.spec_depth() == old(self).spec_depth(),
                s == self.bytes(),
                s == old(self).bytes(),
                d == self.spec_depth(),
                d == old(self).spec_depth(),
                ({
                    let whole = s_parse_fields(s, old(self).pos(), d, kind);
                    let rest = s_parse_fields(s, self.pos(), d, kind);
                    match whole {
                        Ok((_fs, j)) => rest is Ok && rest->Ok_0.1 == j,
                        Err(_e) => rest is Err,
                    }
                }),
            decreases s.len() - self.pos(),
        {
            match self.try_peek() {
                Option::None => {
                    proof {
                        assert(s_parse_fields(s, self.pos(), d, kind) is Err);
                    }
                    return Option::None;
                },
                Option::Some(c) => {
                    let ghost p0 = self.pos();
                    if c == kind.end_byte() {
                        self.advance();
                        proof {
                            assert(s_parse_fields(s, p0, d, kind) == Result::<
                                (Seq<Enc>, nat),
                                (ErrorKind, nat),
                            >::Ok((Seq::<Enc>::empty(), (p0 + 1) as nat)));
                        }
                        return Option::Some(());
                    }
                    match self.parse_encoding() {
                        Ok(_e) => {
                            proof {
                                crate::parse::lemma_parser_wf(*self);
                                crate::parse::lemma_parse_enc_advances(s, p0, d);
                                assert(s_parse_enc(s, p0, d) is Ok);
                            }
                        },
                        Err(_er) => {
                            proof {
                                assert(s_parse_fields(s, p0, d, kind) is Err);
                            }
                            return Option::None;
                        },
                    }
                },
            }
        }
    }

    /// Check that the string at the cursor describes the expected
    /// encoding, advancing past it. On a mismatch the cursor is left where
    /// the walk stopped.
    pub fn expect_encoding(&mut self, enc: &Encoding, level: NestingLevel) -> (r: Option<()>)
        requires
            old(self).wf(),
        ensures
            final(self).wf(),
            final(self).spec_data() == old(self).spec_data(),
            final(self).bytes() == old(self).bytes(),
            final(self).spec_depth() == old(self).spec_depth(),
            match s_matches(
                old(self).bytes(),
                old(self).pos(),
                enc@,
                level,
                old(self).spec_depth(),
            ) {
                Option::Some(j) => r is Some && final(self).pos() == j,
                Option::None => r is None,
            },
        decreases enc, 0int, 0int,
    {
        proof {
            crate::parse::lemma_parser_wf(*old(self));
        }
        self.strip_leading_qualifiers();
        proof {
            crate::parse::lemma_scan_end(
                old(self).bytes(),
                old(self).pos(),
                |b: u8| is_qualifier_byte(b),
            );
        }
        match enc {
            Encoding::Prim(p) => self.expect_prim(*p),
            Encoding::BitField(w, _elt) => {
                match self.expect_byte(98) {
                    Option::Some(_u) => self.expect_usize(*w as usize),
                    Option::None => Option::None,
                }
            },
            Encoding::Pointer(t) => {
                match self.expect_byte(94) {
                    Option::Some(_u) => self.expect_encoding(
                        t,
                        level.indirection(IndirectionKind::Pointer),
                    ),
                    Option::None => Option::None,
                }
            },
            Encoding::Atomic(t) => {
                match self.expect_byte(65) {
                    Option::Some(_u) => self.expect_encoding(
                        t,
                        level.indirection(IndirectionKind::Atomic),
                    ),
                    Option::None => Option::None,
                }
            },
            Encoding::Array(n, t) => {
                match self.expect_byte(91) {
                    Option::Some(_u) => match self.expect_usize(*n) {
                        Option::Some(_u2) => match self.expect_encoding(t, level.array()) {
                            Option::Some(_u3) => match self.expect_byte(93) {
                                Option::Some(_u4) => Option::Some(()),
                                Option::None => Option::None,
                            },
                            Option::None => Option::None,
                        },
                        Option::None => Option::None,
                    },
                    Option::None => Option::None,
                }
            },
            Encoding::Struct(name, fields) => self.expect_container(
                ContainerKind::Struct,
                name,
                fields,
                level,
            ),
            Encoding::Union(name, fields) => self.expect_container(
                ContainerKind::Union,
                name,
                fields,
                level,
            ),
        }
    }

    /// Companion of [`Parser::expect_encoding`] for containers.
    fn expect_container(
        &mut self,
        kind: ContainerKind,
        name: &String,
        fields: &Option<Vec<Encoding>>,
        level: NestingLevel,
    ) -> (r: Option<()>)
        requires
            old(self).wf(),
        ensures
            final(self).wf(),
            final(self).spec_data() == old(self).spec_data(),
            final(self).bytes() == old(self).bytes(),
            final(self).spec_depth() == old(self).spec_depth(),
            match s_matches_container(
                old(self).bytes(),
                old(self).pos(),
                kind,
                name@,
                crate::parse::opt_views(*fields),
                level,
                old(self).spec_depth(),
            ) {
                Option::Some(j) => r is Some && final(self).pos() == j,
                Option::None => r is None,
            },
        decreases fields, 2int, 0int,
    {
        let ghost s = old(self).bytes();
        match self.expect_byte(kind.start_byte()) {
            Option::None => {
                return Option::None;
            },
            Option::Some(_u) => {},
        }
        let start = self.cur();
        proof {
            crate::parse::lemma_parser_wf(*self);
        }
        self.scan_name(kind);
        let ne = self.cur();
        proof {
            crate::parse::lemma_scan_end(
                s,
                start as nat,
                |b: u8| b != 61 && b != kind.spec_end_byte(),
            );
        }
        if self.is_empty() {
            return Option::None;
        }
        let actual = self.take_name(start, ne);
        if !crate::compare::exec_names_match(&actual, name, level) {
            return Option::None;
        }
        let t = self.byte_at(ne);
        self.advance();
        if t == kind.end_byte() {
            // the string has the opaque form
            match level {
                NestingLevel::Top => {
                    match fields {
                        Option::Some(_fs) => Option::None,
                        Option::None => Option::Some(()),
                    }
                },
                _ => Option::Some(()),
            }
        } else {
            // the string has the expanded form
            match fields {
                Option::Some(fs) => {
                    proof {
                        assert(fs@.subrange(0, fs@.len() as int) =~= fs@);
                    }
                    match self.expect_fields(fs, 0, level.field_level()) {
                        Option::Some(_u) => {
                            match self.expect_byte(kind.end_byte()) {
                                Option::Some(_u2) => Option::Some(()),
                                Option::None => Option::None,
                            }
                        },
                        Option::None => Option::None,
                    }
                },
                Option::None => {
                    match level {
                        NestingLevel::Top => Option::None,
                        _ => self.skip_fields(kind),
                    }
                },
            }
        }
    }

    /// Companion of [`Parser::expect_encoding`] for the fields of an
    /// expanded container, from the `k`-th on.
    fn expect_fields(&mut self, fs: &Vec<Encoding>, k: usize, level: NestingLevel) -> (r: Option<
        (),
    >)
        requires
            old(self).wf(),
            k <= fs@.len(),
        ensures
            final(self).wf(),
            final(self).spec_data() == old(self).spec_data(),
            final(self).bytes() == old(self).bytes(),
            final(self).spec_depth() == old(self).spec_depth(),
            match s_match_fields(
                old(self).bytes(),
                old(self).pos(),
                views_of(fs@.subrange(k as int, fs@.len() as int)),
                level,
                old(self).spec_depth(),
            ) {
                Option::Some(j) => r is Some && final(self).pos() == j,
                Option::None => r is None,
            },
        decreases fs, 1int, fs.len() - k,
    {
        proof {
            crate::encoding::lemma_views_of(fs@.subrange(k as int, fs@.len() as int));
        }
        if k == fs.len() {
            proof {
                assert(fs@.subrange(k as int, fs@.len() as int) =~= Seq::<Encoding>::empty());
            }
            return Option::Some(());
        }
        let ghost suffix = views_of(fs@.subrange(k as int, fs@.len() as int));
        proof {
            assert(fs@.subrange(k as int, fs@.len() as int)[0] == fs@[k as int]);
            assert(suffix[0] == fs@[k as int]@);
            assert(fs@.subrange(k as int, fs@.len() as int).drop_first() =~= fs@.subrange(
                (k + 1) as int,
                fs@.len() as int,
            ));
            crate::encoding::lemma_views_of(fs@.subrange(k as int, fs@.len() as int).drop_first());
            crate::encoding::lemma_views_of(fs@.subrange((k + 1) as int, fs@.len() as int));
            assert(suffix.drop_first() =~= views_of(
                fs@.subrange((k + 1) as int, fs@.len() as int),
            )) by {
                assert forall|m: int| 0 <= m < suffix.len() - 1 implies suffix.drop_first()[m]
                    == views_of(fs@.subrange((k + 1) as int, fs@.len() as int))[m] by {
                    assert(suffix.drop_first()[m] == suffix[m + 1]);
                    assert(fs@.subrange(k as int, fs@.len() as int)[m + 1] == fs@[k + 1 + m]);
                    assert(fs@.subrange((k + 1) as int, fs@.len() as int)[m] == fs@[k + 1 + m]);
                }
            }
        }
        let e = &fs[k];
        match self.expect_encoding(e, level) {
            Option::Some(_u) => self.expect_fields(fs, k + 1, level),
            Option::None => Option::None,
        }
    }
}

impl Encoding {
    /// Whether a raw encoding string describes the same runtime type as
    /// this encoding: this encoding must be fully matched and the string
    /// fully consumed. Qualifier prefixes in the string are tolerated and
    /// carry no meaning.
    pub fn equivalent_to_str(&self, s: &str) -> (r: bool)
        ensures
            r == s_equivalent_to_str(self@, s.spec_bytes()),
    {
        let mut parser = Parser::new(s);
        match parser.expect_encoding(self, NestingLevel::new()) {
            Option::Some(_u) => parser.is_empty(),
            Option::None => false,
        }
    }
}

} // verus!
