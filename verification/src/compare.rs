//! Structural equality of encodings: do two encodings describe the same
//! runtime type?
//!
//! The comparison is level-sensitive, exactly as rendering is. At the top
//! level both sides must agree on expansion; at the levels where the
//! runtime elides field lists and names, an opaque container compares
//! equal to an expanded one of the same kind, and an anonymous container
//! (named `?`) compares equal to any name. Bit-field element kinds are
//! tolerated on either side and ignored.

use vstd::prelude::*;
use vstd::string::StringExecFns;

use crate::encoding::{views_of, Enc, Encoding};
use crate::nesting::{IndirectionKind, NestingLevel};
use crate::parse::opt_views;

verus! {

/// Whether two container names are interchangeable at a level: equal, or
/// either anonymous at the levels where the runtime elides names.
pub open spec fn names_match(n1: Seq<char>, n2: Seq<char>, lv: NestingLevel) -> bool {
    n1 == n2 || (lv != NestingLevel::Top && (n1 == seq!['?'] || n2 == seq!['?']))
}

/// Whether two optional field lists are interchangeable at a level: both
/// absent, both present with equal fields, or mixed at the levels where
/// the runtime elides field lists.
pub open spec fn bodies_eq_at(
    f1: Option<Seq<Enc>>,
    f2: Option<Seq<Enc>>,
    lv: NestingLevel,
) -> bool
    decreases f1,
{
    match (f1, f2) {
        (Option::Some(x), Option::Some(y)) => fields_eq_at(x, y, lv.spec_field_level()),
        (Option::None, Option::None) => true,
        _ => lv != NestingLevel::Top,
    }
}

/// Whether two encodings describe the same runtime type, when they stand
/// at the given nesting level.
pub open spec fn enc_eq_at(a: Enc, b: Enc, lv: NestingLevel) -> bool
    decreases a,
{
    match (a, b) {
        (Enc::Prim(p), Enc::Prim(q)) => p == q,
        (Enc::BitField(w1, _e1), Enc::BitField(w2, _e2)) => w1 == w2,
        (Enc::Pointer(t1), Enc::Pointer(t2)) => enc_eq_at(
            *t1,
            *t2,
            lv.spec_indirection(IndirectionKind::Pointer),
        ),
        (Enc::Atomic(t1), Enc::Atomic(t2)) => enc_eq_at(
            *t1,
            *t2,
            lv.spec_indirection(IndirectionKind::Atomic),
        ),
        (Enc::Array(n1, t1), Enc::Array(n2, t2)) => n1 == n2 && enc_eq_at(
            *t1,
            *t2,
            lv.spec_array(),
        ),
        (Enc::Struct(n1, f1), Enc::Struct(n2, f2)) => names_match(n1, n2, lv) && bodies_eq_at(
            f1,
            f2,
            lv,
        ),
        (Enc::Union(n1, f1), Enc::Union(n2, f2)) => names_match(n1, n2, lv) && bodies_eq_at(
            f1,
            f2,
            lv,
        ),
        _ => false,
    }
}

/// Pairwise equality of two field lists at a level.
pub open spec fn fields_eq_at(x: Seq<Enc>, y: Seq<Enc>, lv: NestingLevel) -> bool
    decreases x,
{
    x.len() == y.len() && (x.len() == 0 || (enc_eq_at(x[0], y[0], lv) && fields_eq_at(
        x.drop_first(),
        y.drop_first(),
        lv,
    )))
}

/// Whether two encodings describe the same runtime type.
pub open spec fn enc_eq(a: Enc, b: Enc) -> bool {
    enc_eq_at(a, b, NestingLevel::Top)
}

/// Two field lists compare equal exactly when they have the same length
/// and agree position by position.
pub proof fn lemma_fields_eq_at_index(x: Seq<Enc>, y: Seq<Enc>, lv: NestingLevel)
    ensures
        fields_eq_at(x, y, lv) <==> (x.len() == y.len() && forall|i: int|
            0 <= i < x.len() ==> enc_eq_at(#[trigger] x[i], y[i], lv)),
    decreases x,
{
    if x.len() > 0 && x.len() == y.len() {
        lemma_fields_eq_at_index(x.drop_first(), y.drop_first(), lv);
        assert forall|i: int| 0 <= i < x.len() - 1 implies x.drop_first()[i] == x[i + 1]
            && y.drop_first()[i] == y[i + 1] by {}
        if fields_eq_at(x, y, lv) {
            assert forall|i: int| 0 <= i < x.len() implies enc_eq_at(#[trigger] x[i], y[i], lv) by {
                if i > 0 {
                    assert(enc_eq_at(x.drop_first()[i - 1], y.drop_first()[i - 1], lv));
                }
            }
        } else {
            if enc_eq_at(x[0], y[0], lv) {
                let k = choose|i: int|
                    0 <= i < x.drop_first().len() && !enc_eq_at(
                        #[trigger] x.drop_first()[i],
                        y.drop_first()[i],
                        lv,
                    );
                assert(!enc_eq_at(x[k + 1], y[k + 1], lv));
            }
        }
    }
}

/// Every encoding describes the same type as itself, at every level.
pub proof fn lemma_eq_refl(e: Enc, lv: NestingLevel)
    ensures
        enc_eq_at(e, e, lv),
    decreases e,
{
    match e {
        Enc::Pointer(t) => {
            lemma_eq_refl(*t, lv.spec_indirection(IndirectionKind::Pointer));
        },
        Enc::Atomic(t) => {
            lemma_eq_refl(*t, lv.spec_indirection(IndirectionKind::Atomic));
        },
        Enc::Array(_n, t) => {
            lemma_eq_refl(*t, lv.spec_array());
        },
        Enc::Struct(_n, fields) => {
            match fields {
                Option::Some(fs) => {
                    lemma_fields_eq_refl(fs, lv.spec_field_level());
                },
                Option::None => {},
            }
            assert(bodies_eq_at(fields, fields, lv));
        },
        Enc::Union(_n, fields) => {
            match fields {
                Option::Some(fs) => {
                    lemma_fields_eq_refl(fs, lv.spec_field_level());
                },
                Option::None => {},
            }
            assert(bodies_eq_at(fields, fields, lv));
        },
        _ => {},
    }
}

/// Companion of [`lemma_eq_refl`] for field lists.
pub proof fn lemma_fields_eq_refl(fs: Seq<Enc>, lv: NestingLevel)
    ensures
        fields_eq_at(fs, fs, lv),
    decreases fs,
{
    if fs.len() > 0 {
        lemma_eq_refl(fs[0], lv);
        lemma_fields_eq_refl(fs.drop_first(), lv);
    }
}

/// The comparison does not depend on the order of its two sides.
pub proof fn lemma_eq_sym(a: Enc, b: Enc, lv: NestingLevel)
    ensures
        enc_eq_at(a, b, lv) == enc_eq_at(b, a, lv),
    decreases a,
{
    match (a, b) {
        (Enc::Pointer(t1), Enc::Pointer(t2)) => {
            lemma_eq_sym(*t1, *t2, lv.spec_indirection(IndirectionKind::Pointer));
        },
        (Enc::Atomic(t1), Enc::Atomic(t2)) => {
            lemma_eq_sym(*t1, *t2, lv.spec_indirection(IndirectionKind::Atomic));
        },
        (Enc::Array(_n1, t1), Enc::Array(_n2, t2)) => {
            lemma_eq_sym(*t1, *t2, lv.spec_array());
        },
        (Enc::Struct(_n1, f1), Enc::Struct(_n2, f2)) => {
            lemma_bodies_eq_sym(f1, f2, lv);
            assert(bodies_eq_at(f1, f2, lv) == bodies_eq_at(f2, f1, lv));
        },
        (Enc::Union(_n1, f1), Enc::Union(_n2, f2)) => {
            lemma_bodies_eq_sym(f1, f2, lv);
            assert(bodies_eq_at(f1, f2, lv) == bodies_eq_at(f2, f1, lv));
        },
        _ => {},
    }
}

/// Companion of [`lemma_eq_sym`] for container bodies.
pub proof fn lemma_bodies_eq_sym(f1: Option<Seq<Enc>>, f2: Option<Seq<Enc>>, lv: NestingLevel)
    ensures
        bodies_eq_at(f1, f2, lv) == bodies_eq_at(f2, f1, lv),
    decreases f1,
{
    match (f1, f2) {
        (Option::Some(x), Option::Some(y)) => {
            lemma_fields_eq_sym(x, y, lv.spec_field_level());
        },
        _ => {},
    }
}

/// Companion of [`lemma_eq_sym`] for field lists.
pub proof fn lemma_fields_eq_sym(x: Seq<Enc>, y: Seq<Enc>, lv: NestingLevel)
    ensures
        fields_eq_at(x, y, lv) == fields_eq_at(y, x, lv),
    decreases x,
{
    if x.len() > 0 && y.len() > 0 {
        lemma_eq_sym(x[0], y[0], lv);
        lemma_fields_eq_sym(x.drop_first(), y.drop_first(), lv);
    }
}

/// Whether a container name is the anonymous name `?`.
fn is_anonymous_name(n: &String) -> (r: bool)
    ensures
        r == (n@ == seq!['?']),
{
    let q: String = "?".to_owned();
    proof {
        reveal_strlit("?");
        assert("?"@ =~= seq!['?']);
    }
    n.eq(&q)
}

/// Exec mirror of [`names_match`].
pub(crate) fn exec_names_match(n1: &String, n2: &String, lv: NestingLevel) -> (r: bool)
    ensures
        r == names_match(n1@, n2@, lv),
{
    if n1.eq(n2) {
        true
    } else if lv == NestingLevel::Top {
        false
    } else {
        is_anonymous_name(n1) || is_anonymous_name(n2)
    }
}

impl Encoding {
    /// Whether this encoding and another describe the same runtime type.
    pub fn equivalent_to(&self, other: &Encoding) -> (r: bool)
        ensures
            r == enc_eq(self@, other@),
    {
        self.equivalent_to_at(other, NestingLevel::new())
    }

    /// Whether this encoding and another describe the same runtime type,
    /// when both stand at the given nesting level.
    fn equivalent_to_at(&self, other: &Encoding, lv: NestingLevel) -> (r: bool)
        ensures
            r == enc_eq_at(self@, other@, lv),
        decreases self,
    {
        match (self, other) {
            (Encoding::Prim(p), Encoding::Prim(q)) => *p == *q,
            (Encoding::BitField(w1, _e1), Encoding::BitField(w2, _e2)) => *w1 == *w2,
            (Encoding::Pointer(t1), Encoding::Pointer(t2)) => t1.equivalent_to_at(
                t2,
                lv.indirection(IndirectionKind::Pointer),
            ),
            (Encoding::Atomic(t1), Encoding::Atomic(t2)) => t1.equivalent_to_at(
                t2,
                lv.indirection(IndirectionKind::Atomic),
            ),
            (Encoding::Array(n1, t1), Encoding::Array(n2, t2)) => *n1 == *n2
                && t1.equivalent_to_at(t2, lv.array()),
            (Encoding::Struct(n1, f1), Encoding::Struct(n2, f2)) => exec_names_match(n1, n2, lv)
                && bodies_ok(f1, f2, lv),
            (Encoding::Union(n1, f1), Encoding::Union(n2, f2)) => exec_names_match(n1, n2, lv)
                && bodies_ok(f1, f2, lv),
            _ => false,
        }
    }
}

/// Exec mirror of [`bodies_eq_at`].
fn bodies_ok(f1: &Option<Vec<Encoding>>, f2: &Option<Vec<Encoding>>, lv: NestingLevel) -> (r: bool)
    ensures
        r == bodies_eq_at(opt_views(*f1), opt_views(*f2), lv),
    decreases f1,
{
    match (f1, f2) {
        (Option::Some(x), Option::Some(y)) => fields_ok(x, y, lv.field_level()),
        (Option::None, Option::None) => true,
        _ => !(lv == NestingLevel::Top),
    }
}

/// Exec mirror of [`fields_eq_at`].
fn fields_ok(x: &Vec<Encoding>, y: &Vec<Encoding>, lv: NestingLevel) -> (r: bool)
    ensures
        r == fields_eq_at(views_of(x@), views_of(y@), lv),
    decreases x,
{
    proof {
        crate::encoding::lemma_views_of(x@);
        crate::encoding::lemma_views_of(y@);
        lemma_fields_eq_at_index(views_of(x@), views_of(y@), lv);
    }
    if x.len() != y.len() {
        return false;
    }
    let n = x.len();
    let mut i: usize = 0;
    while i < n
        invariant
            0 <= i <= n,
            n == x@.len() == y@.len(),
            forall|m: int|
                0 <= m < i ==> enc_eq_at(#[trigger] views_of(x@)[m], views_of(y@)[m], lv),
            views_of(x@).len() == x@.len(),
            views_of(y@).len() == y@.len(),
            forall|m: int|
                0 <= m < x@.len() ==> views_of(x@)[m] == crate::encoding::enc_view(
                    #[trigger] x@[m],
                ),
            forall|m: int|
                0 <= m < y@.len() ==> views_of(y@)[m] == crate::encoding::enc_view(
                    #[trigger] y@[m],
                ),
        decreases n - i,
    {
        let a = &x[i];
        let b = &y[i];
        if !a.equivalent_to_at(b, lv) {
            proof {
                lemma_fields_eq_at_index(views_of(x@), views_of(y@), lv);
            }
            return false;
        }
        i = i + 1;
    }
    proof {
        lemma_fields_eq_at_index(views_of(x@), views_of(y@), lv);
    }
    true
}

} // verus!
