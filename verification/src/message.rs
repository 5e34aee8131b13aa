//! The boundary façade for method signatures: verify that the encoding
//! strings a runtime reports for a method agree with the compile-time
//! expected encodings, and say exactly which slot disagreed.

use vstd::prelude::*;
use vstd::string::StringExecFns;
use vstd::string::StringSliceAdditionalSpecFns;
use vstd::utf8::encode_utf8;

use crate::encoding::{dec_digits, render, views_of, Enc, Encoding};
use crate::matching::s_equivalent_to_str;
use crate::nesting::NestingLevel;
use crate::render::{format_encoding, push_dec};

verus! {

/// An error encountered while checking a message signature: a description
/// naming the slot that disagreed and quoting both sides.
#[derive(Debug)]
pub struct MessageError(String);

impl MessageError {
    /// The description.
    pub closed spec fn text(&self) -> Seq<char> {
        self.0@
    }

    /// The description.
    pub fn description(&self) -> (r: &str)
        ensures
            r@ == self.text(),
    {
        self.0.as_str()
    }
}

/// Whether an encoding string describes the expected encoding.
pub open spec fn arg_ok(e: Enc, a: String) -> bool {
    s_equivalent_to_str(e, encode_utf8(a@))
}

/// The first position where the actual encoding strings stop describing
/// the expected encodings; the full length when they all do.
pub open spec fn first_bad(eargs: Seq<Enc>, aargs: Seq<String>) -> int
    decreases eargs,
{
    if eargs.len() == 0 {
        0
    } else if !arg_ok(eargs[0], aargs[0]) {
        0
    } else {
        1 + first_bad(eargs.drop_first(), aargs.drop_first())
    }
}

/// Where the agreement of two equally long argument lists first breaks.
pub proof fn lemma_first_bad(eargs: Seq<Enc>, aargs: Seq<String>)
    requires
        eargs.len() == aargs.len(),
    ensures
        0 <= first_bad(eargs, aargs) <= eargs.len(),
        forall|m: int| 0 <= m < first_bad(eargs, aargs) ==> arg_ok(#[trigger] eargs[m], aargs[m]),
        first_bad(eargs, aargs) < eargs.len() ==> !arg_ok(
            eargs[first_bad(eargs, aargs)],
            aargs[first_bad(eargs, aargs)],
        ),
    decreases eargs,
{
    if eargs.len() > 0 && arg_ok(eargs[0], aargs[0]) {
        lemma_first_bad(eargs.drop_first(), aargs.drop_first());
        let fb = first_bad(eargs, aargs);
        assert forall|m: int| 0 <= m < fb implies arg_ok(#[trigger] eargs[m], aargs[m]) by {
            if m > 0 {
                assert(arg_ok(eargs.drop_first()[m - 1], aargs.drop_first()[m - 1]));
            }
        }
        if fb < eargs.len() {
            assert(!arg_ok(eargs.drop_first()[fb - 1], aargs.drop_first()[fb - 1]));
        }
    }
}

/// The message reported when the return encoding disagrees.
pub open spec fn msg_ret(e: Enc, actual: Seq<char>) -> Seq<char> {
    "expected return to have type code "@ + render(e, NestingLevel::Top) + " but found "@ + actual
}

/// The message reported when the argument counts disagree.
pub open spec fn msg_count(nexp: nat, nact: nat) -> Seq<char> {
    "expected "@ + dec_digits(nexp) + " arguments but found "@ + dec_digits(nact)
}

/// The message reported when one argument's encoding disagrees.
pub open spec fn msg_arg(i: nat, e: Enc, actual: Seq<char>) -> Seq<char> {
    "expected argument "@ + dec_digits(i) + " to have type code "@ + render(e, NestingLevel::Top)
        + " but found "@ + actual
}

/// Verify a method signature: every argument encoding string, and the
/// return encoding string, must describe the corresponding expected
/// encoding. On failure the error names the first slot that disagreed,
/// checking the return slot first, and quotes both sides.
pub fn verify_signature(
    expected_args: &Vec<Encoding>,
    expected_ret: &Encoding,
    actual_args: &Vec<String>,
    actual_ret: &str,
) -> (r: Result<(), MessageError>)
    ensures
        ({
            let eargs = views_of(expected_args@);
            if !s_equivalent_to_str(expected_ret@, actual_ret.spec_bytes()) {
                r is Err && r->Err_0.text() == msg_ret(expected_ret@, actual_ret@)
            } else if expected_args@.len() != actual_args@.len() {
                r is Err && r->Err_0.text() == msg_count(
                    expected_args@.len(),
                    actual_args@.len(),
                )
            } else if first_bad(eargs, actual_args@) < eargs.len() {
                let fb = first_bad(eargs, actual_args@);
                r is Err && r->Err_0.text() == msg_arg(
                    fb as nat,
                    eargs[fb],
                    actual_args@[fb]@,
                )
            } else {
                r is Ok
            }
        }),
{
    proof {
        crate::encoding::lemma_views_of(expected_args@);
    }
    if !expected_ret.equivalent_to_str(actual_ret) {
        let mut m = "expected return to have type code ".to_owned();
        let es = format_encoding(expected_ret);
        m.append(es.as_str());
        m.append(" but found ");
        m.append(actual_ret);
        return Err(MessageError(m));
    }
    let n = expected_args.len();
    if n != actual_args.len() {
        let mut m = "expected ".to_owned();
        push_dec(&mut m, n);
        m.append(" arguments but found ");
        push_dec(&mut m, actual_args.len());
        return Err(MessageError(m));
    }
    let ghost eargs = views_of(expected_args@);
    let mut i: usize = 0;
    while i < n
        invariant
            0 <= i <= n,
            n == expected_args@.len() == actual_args@.len(),
            eargs == views_of(expected_args@),
            eargs.len() == n,
            forall|m: int| 0 <= m < n ==> eargs[m] == #[trigger] expected_args@[m]@,
            s_equivalent_to_str(expected_ret@, actual_ret.spec_bytes()),
            forall|m: int| 0 <= m < i ==> arg_ok(#[trigger] eargs[m], actual_args@[m]),
        decreases n - i,
    {
        let ea = &expected_args[i];
        let aa = &actual_args[i];
        if !ea.equivalent_to_str(aa.as_str()) {
            let mut m = "expected argument ".to_owned();
            push_dec(&mut m, i);
            m.append(" to have type code ");
            let es = format_encoding(ea);
            m.append(es.as_str());
            m.append(" but found ");
            m.append(aa.as_str());
            proof {
                lemma_first_bad(eargs, actual_args@);
                assert(!arg_ok(eargs[i as int], actual_args@[i as int]));
                assert(first_bad(eargs, actual_args@) == i);
            }
            return Err(MessageError(m));
        }
        i = i + 1;
    }
    proof {
        lemma_first_bad(eargs, actual_args@);
    }
    Ok(())
}

} // verus!
