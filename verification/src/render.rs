//! The formatter: deterministic, byte-exact rendering of an encoding to
//! its compact string form. It is total: every constructible encoding
//! renders successfully, and the output is exactly what the [`render`]
//! spec function says.

use vstd::prelude::*;
use vstd::string::StringExecFns;

use crate::encoding::{
    dec_digits, digit_char, push_char, render, render_body, render_fields, views_of, Enc, Encoding,
};
use crate::nesting::{IndirectionKind, NestingLevel};

verus! {

/// Extending a field list extends its rendering.
pub proof fn lemma_render_fields_push(fs: Seq<Enc>, e: Enc, lv: NestingLevel)
    ensures
        render_fields(fs.push(e), lv) == render_fields(fs, lv) + render(e, lv),
    decreases fs,
{
    if fs.len() == 0 {
        assert(fs.push(e).drop_first() =~= Seq::<Enc>::empty());
        assert(fs.push(e)[0] == e);
        assert(render_fields(fs.push(e), lv) == render(e, lv) + render_fields(
            Seq::<Enc>::empty(),
            lv,
        ));
        assert(render(e, lv) + Seq::<char>::empty() =~= Seq::<char>::empty() + render(e, lv));
    } else {
        assert(fs.push(e).drop_first() =~= fs.drop_first().push(e));
        assert(fs.push(e)[0] == fs[0]);
        lemma_render_fields_push(fs.drop_first(), e, lv);
        assert(render_fields(fs.push(e), lv) == render(fs[0], lv) + (render_fields(
            fs.drop_first(),
            lv,
        ) + render(e, lv)));
        assert(render(fs[0], lv) + (render_fields(fs.drop_first(), lv) + render(e, lv)) =~= (render(
            fs[0],
            lv,
        ) + render_fields(fs.drop_first(), lv)) + render(e, lv));
    }
}

/// Append the decimal rendering of a number.
pub(crate) fn push_dec(out: &mut String, n: usize)
    ensures
        final(out)@ == old(out)@ + dec_digits(n as nat),
    decreases n,
{
    if n < 10 {
        push_char(out, (48 + n as u8) as char);
        proof {
            assert(old(out)@ + dec_digits(n as nat) =~= old(out)@.push(digit_char(n as nat)));
        }
    } else {
        push_dec(out, n / 10);
        push_char(out, (48 + (n % 10) as u8) as char);
        proof {
            assert(old(out)@ + dec_digits(n as nat) =~= (old(out)@ + dec_digits((n / 10) as nat))
                .push(digit_char((n % 10) as nat)));
        }
    }
}

/// Append the rendering of one encoding at the given nesting level.
fn write_encoding(out: &mut String, e: &Encoding, level: NestingLevel)
    ensures
        final(out)@ == old(out)@ + render(e@, level),
    decreases e, 0int,
{
    match e {
        Encoding::Prim(p) => {
            out.append(p.to_str());
        },
        Encoding::BitField(w, _elt) => {
            push_char(out, 'b');
            push_dec(out, *w as usize);
            proof {
                assert(old(out)@ + render(e@, level) =~= (old(out)@.push('b')) + dec_digits(
                    *w as nat,
                ));
            }
        },
        Encoding::Pointer(t) => {
            push_char(out, '^');
            write_encoding(out, t, level.indirection(IndirectionKind::Pointer));
            proof {
                assert(old(out)@ + render(e@, level) =~= (old(out)@.push('^')) + render(
                    t@,
                    level.spec_indirection(IndirectionKind::Pointer),
                ));
            }
        },
        Encoding::Atomic(t) => {
            push_char(out, 'A');
            write_encoding(out, t, level.indirection(IndirectionKind::Atomic));
            proof {
                assert(old(out)@ + render(e@, level) =~= (old(out)@.push('A')) + render(
                    t@,
                    level.spec_indirection(IndirectionKind::Atomic),
                ));
            }
        },
        Encoding::Array(n, t) => {
            push_char(out, '[');
            push_dec(out, *n);
            write_encoding(out, t, level.array());
            push_char(out, ']');
            proof {
                assert(old(out)@ + render(e@, level) =~= (((old(out)@.push('[')) + dec_digits(
                    *n as nat,
                )) + render(t@, level.spec_array())).push(']'));
            }
        },
        Encoding::Struct(name, fields) => {
            push_char(out, '{');
            out.append(name.as_str());
            write_body(out, fields, level);
            push_char(out, '}');
            proof {
                assert(old(out)@ + render(e@, level) =~= (((old(out)@.push('{')) + name@)
                    + render_body(crate::parse::opt_views(*fields), level)).push('}'));
            }
        },
        Encoding::Union(name, fields) => {
            push_char(out, '(');
            out.append(name.as_str());
            write_body(out, fields, level);
            push_char(out, ')');
            proof {
                assert(old(out)@ + render(e@, level) =~= (((old(out)@.push('(')) + name@)
                    + render_body(crate::parse::opt_views(*fields), level)).push(')'));
            }
        },
    }
}

/// Append what follows a container's name: nothing when the container is
/// opaque or the level elides fields, otherwise `=` and the fields.
fn write_body(out: &mut String, fields: &Option<Vec<Encoding>>, level: NestingLevel)
    ensures
        final(out)@ == old(out)@ + render_body(crate::parse::opt_views(*fields), level),
    decreases fields, 1int,
{
    match fields {
        Option::Some(fs) => {
            if level.include_fields() {
                push_char(out, '=');
                write_fields(out, fs, level.field_level());
                proof {
                    assert(old(out)@ + render_body(crate::parse::opt_views(*fields), level) =~= (old(
                        out,
                    )@.push('=')) + render_fields(views_of(fs@), level.spec_field_level()));
                }
            } else {
                proof {
                    assert(old(out)@ + render_body(crate::parse::opt_views(*fields), level) =~= old(
                        out,
                    )@);
                }
            }
        },
        Option::None => {
            proof {
                assert(old(out)@ + render_body(crate::parse::opt_views(*fields), level) =~= old(
                    out,
                )@);
            }
        },
    }
}

/// Append the renderings of a list of fields, in order.
fn write_fields(out: &mut String, fields: &Vec<Encoding>, level: NestingLevel)
    ensures
        final(out)@ == old(out)@ + render_fields(views_of(fields@), level),
    decreases fields, 0int,
{
    let n = fields.len();
    let mut i: usize = 0;
    proof {
        assert(views_of(fields@.subrange(0, 0)) =~= Seq::<Enc>::empty());
        assert(old(out)@ + Seq::<char>::empty() =~= old(out)@);
    }
    while i < n
        invariant
            0 <= i <= n,
            n == fields@.len(),
            out@ == old(out)@ + render_fields(views_of(fields@.subrange(0, i as int)), level),
        decreases n - i,
    {
        let e = &fields[i];
        write_encoding(out, e, level);
        proof {
            let pre = fields@.subrange(0, i as int);
            assert(fields@.subrange(0, (i + 1) as int) =~= pre.push(fields@[i as int]));
            crate::encoding::lemma_views_of_push(pre, fields@[i as int]);
            assert(views_of(pre) + seq![fields@[i as int]@] =~= views_of(pre).push(
                fields@[i as int]@,
            ));
            lemma_render_fields_push(views_of(pre), fields@[i as int]@, level);
            assert((old(out)@ + render_fields(views_of(pre), level)) + render(
                fields@[i as int]@,
                level,
            ) =~= old(out)@ + (render_fields(views_of(pre), level) + render(
                fields@[i as int]@,
                level,
            )));
        }
        i = i + 1;
    }
    proof {
        assert(fields@.subrange(0, n as int) =~= fields@);
    }
}

/// Render an encoding to the exact byte sequence the Objective-C runtime
/// would produce for the same type, starting at the top nesting level.
/// Formatting is total: it succeeds on every constructible encoding.
pub fn format_encoding(e: &Encoding) -> (s: String)
    ensures
        s@ == render(e@, NestingLevel::Top),
{
    let mut out = String::new();
    write_encoding(&mut out, e, NestingLevel::new());
    proof {
        assert(Seq::<char>::empty() + render(e@, NestingLevel::Top) =~= render(
            e@,
            NestingLevel::Top,
        ));
    }
    out
}

} // verus!
