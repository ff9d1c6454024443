//! How values are shown.

use super::elems::{elements_are_inside, is_vector_ctor, vector_elems};
use super::equal::parts_are_inside;
use super::norm::{a_vector_is_its_elements, lemma_norm_record, norm, norm_fields, norms};
use super::shown::{each, each_field, listed, pieces, prim_name, said, shown, text_of, Piece, PieceV};
use super::term::Prim;
use super::value::{fields, val, vals, value_facts, Value, ValueV};
use crate::terms::big;
use crate::terms::symbol::{Sym, Symbols};
use crate::text::{quote, signed_decimal};
use vstd::prelude::*;

verus! {

broadcast use value_facts;

/// Behind `out`, the text `s`.
pub fn say(out: &mut Vec<Piece>, s: &str)
    ensures
        pieces(final(out)@) == pieces(old(out)@) + said(s@),
{
    let ghost was = out@;
    out.push(Piece::Text(s.to_owned()));
    proof {
        assert(pieces(out@) =~= pieces(was) + said(s@));
    }
}

/// What is shown, as text: nothing, where a float is in it.
pub fn plain(ps: &Vec<Piece>) -> (r: Option<String>)
    ensures
        match r {
            Some(t) => t@ == text_of(pieces(ps@), ps@.len()) && forall|i: int|
                0 <= i < ps@.len() ==> #[trigger] pieces(ps@)[i] is Text,
            None => exists|i: int| 0 <= i < ps@.len() && !(#[trigger] pieces(ps@)[i] is Text),
        },
{
    let mut out: String = String::new();
    let mut i: usize = 0;
    while i < ps.len()
        invariant
            i <= ps@.len(),
            out@ == text_of(pieces(ps@), i as nat),
            forall|k: int| 0 <= k < i ==> #[trigger] pieces(ps@)[k] is Text,
        decreases ps@.len() - i,
    {
        match &ps[i] {
            Piece::Text(s) => {
                out.append(s.as_str());
            },
            _ => {
                proof {
                    assert(!(pieces(ps@)[i as int] is Text));
                }
                return None;
            },
        }
        i = i + 1;
    }
    Some(out)
}

/// Some values with a comma between them, behind `out`. `a` is what they are parts of.
fn list(Ghost(a): Ghost<ValueV>, out: &mut Vec<Piece>, xs: &Vec<Value>, names: &Symbols)
    requires
        forall|i: int| 0 <= i < xs@.len() ==> decreases_to!(a => #[trigger] vals(xs@)[i]),
    ensures
        pieces(final(out)@) == pieces(old(out)@) + listed(each(norms(vals(xs@)), names@), xs@.len()),
    decreases a, 0nat,
{
    let ghost was = pieces(out@);
    let ghost parts = each(norms(vals(xs@)), names@);
    let mut i: usize = 0;
    proof {
        assert(pieces(out@) =~= was + listed(parts, 0));
    }
    while i < xs.len()
        invariant
            i <= xs@.len(),
            parts == each(norms(vals(xs@)), names@),
            forall|i: int| 0 <= i < xs@.len() ==> decreases_to!(a => #[trigger] vals(xs@)[i]),
            pieces(out@) == was + listed(parts, i as nat),
        decreases xs@.len() - i,
    {
        if i > 0 {
            say(out, ", ");
        }
        assert(decreases_to!(a => vals(xs@)[i as int]));
        assert(vals(xs@)[i as int] == val(xs@[i as int]));
        assert(norms(vals(xs@))[i as int] == norm(val(xs@[i as int])));
        show(out, &xs[i], names);
        i = i + 1;
        proof {
            assert(pieces(out@) =~= was + listed(parts, i as nat));
        }
    }
}

fn list_fields(Ghost(a): Ghost<ValueV>, out: &mut Vec<Piece>, fs: &Vec<(Sym, Value)>, names: &Symbols)
    requires
        forall|i: int| 0 <= i < fs@.len() ==> decreases_to!(a => (#[trigger] fields(fs@)[i]).1),
    ensures
        pieces(final(out)@) == pieces(old(out)@) + listed(each_field(norm_fields(fields(fs@)), names@), fs@.len()),
    decreases a, 0nat,
{
    let ghost was = pieces(out@);
    let ghost parts = each_field(norm_fields(fields(fs@)), names@);
    let mut i: usize = 0;
    proof {
        assert(pieces(out@) =~= was + listed(parts, 0));
    }
    while i < fs.len()
        invariant
            i <= fs@.len(),
            parts == each_field(norm_fields(fields(fs@)), names@),
            forall|i: int| 0 <= i < fs@.len() ==> decreases_to!(a => (#[trigger] fields(fs@)[i]).1),
            pieces(out@) == was + listed(parts, i as nat),
        decreases fs@.len() - i,
    {
        if i > 0 {
            say(out, ", ");
        }
        assert(decreases_to!(a => fields(fs@)[i as int].1));
        assert(fields(fs@)[i as int] == (fs@[i as int].0, val(fs@[i as int].1)));
        assert(norm_fields(fields(fs@))[i as int] == (fs@[i as int].0, norm(val(fs@[i as int].1))));
        say(out, names.text(fs[i].0).as_str());
        say(out, " = ");
        show(out, &fs[i].1, names);
        i = i + 1;
        proof {
            assert(pieces(out@) =~= was + listed(parts, i as nat));
        }
    }
}

/// Behind `out`, a value as it is shown.
pub fn show(out: &mut Vec<Piece>, v: &Value, names: &Symbols)
    ensures
        pieces(final(out)@) == pieces(old(out)@) + shown(val(*v), names@),
    decreases val(*v), 1nat,
{
    let ghost was = out@;
    proof {
        elements_are_inside(val(*v));
        parts_are_inside(val(*v));
        a_vector_is_its_elements(val(*v));
    }
    match v {
        Value::Int(n) => say(out, signed_decimal(*n).as_str()),
        Value::BigInt(b) => say(out, big::written(b.as_slice()).as_str()),
        Value::Float(b) => {
            out.push(Piece::Float(*b));
            proof {
                assert(pieces(out@) =~= pieces(was) + seq![PieceV::Float(*b)]);
            }
        },
        Value::Bool(b) => say(
            out,
            if *b {
                "true"
            } else {
                "false"
            },
        ),
        Value::Str(s) => say(out, quote(s.as_str()).as_str()),
        Value::Unit => say(out, "()"),
        Value::Tuple(xs) => {
            say(out, "(");
            list(Ghost(val(*v)), out, xs, names);
            say(out, ")");
        },
        Value::Array(xs) => {
            say(out, "#[");
            list(Ghost(val(*v)), out, xs, names);
            say(out, "]");
        },
        Value::List(xs) => {
            say(out, "[");
            list(Ghost(val(*v)), out, xs, names);
            say(out, "]");
        },
        Value::Record(fs) => {
            proof {
                lemma_norm_record(fields(fs@));
            }
            say(out, "{ ");
            list_fields(Ghost(val(*v)), out, fs, names);
            say(out, " }");
        },
        Value::Ctor(c, xs) => if is_vector_ctor(*c) {
            match vector_elems(v) {
                Some(ys) => {
                    say(out, "[");
                    list(Ghost(val(*v)), out, &ys, names);
                    say(out, "]");
                },
                None => {
                    say(out, names.text(*c).as_str());
                    say(out, "(..)");
                },
            }
        } else {
            say(out, names.text(*c).as_str());
            if xs.len() > 0 {
                say(out, "(");
                list(Ghost(val(*v)), out, xs, names);
                say(out, ")");
            }
        },
        Value::Closure { .. } => say(out, "<closure>"),
        Value::Builtin { op, .. } => {
            say(out, "<builtin ");
            say(out, name_of(*op));
            say(out, ">");
        },
        Value::Cont(_) => say(out, "<continuation>"),
    }
    proof {
        assert(pieces(out@) =~= pieces(was) + shown(val(*v), names@));
    }
}

impl Value {
    /// The value as text: nothing, where it holds a float.
    pub fn to_text(&self, names: &Symbols) -> (r: Option<String>)
        ensures
            ({
                let ps = shown(val(*self), names@);
                match r {
                    Some(t) => t@ == text_of(ps, ps.len()) && forall|i: int|
                        0 <= i < ps.len() ==> #[trigger] ps[i] is Text,
                    None => exists|i: int| 0 <= i < ps.len() && !(#[trigger] ps[i] is Text),
                }
            }),
    {
        let mut out: Vec<Piece> = Vec::new();
        proof {
            assert(pieces(out@) =~= Seq::<PieceV>::empty());
        }
        show(&mut out, self, names);
        proof {
            assert(pieces(out@) =~= shown(val(*self), names@));
        }
        plain(&out)
    }
}

fn name_of(op: Prim) -> (r: &'static str)
    ensures
        r@ == prim_name(op),
{
    match op {
        Prim::Add => "Add",
        Prim::Sub => "Sub",
        Prim::Mul => "Mul",
        Prim::Div => "Div",
        Prim::Mod => "Mod",
        Prim::Pow => "Pow",
        Prim::Lt => "Lt",
        Prim::Gt => "Gt",
        Prim::Le => "Le",
        Prim::Ge => "Ge",
        Prim::AddB => "AddB",
        Prim::SubB => "SubB",
        Prim::MulB => "MulB",
        Prim::DivB => "DivB",
        Prim::ModB => "ModB",
        Prim::PowB => "PowB",
        Prim::LtB => "LtB",
        Prim::GtB => "GtB",
        Prim::LeB => "LeB",
        Prim::GeB => "GeB",
        Prim::AddF => "AddF",
        Prim::SubF => "SubF",
        Prim::MulF => "MulF",
        Prim::DivF => "DivF",
        Prim::LtF => "LtF",
        Prim::GtF => "GtF",
        Prim::LeF => "LeF",
        Prim::GeF => "GeF",
        Prim::ToFloat => "ToFloat",
        Prim::Floor => "Floor",
        Prim::ToBig => "ToBig",
        Prim::ToInt => "ToInt",
        Prim::Eq => "Eq",
        Prim::Ne => "Ne",
        Prim::Neg => "Neg",
        Prim::Print => "Print",
        Prim::Println => "Println",
        Prim::ArrayLen => "ArrayLen",
        Prim::ArrayGet => "ArrayGet",
        Prim::ArrayGetOr => "ArrayGetOr",
        Prim::ArraySet => "ArraySet",
        Prim::ArrayPush => "ArrayPush",
        Prim::ArrayPop => "ArrayPop",
        Prim::ArraySlice => "ArraySlice",
        Prim::ArrayConcat => "ArrayConcat",
        Prim::Shl => "Shl",
        Prim::Shr => "Shr",
        Prim::Ushr => "Ushr",
        Prim::BitAnd => "BitAnd",
        Prim::BitOr => "BitOr",
        Prim::BitXor => "BitXor",
        Prim::BitNot => "BitNot",
        Prim::PopCount => "PopCount",
        Prim::StringToBytes => "StringToBytes",
        Prim::BytesToString => "BytesToString",
        Prim::BytesToHex => "BytesToHex",
        Prim::BytesFromHex => "BytesFromHex",
    }
}

} // verus!
