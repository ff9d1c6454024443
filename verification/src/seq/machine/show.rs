//! How values are shown.

use super::elems::{elements_are_inside, is_vector_ctor, items_are_inside, list_items, vector_elems};
use super::equal::{fields_in, list_in, parts_are_inside, word};
use super::norm::{
    a_list_is_its_items, a_vector_is_its_elements, lemma_norm_record, lemma_norms, norm, norm_fields, norms,
};
use super::shown::{bare, displayed, each, each_field, parted, shown, Heap};
use super::value::{fields, val, vals, value_facts, Value, ValueV};
use crate::eval::show::{plain, say};
use crate::eval::shown::{pieces, text_of, Piece, PieceV};
use crate::terms::big;
use crate::terms::symbol::{self, split, Sym, Symbols};
use crate::text::{quote, quote_char, signed_decimal};
use vstd::prelude::*;

verus! {

broadcast use value_facts;

/// The name of a constructor, without what it belongs to.
pub fn bare_name(names: &Symbols, c: Sym) -> (r: String)
    ensures
        r@ == bare(names@, c),
{
    let (_, name) = split(names.text(c).as_str());
    name
}

/// Some values with `between` between them, behind `out`. `a` is what they are parts of.
fn list(
    Ghost(a): Ghost<ValueV>,
    out: &mut Vec<Piece>,
    xs: &Vec<Value<'_>>,
    between: &str,
    names: &Symbols,
    h: &Heap<'_>,
    n: u128,
)
    requires
        forall|i: int| 0 <= i < xs@.len() ==> decreases_to!(a => #[trigger] vals(xs@)[i]),
    ensures
        pieces(final(out)@) == pieces(old(out)@) + parted(
            each(norms(vals(xs@)), names@, h@, n as nat),
            between@,
            xs@.len(),
        ),
    decreases n, a, 0nat,
{
    let ghost was = pieces(out@);
    let ghost parts = each(norms(vals(xs@)), names@, h@, n as nat);
    let mut i: usize = 0;
    proof {
        assert(pieces(out@) =~= was + parted(parts, between@, 0));
    }
    while i < xs.len()
        invariant
            i <= xs@.len(),
            parts == each(norms(vals(xs@)), names@, h@, n as nat),
            forall|i: int| 0 <= i < xs@.len() ==> decreases_to!(a => #[trigger] vals(xs@)[i]),
            pieces(out@) == was + parted(parts, between@, i as nat),
        decreases xs@.len() - i,
    {
        if i > 0 {
            say(out, between);
        }
        assert(decreases_to!(a => vals(xs@)[i as int]));
        assert(vals(xs@)[i as int] == val(xs@[i as int]));
        assert(norms(vals(xs@))[i as int] == norm(val(xs@[i as int])));
        show_within(out, &xs[i], names, h, n);
        i = i + 1;
        proof {
            assert(pieces(out@) =~= was + parted(parts, between@, i as nat));
        }
    }
}

fn list_fields(
    Ghost(a): Ghost<ValueV>,
    out: &mut Vec<Piece>,
    fs: &Vec<(Sym, Value<'_>)>,
    names: &Symbols,
    h: &Heap<'_>,
    n: u128,
)
    requires
        forall|i: int| 0 <= i < fs@.len() ==> decreases_to!(a => (#[trigger] fields(fs@)[i]).1),
    ensures
        pieces(final(out)@) == pieces(old(out)@) + parted(
            each_field(norm_fields(fields(fs@)), names@, h@, n as nat),
            ", "@,
            fs@.len(),
        ),
    decreases n, a, 0nat,
{
    let ghost was = pieces(out@);
    let ghost parts = each_field(norm_fields(fields(fs@)), names@, h@, n as nat);
    let mut i: usize = 0;
    proof {
        assert(pieces(out@) =~= was + parted(parts, ", "@, 0));
    }
    while i < fs.len()
        invariant
            i <= fs@.len(),
            parts == each_field(norm_fields(fields(fs@)), names@, h@, n as nat),
            forall|i: int| 0 <= i < fs@.len() ==> decreases_to!(a => (#[trigger] fields(fs@)[i]).1),
            pieces(out@) == was + parted(parts, ", "@, i as nat),
        decreases fs@.len() - i,
    {
        if i > 0 {
            say(out, ", ");
        }
        assert(decreases_to!(a => fields(fs@)[i as int].1));
        assert(fields(fs@)[i as int] == (fs@[i as int].0, val(fs@[i as int].1)));
        assert(norm_fields(fields(fs@))[i as int] == (fs@[i as int].0, norm(val(fs@[i as int].1))));
        say(out, names.text(fs[i].0).as_str());
        say(out, " = ");
        show_within(out, &fs[i].1, names, h, n);
        i = i + 1;
        proof {
            assert(pieces(out@) =~= was + parted(parts, ", "@, i as nat));
        }
    }
}

/// Data, behind `out`.
fn show_data(out: &mut Vec<Piece>, v: &Value<'_>, names: &Symbols, h: &Heap<'_>, n: u128)
    requires
        val(*v) is Data,
    ensures
        pieces(final(out)@) == pieces(old(out)@) + displayed(norm(val(*v)), names@, h@, n as nat),
    decreases n, val(*v), 1nat,
{
    let ghost was = pieces(out@);
    proof {
        elements_are_inside(val(*v));
        items_are_inside(val(*v));
        parts_are_inside(val(*v));
        a_vector_is_its_elements(val(*v));
        a_list_is_its_items(val(*v));
    }
    match v {
        Value::Data(c, _, xs) => {
            let c: Sym = *c;
            proof {
                lemma_norms(vals(xs@));
            }
            if c == symbol::TUPLE {
                say(out, "(");
                list(Ghost(val(*v)), out, xs, ", ", names, h, n);
                say(out, ")");
            } else if c == symbol::LIST_NIL || c == symbol::LIST_CONS {
                match list_items(v) {
                    Some(ys) => {
                        proof {
                            lemma_norms(vals(ys@));
                        }
                        say(out, "[");
                        list(Ghost(val(*v)), out, &ys, "; ", names, h, n);
                        say(out, "]");
                    },
                    None => {
                        say(out, bare_name(names, c).as_str());
                        say(out, "(..)");
                    },
                }
            } else if is_vector_ctor(c) {
                match vector_elems(v) {
                    Some(ys) => {
                        proof {
                            lemma_norms(vals(ys@));
                        }
                        say(out, "[");
                        list(Ghost(val(*v)), out, &ys, ", ", names, h, n);
                        say(out, "]");
                    },
                    None => {
                        say(out, bare_name(names, c).as_str());
                        say(out, "(..)");
                    },
                }
            } else {
                say(out, bare_name(names, c).as_str());
                if xs.len() > 0 {
                    say(out, "(");
                    list(Ghost(val(*v)), out, xs, ", ", names, h, n);
                    say(out, ")");
                }
            }
        },
        _ => {},
    }
    proof {
        assert(pieces(out@) =~= was + displayed(norm(val(*v)), names@, h@, n as nat));
    }
}

/// A mutable array's elements, behind `out`.
fn show_array(Ghost(v): Ghost<ValueV>, out: &mut Vec<Piece>, k: usize, names: &Symbols, h: &Heap<'_>, n: u128)
    requires
        n > 0,
        k < h.arrays@.len(),
    ensures
        pieces(final(out)@) == pieces(old(out)@) + parted(
            each(norms(h@.arrays[k as int]), names@, h@, (n - 1) as nat),
            ", "@,
            h@.arrays[k as int].len(),
        ),
    decreases n, v, 1nat,
{
    let ghost a = ValueV::Array(h@.arrays[k as int]);
    proof {
        assert(h@.arrays[k as int] == vals(h.arrays@[k as int]@));
        parts_are_inside(a);
        assert(list_in(a) == vals(h.arrays@[k as int]@));
    }
    list(Ghost(a), out, &h.arrays[k], ", ", names, h, n - 1);
}

/// Behind `out`, a value as it is shown, through no more than `n` places.
pub fn show_within(out: &mut Vec<Piece>, v: &Value<'_>, names: &Symbols, h: &Heap<'_>, n: u128)
    ensures
        pieces(final(out)@) == pieces(old(out)@) + displayed(norm(val(*v)), names@, h@, n as nat),
    decreases n, val(*v), 2nat,
{
    let ghost was = pieces(out@);
    proof {
        parts_are_inside(val(*v));
    }
    match v {
        Value::Int(x) => say(out, signed_decimal(*x).as_str()),
        Value::BigInt(b) => say(out, big::written(b.as_slice()).as_str()),
        Value::Float(b) => {
            out.push(Piece::Float(*b));
            proof {
                assert(pieces(out@) =~= was + seq![PieceV::Float(*b)]);
            }
        },
        Value::Word(w, b) => say(out, big::written(big::from_i128(word(*w, *b)).as_slice()).as_str()),
        Value::Float32(b) => {
            out.push(Piece::Float32(*b));
            proof {
                assert(pieces(out@) =~= was + seq![PieceV::Float32(*b)]);
            }
        },
        Value::Bool(b) => say(
            out,
            if *b {
                "True"
            } else {
                "False"
            },
        ),
        Value::Str(s) => say(out, quote(s.as_str()).as_str()),
        Value::Char(c) => say(out, quote_char(*c).as_str()),
        Value::Unit => say(out, "()"),
        Value::Array(xs) => {
            proof {
                lemma_norms(vals(xs@));
                assert(list_in(val(*v)) == vals(xs@));
            }
            say(out, "#[");
            list(Ghost(val(*v)), out, xs, ", ", names, h, n);
            say(out, "]");
        },
        Value::Record(fs) => {
            proof {
                lemma_norm_record(fields(fs@));
                assert(fields_in(val(*v)) == fields(fs@));
            }
            say(out, "{ ");
            list_fields(Ghost(val(*v)), out, fs, names, h, n);
            say(out, " }");
        },
        Value::Data(_, _, _) => show_data(out, v, names, h, n),
        Value::Ref(k) => if n == 0 || *k >= h.cells.len() {
            say(out, "ref ..");
        } else {
            say(out, "ref ");
            proof {
                assert(h@.cells[*k as int] == val(h.cells@[*k as int]));
            }
            show_within(out, &h.cells[*k], names, h, n - 1);
        },
        Value::MutArray(k) => if n == 0 || *k >= h.arrays.len() {
            say(out, "mut #[..]");
        } else {
            say(out, "mut #[");
            show_array(Ghost(val(*v)), out, *k, names, h, n);
            say(out, "]");
        },
        Value::Obj(_, _) => say(out, "<closure>"),
        Value::Halt => say(out, "<halt>"),
        Value::Compact(x, _) => {
            assert(decreases_to!(val(*v) => val(**x)));
            say(out, "compact ");
            show_within(out, &**x, names, h, n);
        },
    }
    proof {
        assert(pieces(out@) =~= was + displayed(norm(val(*v)), names@, h@, n as nat));
    }
}

/// Behind `out`, a value as it is shown.
pub fn show(out: &mut Vec<Piece>, v: &Value<'_>, names: &Symbols, h: &Heap<'_>)
    ensures
        pieces(final(out)@) == pieces(old(out)@) + shown(val(*v), names@, h@),
{
    show_within(out, v, names, h, h.cells.len() as u128 + h.arrays.len() as u128);
}

impl<'p> Value<'p> {
    /// The value as text: nothing, where it holds a float.
    pub fn to_text(&self, names: &Symbols, h: &Heap<'p>) -> (r: Option<String>)
        ensures
            ({
                let ps = shown(val(*self), names@, h@);
                match r {
                    Some(t) => t@ == text_of(ps, ps.len()) && forall|i: int|
                        0 <= i < ps.len() ==> #[trigger] ps[i] is Text,
                    None => exists|i: int| 0 <= i < ps.len() && !(#[trigger] ps[i] is Text),
                }
            }),
    {
        let mut out: Vec<Piece> = Vec::new();
        proof {
            assert(pieces(out@) =~= Seq::<PieceV>::empty());
        }
        show(&mut out, self, names, h);
        proof {
            assert(pieces(out@) =~= shown(val(*self), names@, h@));
        }
        plain(&out)
    }
}

} // verus!
