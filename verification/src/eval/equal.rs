//! When values are equal.

use super::elems::{elements_are_inside, is_vector_ctor, vector_ctor, vector_elems};
use super::norm::{a_vector_is_its_elements, lemma_norm_record, lemma_norms, norm, norm_fields, norms, Plain};
use super::value::{fields, val, vals, value_facts, Value, ValueV};
use crate::terms::symbol::Sym;
use crate::terms::{big, float};
use crate::text::same;
use vstd::prelude::*;

verus! {

broadcast use value_facts;

/// Where label `l` is in a record from field `i` on, and how many fields there are if
/// it is not.
pub open spec fn field_at(fs: Seq<(Sym, ValueV)>, l: Sym, i: nat) -> nat
    decreases fs.len() - i,
{
    if i >= fs.len() || fs[i as int].0 == l {
        i
    } else {
        field_at(fs, l, i + 1)
    }
}

/// The value of a record's field, if it has it.
pub open spec fn field_of(fs: Seq<(Sym, ValueV)>, l: Sym) -> Option<ValueV> {
    let i = field_at(fs, l, 0);
    if i < fs.len() {
        Some(fs[i as int].1)
    } else {
        None
    }
}

pub fn field(fs: &Vec<(Sym, Value)>, l: Sym) -> (r: Option<Value>)
    ensures
        match (r, field_of(fields(fs@), l)) {
            (Some(v), Some(w)) => val(v) == w,
            (None, None) => true,
            _ => false,
        },
{
    let mut i: usize = 0;
    while i < fs.len()
        invariant
            i <= fs@.len(),
            field_at(fields(fs@), l, 0) == field_at(fields(fs@), l, i as nat),
        decreases fs@.len() - i,
    {
        if fs[i].0 == l {
            return Some(fs[i].1.copy());
        }
        i = i + 1;
    }
    None
}

/// Where label `l` is among a plain record's fields from `i` on.
pub open spec fn plain_at(fs: Seq<(Sym, Plain)>, l: Sym, i: nat) -> nat
    decreases fs.len() - i,
{
    if i >= fs.len() || fs[i as int].0 == l {
        i
    } else {
        plain_at(fs, l, i + 1)
    }
}

/// Structural equality. Functions and continuations are equal to nothing; vectors are
/// compared by their elements, and records by their labels. Contents are compared and
/// nothing else, so one array that holds a NaN, which is equal to nothing, is not equal
/// to itself.
pub open spec fn alike(a: Plain, b: Plain) -> bool
    decreases a,
{
    match (a, b) {
        (Plain::Vector(x), Plain::Vector(y)) => x.len() == y.len() && forall|i: int|
            0 <= i < x.len() ==> alike(#[trigger] x[i], y[i]),
        (Plain::Ctor(c, x), Plain::Ctor(d, y)) => !vector_ctor(c) && c == d && x.len() == y.len() && forall|i: int|
            0 <= i < x.len() ==> alike(#[trigger] x[i], y[i]),
        (Plain::Int(x), Plain::Int(y)) => x == y,
        (Plain::BigInt(x), Plain::BigInt(y)) => x == y,
        (Plain::Float(x), Plain::Float(y)) => float::alike(x, y),
        (Plain::Bool(x), Plain::Bool(y)) => x == y,
        (Plain::Str(x), Plain::Str(y)) => x == y,
        (Plain::Unit, Plain::Unit) => true,
        (Plain::Tuple(x), Plain::Tuple(y)) => x.len() == y.len() && forall|i: int|
            0 <= i < x.len() ==> alike(#[trigger] x[i], y[i]),
        (Plain::List(x), Plain::List(y)) => x.len() == y.len() && forall|i: int|
            0 <= i < x.len() ==> alike(#[trigger] x[i], y[i]),
        (Plain::Array(x), Plain::Array(y)) => x.len() == y.len() && forall|i: int|
            0 <= i < x.len() ==> alike(#[trigger] x[i], y[i]),
        (Plain::Record(x), Plain::Record(y)) => x.len() == y.len() && forall|i: int|
            0 <= i < x.len() ==> field_alike(#[trigger] x[i], y),
        _ => false,
    }
}

/// A field has an equal one of its label in a record.
pub open spec fn field_alike(f: (Sym, Plain), y: Seq<(Sym, Plain)>) -> bool
    decreases f,
{
    let k = plain_at(y, f.0, 0);
    k < y.len() && alike(f.1, y[k as int].1)
}

/// Equality of values.
pub open spec fn equals(a: ValueV, b: ValueV) -> bool {
    alike(norm(a), norm(b))
}

proof fn lemma_plain_at(fs: Seq<(Sym, ValueV)>, l: Sym, i: nat)
    requires
        i <= fs.len(),
    ensures
        plain_at(norm_fields(fs), l, i) == field_at(fs, l, i),
    decreases fs.len() - i,
{
    if i < fs.len() {
        lemma_plain_at(fs, l, i + 1);
    }
}

/// What a value holds, where that is a list.
pub open spec fn list_in(a: ValueV) -> Seq<ValueV> {
    match a {
        ValueV::Tuple(x) => x,
        ValueV::List(x) => x,
        ValueV::Array(x) => x,
        ValueV::Ctor(_, x) => x,
        _ => Seq::empty(),
    }
}

/// What a value holds, where that is fields.
pub open spec fn fields_in(a: ValueV) -> Seq<(Sym, ValueV)> {
    match a {
        ValueV::Record(x) => x,
        _ => Seq::empty(),
    }
}

/// What a value holds is a part of it.
pub proof fn parts_are_inside(a: ValueV)
    ensures
        forall|i: int| 0 <= i < list_in(a).len() ==> decreases_to!(a => #[trigger] list_in(a)[i]),
        forall|i: int| 0 <= i < fields_in(a).len() ==> decreases_to!(a => (#[trigger] fields_in(a)[i]).1),
{
    let xs = list_in(a);
    assert forall|i: int| 0 <= i < xs.len() implies decreases_to!(a => #[trigger] xs[i]) by {
        match a {
            ValueV::Tuple(x) => {
                assert(decreases_to!(a => x[i]));
            },
            ValueV::List(x) => {
                assert(decreases_to!(a => x[i]));
            },
            ValueV::Array(x) => {
                assert(decreases_to!(a => x[i]));
            },
            ValueV::Ctor(_, x) => {
                assert(decreases_to!(a => x[i]));
            },
            _ => {},
        }
    }
    let fs = fields_in(a);
    assert forall|i: int| 0 <= i < fs.len() implies decreases_to!(a => (#[trigger] fs[i]).1) by {
        match a {
            ValueV::Record(x) => {
                assert(decreases_to!(a => x[i]));
            },
            _ => {},
        }
    }
}

/// Are two lists of values equal, one by one? `a` is what the first are parts of.
fn all_equal(Ghost(a): Ghost<ValueV>, xs: &Vec<Value>, ys: &Vec<Value>) -> (r: bool)
    requires
        forall|i: int| 0 <= i < xs@.len() ==> decreases_to!(a => #[trigger] vals(xs@)[i]),
    ensures
        r == (xs@.len() == ys@.len() && forall|i: int|
            0 <= i < xs@.len() ==> alike(#[trigger] norms(vals(xs@))[i], norms(vals(ys@))[i])),
        norms(vals(xs@)).len() == xs@.len(),
        norms(vals(ys@)).len() == ys@.len(),
    decreases a, 0nat,
{
    proof {
        lemma_norms(vals(xs@));
        lemma_norms(vals(ys@));
    }
    if xs.len() != ys.len() {
        return false;
    }
    let mut i: usize = 0;
    let mut ok: bool = true;
    while i < xs.len() && ok
        invariant
            i <= xs@.len(),
            xs@.len() == ys@.len(),
            forall|i: int| 0 <= i < xs@.len() ==> decreases_to!(a => #[trigger] vals(xs@)[i]),
            ok ==> forall|k: int| 0 <= k < i ==> alike(#[trigger] norms(vals(xs@))[k], norms(vals(ys@))[k]),
            !ok ==> exists|k: int| 0 <= k < xs@.len() && !alike(#[trigger] norms(vals(xs@))[k], norms(vals(ys@))[k]),
        decreases xs@.len() - i,
    {
        assert(decreases_to!(a => vals(xs@)[i as int]));
        assert(vals(xs@)[i as int] == val(xs@[i as int]));
        assert(norms(vals(xs@))[i as int] == norm(val(xs@[i as int])));
        assert(norms(vals(ys@))[i as int] == norm(val(ys@[i as int])));
        ok = value_eq(&xs[i], &ys[i]);
        proof {
            if !ok {
                assert(!alike(norms(vals(xs@))[i as int], norms(vals(ys@))[i as int]));
            }
        }
        i = i + 1;
    }
    ok
}

fn all_fields_equal(Ghost(a): Ghost<ValueV>, xs: &Vec<(Sym, Value)>, ys: &Vec<(Sym, Value)>) -> (r: bool)
    requires
        a == ValueV::Record(fields(xs@)),
    ensures
        r == equals(a, ValueV::Record(fields(ys@))),
    decreases a, 0nat,
{
    let ghost fx = fields(xs@);
    let ghost fy = fields(ys@);
    let ghost (nx, ny) = (norm_fields(fx), norm_fields(fy));
    proof {
        lemma_norm_record(fx);
        lemma_norm_record(fy);
    }
    if xs.len() != ys.len() {
        return false;
    }
    let mut i: usize = 0;
    let mut ok: bool = true;
    while i < xs.len() && ok
        invariant
            i <= xs@.len(),
            xs@.len() == ys@.len(),
            fx == fields(xs@),
            fy == fields(ys@),
            a == ValueV::Record(fx),
            nx == norm_fields(fx),
            ny == norm_fields(fy),
            norm(a) == Plain::Record(nx),
            norm(ValueV::Record(fy)) == Plain::Record(ny),
            ok ==> forall|k: int| 0 <= k < i ==> field_alike(#[trigger] nx[k], ny),
            !ok ==> !equals(a, ValueV::Record(fy)),
        decreases xs@.len() - i,
    {
        assert(decreases_to!(a => fx[i as int].1)) by {
            parts_are_inside(a);
            assert(fields_in(a)[i as int] == fx[i as int]);
        }
        assert(fx[i as int] == (xs@[i as int].0, val(xs@[i as int].1)));
        ok = match field(ys, xs[i].0) {
            Some(w) => value_eq(&xs[i].1, &w),
            None => false,
        };
        proof {
            lemma_plain_at(fy, xs@[i as int].0, 0);
            assert(ok == field_alike(nx[i as int], ny));
        }
        i = i + 1;
    }
    ok
}

/// [`equals`], of two values.
pub fn value_eq(a: &Value, b: &Value) -> (r: bool)
    ensures
        r == equals(val(*a), val(*b)),
    decreases val(*a), 1nat,
{
    proof {
        elements_are_inside(val(*a));
        parts_are_inside(val(*a));
        a_vector_is_its_elements(val(*a));
        a_vector_is_its_elements(val(*b));
    }
    match (a, b) {
        (Value::Ctor(c, x), Value::Ctor(d, y)) => if is_vector_ctor(*c) && is_vector_ctor(*d) {
            match (vector_elems(a), vector_elems(b)) {
                (Some(xs), Some(ys)) => all_equal(Ghost(val(*a)), &xs, &ys),
                _ => false,
            }
        } else {
            *c == *d && all_equal(Ghost(val(*a)), x, y)
        },
        (Value::Int(x), Value::Int(y)) => *x == *y,
        (Value::BigInt(x), Value::BigInt(y)) => big::equal(x.as_slice(), y.as_slice()),
        (Value::Float(x), Value::Float(y)) => float::equal(*x, *y),
        (Value::Bool(x), Value::Bool(y)) => *x == *y,
        (Value::Str(x), Value::Str(y)) => same(x.as_str(), y.as_str()),
        (Value::Unit, Value::Unit) => true,
        (Value::Tuple(x), Value::Tuple(y)) => all_equal(Ghost(val(*a)), x, y),
        (Value::List(x), Value::List(y)) => all_equal(Ghost(val(*a)), x, y),
        (Value::Array(x), Value::Array(y)) => all_equal(Ghost(val(*a)), x, y),
        (Value::Record(x), Value::Record(y)) => all_fields_equal(Ghost(val(*a)), x, y),
        (Value::Ctor(_, _), _) => false,
        (_, Value::Ctor(_, _)) => false,
        _ => false,
    }
}

} // verus!
