//! When values are equal.

use super::elems::{
    elements_are_inside, is_vector_ctor, items, items_are_inside, list_items, vector_ctor, vector_elems,
};
use super::norm::{
    a_list_is_its_items, a_vector_is_its_elements, lemma_norm_record, lemma_norms, norm, norm_fields, norms, Plain,
};
use super::value::{fields, val, vals, value_facts, Value, ValueV};
use crate::terms::big::{self, int_of};
use crate::terms::float;
use crate::terms::prim::Width;
use crate::terms::symbol::Sym;
use crate::terms::worth::{
    balance, level, of_float, of_float32, of_int, weigh_float, weigh_float32, weigh_int, Weighed, Worth,
};
use crate::text::same;
use vstd::prelude::*;

verus! {

broadcast use value_facts;

/// Where label `l` is in a record from field `i` on, and how many fields there are if
/// it is not.
pub open spec fn field_at(fs: Seq<(Sym, ValueV)>, l: Sym, i: nat) -> nat
    decreases fs.len() - i,
{
    if i >= fs.len() || fs[i as int].0 == l {
        i
    } else {
        field_at(fs, l, i + 1)
    }
}

/// The value of a record's field, if it has it.
pub open spec fn field_of(fs: Seq<(Sym, ValueV)>, l: Sym) -> Option<ValueV> {
    let i = field_at(fs, l, 0);
    if i < fs.len() {
        Some(fs[i as int].1)
    } else {
        None
    }
}

pub fn field<'p>(fs: &Vec<(Sym, Value<'p>)>, l: Sym) -> (r: Option<Value<'p>>)
    ensures
        match (r, field_of(fields(fs@), l)) {
            (Some(v), Some(w)) => val(v) == w,
            (None, None) => true,
            _ => false,
        },
{
    let mut i: usize = 0;
    while i < fs.len()
        invariant
            i <= fs@.len(),
            field_at(fields(fs@), l, 0) == field_at(fields(fs@), l, i as nat),
        decreases fs@.len() - i,
    {
        if fs[i].0 == l {
            return Some(fs[i].1.copy());
        }
        i = i + 1;
    }
    None
}

/// Where label `l` is among a plain record's fields from `i` on.
pub open spec fn plain_at(fs: Seq<(Sym, Plain)>, l: Sym, i: nat) -> nat
    decreases fs.len() - i,
{
    if i >= fs.len() || fs[i as int].0 == l {
        i
    } else {
        plain_at(fs, l, i + 1)
    }
}

/// What a sized integer is worth.
pub open spec fn word_value(w: Width, b: u64) -> int {
    match w {
        Width::I8 => b as i8 as int,
        Width::I16 => b as i16 as int,
        Width::I32 => b as i32 as int,
        Width::U8 => b as u8 as int,
        Width::U16 => b as u16 as int,
        Width::U32 => b as u32 as int,
        Width::U64 => b as int,
    }
}

pub fn word(w: Width, b: u64) -> (r: i128)
    ensures
        r == word_value(w, b),
{
    match w {
        Width::I8 => b as i8 as i128,
        Width::I16 => b as i16 as i128,
        Width::I32 => b as i32 as i128,
        Width::U8 => b as u8 as i128,
        Width::U16 => b as u16 as i128,
        Width::U32 => b as u32 as i128,
        Width::U64 => b as i128,
    }
}

/// What an integer of any kind is worth.
pub open spec fn int_value(p: Plain) -> Option<int> {
    match p {
        Plain::Int(n) => Some(n as int),
        Plain::BigInt(n) => Some(n),
        Plain::Word(w, b) => Some(word_value(w, b)),
        _ => None,
    }
}

/// What a number of any kind is worth.
pub open spec fn number_value(p: Plain) -> Option<Worth> {
    match p {
        Plain::Float(b) => Some(of_float(b)),
        Plain::Float32(b) => Some(of_float32(b)),
        _ => match int_value(p) {
            Some(n) => Some(of_int(n)),
            None => None,
        },
    }
}

/// Two numbers are equal, whatever their kinds.
pub open spec fn numbers_alike(a: Plain, b: Plain) -> bool {
    match (a, b) {
        (Plain::Float(x), Plain::Float(y)) => float::alike(x, y),
        (Plain::Float32(x), Plain::Float32(y)) => float::alike32(x, y),
        _ => match (int_value(a), int_value(b)) {
            (Some(x), Some(y)) => x == y,
            _ => match (number_value(a), number_value(b)) {
                (Some(x), Some(y)) => level(x, y),
                _ => false,
            },
        },
    }
}

/// Structural equality. Numbers are compared by what they are worth, whatever their
/// kind; vectors and lists by their elements, and records by their labels. A cell or a
/// mutable array is a place, equal to itself alone. Functions are equal to nothing.
pub open spec fn alike(a: Plain, b: Plain) -> bool
    decreases a,
{
    match (a, b) {
        (Plain::Vector(x), Plain::Vector(y)) => x.len() == y.len() && forall|i: int|
            0 <= i < x.len() ==> alike(#[trigger] x[i], y[i]),
        (Plain::List(x), Plain::List(y)) => x.len() == y.len() && forall|i: int|
            0 <= i < x.len() ==> alike(#[trigger] x[i], y[i]),
        (Plain::Data(c, x), Plain::Data(d, y)) => !vector_ctor(c) && c == d && x.len() == y.len() && forall|i: int|
            0 <= i < x.len() ==> alike(#[trigger] x[i], y[i]),
        (Plain::Array(x), Plain::Array(y)) => x.len() == y.len() && forall|i: int|
            0 <= i < x.len() ==> alike(#[trigger] x[i], y[i]),
        (Plain::Record(x), Plain::Record(y)) => x.len() == y.len() && forall|i: int|
            0 <= i < x.len() ==> field_alike(#[trigger] x[i], y),
        (Plain::Bool(x), Plain::Bool(y)) => x == y,
        (Plain::Str(x), Plain::Str(y)) => x == y,
        (Plain::Char(x), Plain::Char(y)) => x == y,
        (Plain::Unit, Plain::Unit) => true,
        (Plain::Ref(x), Plain::Ref(y)) => x == y,
        (Plain::MutArray(x), Plain::MutArray(y)) => x == y,
        (Plain::Compact(x), Plain::Compact(y)) => alike(*x, *y),
        _ => numbers_alike(a, b),
    }
}

/// A field has an equal one of its label in a record.
pub open spec fn field_alike(f: (Sym, Plain), y: Seq<(Sym, Plain)>) -> bool
    decreases f,
{
    let k = plain_at(y, f.0, 0);
    k < y.len() && alike(f.1, y[k as int].1)
}

/// Equality of values.
pub open spec fn equals(a: ValueV, b: ValueV) -> bool {
    alike(norm(a), norm(b))
}

proof fn lemma_plain_at(fs: Seq<(Sym, ValueV)>, l: Sym, i: nat)
    requires
        i <= fs.len(),
    ensures
        plain_at(norm_fields(fs), l, i) == field_at(fs, l, i),
    decreases fs.len() - i,
{
    if i < fs.len() {
        lemma_plain_at(fs, l, i + 1);
    }
}

/// What a value holds, where that is a list.
pub open spec fn list_in(a: ValueV) -> Seq<ValueV> {
    match a {
        ValueV::Array(x) => x,
        ValueV::Data(_, _, x) => x,
        _ => Seq::empty(),
    }
}

/// What a value holds, where that is fields.
pub open spec fn fields_in(a: ValueV) -> Seq<(Sym, ValueV)> {
    match a {
        ValueV::Record(x) => x,
        _ => Seq::empty(),
    }
}

/// What a value holds is a part of it.
pub proof fn parts_are_inside(a: ValueV)
    ensures
        forall|i: int| 0 <= i < list_in(a).len() ==> decreases_to!(a => #[trigger] list_in(a)[i]),
        forall|i: int| 0 <= i < fields_in(a).len() ==> decreases_to!(a => (#[trigger] fields_in(a)[i]).1),
{
    let xs = list_in(a);
    assert forall|i: int| 0 <= i < xs.len() implies decreases_to!(a => #[trigger] xs[i]) by {
        match a {
            ValueV::Array(x) => {
                assert(decreases_to!(a => x[i]));
            },
            ValueV::Data(_, _, x) => {
                assert(decreases_to!(a => x[i]));
            },
            _ => {},
        }
    }
    let fs = fields_in(a);
    assert forall|i: int| 0 <= i < fs.len() implies decreases_to!(a => (#[trigger] fs[i]).1) by {
        match a {
            ValueV::Record(x) => {
                assert(decreases_to!(a => x[i]));
            },
            _ => {},
        }
    }
}

/// Are two lists of values equal, one by one, in the first `n` places? `a` is what the
/// first are parts of.
fn first_equal(Ghost(a): Ghost<ValueV>, xs: &Vec<Value<'_>>, ys: &Vec<Value<'_>>, n: usize) -> (r: bool)
    requires
        forall|i: int| 0 <= i < xs@.len() ==> decreases_to!(a => #[trigger] vals(xs@)[i]),
        xs@.len() == ys@.len(),
        n <= xs@.len(),
    ensures
        r == forall|i: int| 0 <= i < n ==> alike(#[trigger] norms(vals(xs@))[i], norms(vals(ys@))[i]),
        norms(vals(xs@)).len() == xs@.len(),
        norms(vals(ys@)).len() == ys@.len(),
    decreases a, 0nat,
{
    proof {
        lemma_norms(vals(xs@));
        lemma_norms(vals(ys@));
    }
    let mut i: usize = 0;
    let mut ok: bool = true;
    while i < n && ok
        invariant
            i <= n <= xs@.len(),
            xs@.len() == ys@.len(),
            forall|i: int| 0 <= i < xs@.len() ==> decreases_to!(a => #[trigger] vals(xs@)[i]),
            ok ==> forall|k: int| 0 <= k < i ==> alike(#[trigger] norms(vals(xs@))[k], norms(vals(ys@))[k]),
            !ok ==> exists|k: int| 0 <= k < n && !alike(#[trigger] norms(vals(xs@))[k], norms(vals(ys@))[k]),
        decreases n - i,
    {
        assert(decreases_to!(a => vals(xs@)[i as int]));
        assert(vals(xs@)[i as int] == val(xs@[i as int]));
        assert(norms(vals(xs@))[i as int] == norm(val(xs@[i as int])));
        assert(norms(vals(ys@))[i as int] == norm(val(ys@[i as int])));
        ok = value_eq(&xs[i], &ys[i]);
        proof {
            if !ok {
                assert(!alike(norms(vals(xs@))[i as int], norms(vals(ys@))[i as int]));
            }
        }
        i = i + 1;
    }
    ok
}

/// Are two lists of values equal, one by one? `a` is what the first are parts of.
fn all_equal(Ghost(a): Ghost<ValueV>, xs: &Vec<Value<'_>>, ys: &Vec<Value<'_>>) -> (r: bool)
    requires
        forall|i: int| 0 <= i < xs@.len() ==> decreases_to!(a => #[trigger] vals(xs@)[i]),
    ensures
        r == (xs@.len() == ys@.len() && forall|i: int|
            0 <= i < xs@.len() ==> alike(#[trigger] norms(vals(xs@))[i], norms(vals(ys@))[i])),
        norms(vals(xs@)).len() == xs@.len(),
        norms(vals(ys@)).len() == ys@.len(),
    decreases a, 1nat,
{
    proof {
        lemma_norms(vals(xs@));
        lemma_norms(vals(ys@));
    }
    if xs.len() != ys.len() {
        return false;
    }
    first_equal(Ghost(a), xs, ys, xs.len())
}

fn all_fields_equal(Ghost(a): Ghost<ValueV>, xs: &Vec<(Sym, Value<'_>)>, ys: &Vec<(Sym, Value<'_>)>) -> (r: bool)
    requires
        a == ValueV::Record(fields(xs@)),
    ensures
        r == equals(a, ValueV::Record(fields(ys@))),
    decreases a, 0nat,
{
    let ghost fx = fields(xs@);
    let ghost fy = fields(ys@);
    let ghost (nx, ny) = (norm_fields(fx), norm_fields(fy));
    proof {
        lemma_norm_record(fx);
        lemma_norm_record(fy);
    }
    if xs.len() != ys.len() {
        return false;
    }
    let mut i: usize = 0;
    let mut ok: bool = true;
    while i < xs.len() && ok
        invariant
            i <= xs@.len(),
            xs@.len() == ys@.len(),
            fx == fields(xs@),
            fy == fields(ys@),
            a == ValueV::Record(fx),
            nx == norm_fields(fx),
            ny == norm_fields(fy),
            norm(a) == Plain::Record(nx),
            norm(ValueV::Record(fy)) == Plain::Record(ny),
            ok ==> forall|k: int| 0 <= k < i ==> field_alike(#[trigger] nx[k], ny),
            !ok ==> !equals(a, ValueV::Record(fy)),
        decreases xs@.len() - i,
    {
        assert(decreases_to!(a => fx[i as int].1)) by {
            parts_are_inside(a);
            assert(fields_in(a)[i as int] == fx[i as int]);
        }
        assert(fx[i as int] == (xs@[i as int].0, val(xs@[i as int].1)));
        ok = match field(ys, xs[i].0) {
            Some(w) => value_eq(&xs[i].1, &w),
            None => false,
        };
        proof {
            lemma_plain_at(fy, xs@[i as int].0, 0);
            assert(ok == field_alike(nx[i as int], ny));
        }
        i = i + 1;
    }
    ok
}

/// Are two values data of one constructor that is neither a vector's nor a list's, with
/// fields? Then what is left once all but the last are equal is the last.
fn chained(a: &Value<'_>, b: &Value<'_>) -> (r: bool)
    ensures
        r == links(val(*a), val(*b)),
{
    match (a, b) {
        (Value::Data(c, _, x), Value::Data(d, _, y)) => {
            *c == *d && !is_vector_ctor(*c) && x.len() == y.len() && x.len() > 0 && list_items(a).is_none()
                && list_items(b).is_none()
        },
        _ => false,
    }
}

spec fn links(a: ValueV, b: ValueV) -> bool {
    match (a, b) {
        (ValueV::Data(c, _, x), ValueV::Data(d, _, y)) => {
            c == d && !vector_ctor(c) && x.len() == y.len() && x.len() > 0 && items(a) is None && items(b) is None
        },
        _ => false,
    }
}

/// [`equals`], of two values. Contents are compared, also where both are one allocation: an
/// array that holds a NaN is not equal to itself. A chain is followed along its last
/// fields, however long it is.
pub fn value_eq(a: &Value<'_>, b: &Value<'_>) -> (r: bool)
    ensures
        r == equals(val(*a), val(*b)),
    decreases val(*a), 3nat,
{
    let mut p: &Value<'_> = a;
    let mut q: &Value<'_> = b;
    while chained(p, q)
        invariant
            equals(val(*p), val(*q)) == equals(val(*a), val(*b)),
            val(*p) == val(*a) || decreases_to!(val(*a) => val(*p)),
        decreases val(*p),
    {
        proof {
            parts_are_inside(val(*p));
            a_list_is_its_items(val(*p));
            a_list_is_its_items(val(*q));
        }
        match (p, q) {
            (Value::Data(_, _, x), Value::Data(_, _, y)) => {
                let last: usize = x.len() - 1;
                assert(list_in(val(*p)) == vals(x@));
                assert(forall|i: int| 0 <= i < x@.len() ==> decreases_to!(val(*p) => #[trigger] vals(x@)[i]));
                let same: bool = first_equal(Ghost(val(*p)), x, y, last);
                proof {
                    lemma_norms(vals(x@));
                    lemma_norms(vals(y@));
                    assert(norms(vals(x@))[last as int] == norm(val(x@[last as int])));
                    assert(norms(vals(y@))[last as int] == norm(val(y@[last as int])));
                    assert(decreases_to!(val(*p) => vals(x@)[last as int]));
                    assert(vals(x@)[last as int] == val(x@[last as int]));
                    assert(equals(val(*p), val(*q)) == forall|i: int|
                        0 <= i < x@.len() ==> alike(#[trigger] norms(vals(x@))[i], norms(vals(y@))[i]));
                }
                if !same {
                    return false;
                }
                p = &x[last];
                q = &y[last];
            },
            _ => {},
        }
    }
    values_equal(p, q)
}

fn values_equal(a: &Value<'_>, b: &Value<'_>) -> (r: bool)
    ensures
        r == equals(val(*a), val(*b)),
    decreases val(*a), 2nat,
{
    proof {
        elements_are_inside(val(*a));
        parts_are_inside(val(*a));
        a_vector_is_its_elements(val(*a));
        a_vector_is_its_elements(val(*b));
        a_list_is_its_items(val(*a));
        a_list_is_its_items(val(*b));
        items_are_inside(val(*a));
    }
    match (a, b) {
        (Value::Data(c, _, x), Value::Data(d, _, y)) => if is_vector_ctor(*c) && is_vector_ctor(*d) {
            match (vector_elems(a), vector_elems(b)) {
                (Some(xs), Some(ys)) => all_equal(Ghost(val(*a)), &xs, &ys),
                _ => false,
            }
        } else {
            match (list_items(a), list_items(b)) {
                (Some(xs), Some(ys)) => all_equal(Ghost(val(*a)), &xs, &ys),
                (None, None) => *c == *d && all_equal(Ghost(val(*a)), x, y),
                _ => false,
            }
        },
        (Value::Float(x), Value::Float(y)) => float::equal(*x, *y),
        (Value::Float32(x), Value::Float32(y)) => float::equal32(*x, *y),
        (Value::Bool(x), Value::Bool(y)) => *x == *y,
        (Value::Str(x), Value::Str(y)) => same(x.as_str(), y.as_str()),
        (Value::Char(x), Value::Char(y)) => *x == *y,
        (Value::Unit, Value::Unit) => true,
        (Value::Array(x), Value::Array(y)) => all_equal(Ghost(val(*a)), x, y),
        (Value::Record(x), Value::Record(y)) => all_fields_equal(Ghost(val(*a)), x, y),
        (Value::Ref(x), Value::Ref(y)) => *x == *y,
        (Value::MutArray(x), Value::MutArray(y)) => *x == *y,
        (Value::Compact(x, _), Value::Compact(y, _)) => {
            assert(decreases_to!(val(*a) => val(**x)));
            value_eq(&**x, &**y)
        },
        _ => mixed_eq(a, b),
    }
}

/// Are two values numbers that are worth the same?
fn mixed_eq(a: &Value<'_>, b: &Value<'_>) -> (r: bool)
    requires
        !(val(*a) is Float && val(*b) is Float),
        !(val(*a) is Float32 && val(*b) is Float32),
    ensures
        r == numbers_alike(norm(val(*a)), norm(val(*b))),
{
    match (whole(a), whole(b)) {
        (Some(x), Some(y)) => big::equal(x.as_slice(), y.as_slice()),
        _ => match (weigh(a), weigh(b)) {
            (Some(x), Some(y)) => balance(&x, &y),
            _ => false,
        },
    }
}

/// What a number is worth, if it is one.
fn weigh(v: &Value<'_>) -> (r: Option<Weighed>)
    ensures
        match (r, number_value(norm(val(*v)))) {
            (Some(w), Some(n)) => w.worth() == n,
            (None, None) => true,
            _ => false,
        },
{
    match v {
        Value::Float(b) => Some(weigh_float(*b)),
        Value::Float32(b) => Some(weigh_float32(*b)),
        _ => match whole(v) {
            Some(n) => Some(weigh_int(n.as_slice())),
            None => None,
        },
    }
}

/// What an integer of any kind is worth, if it is one.
fn whole(v: &Value<'_>) -> (r: Option<Vec<u8>>)
    ensures
        match (r, int_value(norm(val(*v)))) {
            (Some(b), Some(n)) => int_of(b@) == n,
            (None, None) => true,
            _ => false,
        },
{
    match v {
        Value::Int(n) => Some(big::from_i64(*n)),
        Value::BigInt(b) => Some(copy_bytes(b)),
        Value::Word(w, b) => Some(big::from_i128(word(*w, *b))),
        _ => None,
    }
}

fn copy_bytes(b: &Vec<u8>) -> (r: Vec<u8>)
    ensures
        r@ == b@,
{
    let mut r: Vec<u8> = Vec::new();
    let mut i: usize = 0;
    while i < b.len()
        invariant
            i <= b@.len(),
            r@ == b@.take(i as int),
        decreases b@.len() - i,
    {
        r.push(b[i]);
        i = i + 1;
        proof {
            assert(r@ =~= b@.take(i as int));
        }
    }
    proof {
        assert(b@.take(i as int) =~= b@);
    }
    r
}

} // verus!
