//! What can go in a compact region: what holds no cell, no mutable array and no function,
//! however deep. What it takes up there is counted outside.

use super::equal::{fields_in, list_in, parts_are_inside};
use super::value::{fields, val, vals, value_facts, Value, ValueV};
use crate::terms::symbol::Sym;
use vstd::prelude::*;

verus! {

broadcast use value_facts;

/// Why a value cannot go in a region.
#[derive(Debug, Clone, Copy, PartialEq, Eq, Structural)]
pub enum Uncompactable {
    Ref,
    MutArray,
    Function,
}

/// Whether a value can go in a region, or the first thing in it that cannot, the last of
/// what it holds looked at first.
pub open spec fn goes_in(v: ValueV) -> Result<(), Uncompactable>
    decreases v, 0nat,
{
    match v {
        ValueV::Data(_, _, xs) => all_go_in(xs, xs.len()),
        ValueV::Array(xs) => all_go_in(xs, xs.len()),
        ValueV::Record(fs) => fields_go_in(fs, fs.len()),
        ValueV::Compact(x, _) => goes_in(*x),
        ValueV::Ref(_) => Err(Uncompactable::Ref),
        ValueV::MutArray(_) => Err(Uncompactable::MutArray),
        ValueV::Obj(_, _) => Err(Uncompactable::Function),
        ValueV::Halt => Err(Uncompactable::Function),
        _ => Ok(()),
    }
}

/// The same of the first `n` of some values.
pub open spec fn all_go_in(xs: Seq<ValueV>, n: nat) -> Result<(), Uncompactable>
    decreases xs, n,
{
    if n == 0 || n > xs.len() {
        Ok(())
    } else {
        match goes_in(xs[n - 1]) {
            Err(e) => Err(e),
            Ok(()) => all_go_in(xs, (n - 1) as nat),
        }
    }
}

/// The same of the first `n` fields of a record.
pub open spec fn fields_go_in(fs: Seq<(Sym, ValueV)>, n: nat) -> Result<(), Uncompactable>
    decreases fs, n,
{
    if n == 0 || n > fs.len() {
        Ok(())
    } else {
        match goes_in(fs[n - 1].1) {
            Err(e) => Err(e),
            Ok(()) => fields_go_in(fs, (n - 1) as nat),
        }
    }
}

/// Some values, which are parts of `a`.
fn all_compactable(Ghost(a): Ghost<ValueV>, xs: &Vec<Value<'_>>) -> (r: Result<(), Uncompactable>)
    requires
        forall|i: int| 0 <= i < xs@.len() ==> decreases_to!(a => #[trigger] vals(xs@)[i]),
    ensures
        r == all_go_in(vals(xs@), xs@.len()),
    decreases a, 0nat,
{
    let mut i: usize = xs.len();
    while i > 0
        invariant
            i <= xs@.len(),
            forall|i: int| 0 <= i < xs@.len() ==> decreases_to!(a => #[trigger] vals(xs@)[i]),
            all_go_in(vals(xs@), xs@.len()) == all_go_in(vals(xs@), i as nat),
        decreases i,
    {
        i = i - 1;
        assert(decreases_to!(a => vals(xs@)[i as int]));
        assert(vals(xs@)[i as int] == val(xs@[i as int]));
        match compactable(&xs[i]) {
            Err(e) => return Err(e),
            Ok(()) => {},
        }
    }
    Ok(())
}

/// The fields of a record `a`.
fn fields_compactable(Ghost(a): Ghost<ValueV>, fs: &Vec<(Sym, Value<'_>)>) -> (r: Result<(), Uncompactable>)
    requires
        a == ValueV::Record(fields(fs@)),
    ensures
        r == fields_go_in(fields(fs@), fs@.len()),
    decreases a, 0nat,
{
    let mut i: usize = fs.len();
    while i > 0
        invariant
            i <= fs@.len(),
            a == ValueV::Record(fields(fs@)),
            fields_go_in(fields(fs@), fs@.len()) == fields_go_in(fields(fs@), i as nat),
        decreases i,
    {
        i = i - 1;
        assert(decreases_to!(a => fields(fs@)[i as int].1)) by {
            parts_are_inside(a);
            assert(fields_in(a)[i as int] == fields(fs@)[i as int]);
        }
        assert(fields(fs@)[i as int] == (fs@[i as int].0, val(fs@[i as int].1)));
        match compactable(&fs[i].1) {
            Err(e) => return Err(e),
            Ok(()) => {},
        }
    }
    Ok(())
}

/// [`goes_in`], of a value.
pub fn compactable(v: &Value<'_>) -> (r: Result<(), Uncompactable>)
    ensures
        r == goes_in(val(*v)),
    decreases val(*v), 1nat,
{
    proof {
        parts_are_inside(val(*v));
    }
    match v {
        Value::Data(_, _, xs) => {
            assert(list_in(val(*v)) == vals(xs@));
            all_compactable(Ghost(val(*v)), xs)
        },
        Value::Array(xs) => {
            assert(list_in(val(*v)) == vals(xs@));
            all_compactable(Ghost(val(*v)), xs)
        },
        Value::Record(fs) => fields_compactable(Ghost(val(*v)), fs),
        Value::Compact(x, _) => {
            assert(decreases_to!(val(*v) => val(**x)));
            compactable(&**x)
        },
        Value::Ref(_) => Err(Uncompactable::Ref),
        Value::MutArray(_) => Err(Uncompactable::MutArray),
        Value::Obj(_, _) => Err(Uncompactable::Function),
        Value::Halt => Err(Uncompactable::Function),
        _ => Ok(()),
    }
}

/// What a value that can go in a region holds can go in one too.
pub proof fn what_is_in_a_region_can_go_in_one(v: ValueV)
    requires
        goes_in(v) is Ok,
    ensures
        forall|i: int| 0 <= i < list_in(v).len() ==> goes_in(#[trigger] list_in(v)[i]) is Ok,
        forall|i: int| 0 <= i < fields_in(v).len() ==> goes_in((#[trigger] fields_in(v)[i]).1) is Ok,
{
    lemma_all(list_in(v), list_in(v).len());
    lemma_fields(fields_in(v), fields_in(v).len());
}

proof fn lemma_all(xs: Seq<ValueV>, n: nat)
    requires
        n <= xs.len(),
    ensures
        all_go_in(xs, n) is Ok ==> forall|i: int| 0 <= i < n ==> goes_in(#[trigger] xs[i]) is Ok,
    decreases n,
{
    if n > 0 {
        lemma_all(xs, (n - 1) as nat);
    }
}

proof fn lemma_fields(fs: Seq<(Sym, ValueV)>, n: nat)
    requires
        n <= fs.len(),
    ensures
        fields_go_in(fs, n) is Ok ==> forall|i: int| 0 <= i < n ==> goes_in((#[trigger] fs[i]).1) is Ok,
    decreases n,
{
    if n > 0 {
        lemma_fields(fs, (n - 1) as nat);
    }
}

} // verus!
