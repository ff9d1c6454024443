//! Values of the machine.

use crate::seq::ir::{Block, Tag};
use crate::terms::big::int_of;
use crate::terms::prim::Width;
use crate::terms::symbol::Sym;
use crate::terms::ty::share;
use std::rc::Rc;
use vstd::prelude::*;

verus! {

/// A value. What it holds is shared, so that a copy costs nothing.
#[derive(Debug)]
pub enum Value<'p> {
    Int(i64),
    /// Arbitrary-precision integer, as the bytes of its two's complement.
    BigInt(Rc<Vec<u8>>),
    /// A float, as its bits.
    Float(u64),
    /// A sized integer: its width, and its bits masked to it.
    Word(Width, u64),
    /// A float of 32 bits, as them.
    Float32(u32),
    Bool(bool),
    Str(Rc<String>),
    Char(char),
    Unit,
    /// Data: a constructor and its fields. Tuples are the constructor `#tuple`.
    Data(Sym, Tag, Rc<Vec<Value<'p>>>),
    /// The builtin `Array`.
    Array(Rc<Vec<Value<'p>>>),
    /// A record's fields, in the order of their labels.
    Record(Rc<Vec<(Sym, Value<'p>)>>),
    /// A mutable cell: which of the machine's it is.
    Ref(usize),
    /// A mutable array: which of the machine's it is.
    MutArray(usize),
    /// Codata: captured values and a method table, which is a part of the program.
    Obj(Rc<Vec<Value<'p>>>, &'p Vec<Block>),
    /// The continuation the entry point is handed. Invoking it stops the machine.
    Halt,
    /// A value in a compact region, and which region.
    Compact(Rc<Value<'p>>, usize),
}

/// A value, as what it is.
pub enum ValueV {
    Int(i64),
    BigInt(int),
    Float(u64),
    Word(Width, u64),
    Float32(u32),
    Bool(bool),
    Str(Seq<char>),
    Char(char),
    Unit,
    Data(Sym, Tag, Seq<ValueV>),
    Array(Seq<ValueV>),
    Record(Seq<(Sym, ValueV)>),
    Ref(usize),
    MutArray(usize),
    Obj(Seq<ValueV>, Vec<Block>),
    Halt,
    Compact(Box<ValueV>, usize),
}

pub open spec fn val(v: Value) -> ValueV
    decreases v,
{
    match v {
        Value::Int(n) => ValueV::Int(n),
        Value::BigInt(b) => ValueV::BigInt(int_of(b@)),
        Value::Float(b) => ValueV::Float(b),
        Value::Word(w, b) => ValueV::Word(w, b),
        Value::Float32(b) => ValueV::Float32(b),
        Value::Bool(b) => ValueV::Bool(b),
        Value::Str(s) => ValueV::Str(s@),
        Value::Char(c) => ValueV::Char(c),
        Value::Unit => ValueV::Unit,
        Value::Data(c, t, xs) => ValueV::Data(
            c,
            t,
            Seq::new(
                xs@.len(),
                |i: int|
                    if 0 <= i < xs@.len() {
                        val(xs@[i])
                    } else {
                        arbitrary()
                    },
            ),
        ),
        Value::Array(xs) => ValueV::Array(
            Seq::new(
                xs@.len(),
                |i: int|
                    if 0 <= i < xs@.len() {
                        val(xs@[i])
                    } else {
                        arbitrary()
                    },
            ),
        ),
        Value::Record(fs) => ValueV::Record(
            Seq::new(
                fs@.len(),
                |i: int|
                    if 0 <= i < fs@.len() {
                        (fs@[i].0, val(fs@[i].1))
                    } else {
                        arbitrary()
                    },
            ),
        ),
        Value::Ref(k) => ValueV::Ref(k),
        Value::MutArray(k) => ValueV::MutArray(k),
        Value::Obj(xs, ms) => ValueV::Obj(
            Seq::new(
                xs@.len(),
                |i: int|
                    if 0 <= i < xs@.len() {
                        val(xs@[i])
                    } else {
                        arbitrary()
                    },
            ),
            *ms,
        ),
        Value::Halt => ValueV::Halt,
        Value::Compact(v, k) => ValueV::Compact(Box::new(val(*v)), k),
    }
}

pub open spec fn vals(xs: Seq<Value>) -> Seq<ValueV> {
    xs.map_values(|v: Value| val(v))
}

/// A record's fields, as what they are.
pub open spec fn fields(fs: Seq<(Sym, Value)>) -> Seq<(Sym, ValueV)> {
    fs.map_values(|f: (Sym, Value)| (f.0, val(f.1)))
}

/// A value, with what it holds.
pub open spec fn opened(v: Value) -> ValueV {
    match v {
        Value::Int(n) => ValueV::Int(n),
        Value::BigInt(b) => ValueV::BigInt(int_of(b@)),
        Value::Float(b) => ValueV::Float(b),
        Value::Word(w, b) => ValueV::Word(w, b),
        Value::Float32(b) => ValueV::Float32(b),
        Value::Bool(b) => ValueV::Bool(b),
        Value::Str(s) => ValueV::Str(s@),
        Value::Char(c) => ValueV::Char(c),
        Value::Unit => ValueV::Unit,
        Value::Data(c, t, xs) => ValueV::Data(c, t, vals(xs@)),
        Value::Array(xs) => ValueV::Array(vals(xs@)),
        Value::Record(fs) => ValueV::Record(fields(fs@)),
        Value::Ref(k) => ValueV::Ref(k),
        Value::MutArray(k) => ValueV::MutArray(k),
        Value::Obj(xs, ms) => ValueV::Obj(vals(xs@), *ms),
        Value::Halt => ValueV::Halt,
        Value::Compact(v, k) => ValueV::Compact(Box::new(val(*v)), k),
    }
}

pub broadcast proof fn value_opens(v: Value)
    ensures
        #[trigger] val(v) == opened(v),
{
    match v {
        Value::Data(c, t, xs) => {
            assert(val(v)->Data_2 =~= vals(xs@));
        },
        Value::Array(xs) => {
            assert(val(v)->Array_0 =~= vals(xs@));
        },
        Value::Record(fs) => {
            assert(val(v)->Record_0 =~= fields(fs@));
        },
        Value::Obj(xs, ms) => {
            assert(val(v)->Obj_0 =~= vals(xs@));
        },
        _ => {},
    }
}

pub broadcast proof fn vals_push(xs: Seq<Value>, x: Value)
    ensures
        #[trigger] vals(xs.push(x)) == vals(xs).push(val(x)),
{
    assert(vals(xs.push(x)) =~= vals(xs).push(val(x)));
}

pub broadcast proof fn vals_len(xs: Seq<Value>)
    ensures
        #[trigger] vals(xs).len() == xs.len(),
{
}

pub broadcast proof fn vals_empty()
    ensures
        #[trigger] vals(Seq::empty()) == Seq::<ValueV>::empty(),
{
    assert(vals(Seq::empty()) =~= Seq::<ValueV>::empty());
}

pub broadcast group value_facts {
    value_opens,
    vals_push,
    vals_len,
    vals_empty,
}

impl<'p> Value<'p> {
    /// The same value, shared.
    pub fn copy(&self) -> (r: Value<'p>)
        ensures
            r == *self,
    {
        match self {
            Value::Int(n) => Value::Int(*n),
            Value::BigInt(b) => Value::BigInt(share(b)),
            Value::Float(b) => Value::Float(*b),
            Value::Word(w, b) => Value::Word(*w, *b),
            Value::Float32(b) => Value::Float32(*b),
            Value::Bool(b) => Value::Bool(*b),
            Value::Str(s) => Value::Str(share(s)),
            Value::Char(c) => Value::Char(*c),
            Value::Unit => Value::Unit,
            Value::Data(c, t, xs) => Value::Data(*c, *t, share(xs)),
            Value::Array(xs) => Value::Array(share(xs)),
            Value::Record(fs) => Value::Record(share(fs)),
            Value::Ref(k) => Value::Ref(*k),
            Value::MutArray(k) => Value::MutArray(*k),
            Value::Obj(xs, ms) => Value::Obj(share(xs), ms),
            Value::Halt => Value::Halt,
            Value::Compact(v, k) => Value::Compact(share(v), *k),
        }
    }
}

/// A copy of some values, in their order.
pub fn copies<'p>(xs: &Vec<Value<'p>>, from: usize, to: usize) -> (r: Vec<Value<'p>>)
    requires
        from <= to <= xs@.len(),
    ensures
        r@ == xs@.subrange(from as int, to as int),
{
    let mut r: Vec<Value<'p>> = Vec::new();
    let mut i: usize = from;
    while i < to
        invariant
            from <= i <= to <= xs@.len(),
            r@ == xs@.subrange(from as int, i as int),
        decreases to - i,
    {
        r.push(xs[i].copy());
        i = i + 1;
        proof {
            assert(r@ =~= xs@.subrange(from as int, i as int));
        }
    }
    r
}

/// `out` with every one of `xs` behind it.
pub fn append_all<'p>(out: &mut Vec<Value<'p>>, xs: &Vec<Value<'p>>)
    ensures
        final(out)@ == old(out)@ + xs@,
{
    let ghost was = out@;
    let mut i: usize = 0;
    proof {
        assert(out@ =~= was + xs@.take(0));
    }
    while i < xs.len()
        invariant
            i <= xs@.len(),
            out@ == was + xs@.take(i as int),
        decreases xs@.len() - i,
    {
        out.push(xs[i].copy());
        i = i + 1;
        proof {
            assert(out@ =~= was + xs@.take(i as int));
        }
    }
    proof {
        assert(xs@.take(i as int) =~= xs@);
    }
}

} // verus!
