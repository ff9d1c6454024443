//! Values of the evaluator.

use super::term::{Prim, Term, Var};
use crate::terms::big::int_of;
use crate::terms::symbol::Sym;
use crate::terms::ty::share;
use std::rc::Rc;
use vstd::prelude::*;

verus! {

/// An environment: where its frame is, among the machine's.
pub type Env = usize;

/// A value. Everything it holds is shared, so that a copy costs nothing.
#[derive(Debug)]
pub enum Value {
    /// Fixed-width integer (`Int`).
    Int(i64),
    /// Arbitrary-precision integer (`BigInt`), as the bytes of its two's complement.
    BigInt(Rc<Vec<u8>>),
    /// A float, as its bits.
    Float(u64),
    Bool(bool),
    Str(Rc<String>),
    Unit,
    Tuple(Rc<Vec<Value>>),
    /// The one builtin collection: a persistent contiguous buffer.
    Array(Rc<Vec<Value>>),
    List(Rc<Vec<Value>>),
    /// A record's fields, in the order of their labels.
    Record(Rc<Vec<(Sym, Value)>>),
    Ctor(Sym, Rc<Vec<Value>>),
    Closure { param: Var, body: Rc<Term>, env: Env },
    /// A partially applied primitive.
    Builtin { op: Prim, args: Rc<Vec<Value>> },
    /// A captured (one-shot, deep) continuation: where its frames are, among the
    /// machine's.
    Cont(usize),
}

/// A value, as what it is.
pub enum ValueV {
    Int(i64),
    BigInt(int),
    Float(u64),
    Bool(bool),
    Str(Seq<char>),
    Unit,
    Tuple(Seq<ValueV>),
    Array(Seq<ValueV>),
    List(Seq<ValueV>),
    Record(Seq<(Sym, ValueV)>),
    Ctor(Sym, Seq<ValueV>),
    Closure { param: Var, body: Rc<Term>, env: Env },
    Builtin { op: Prim, args: Seq<ValueV> },
    Cont(usize),
}

pub open spec fn val(v: Value) -> ValueV
    decreases v,
{
    match v {
        Value::Int(n) => ValueV::Int(n),
        Value::BigInt(b) => ValueV::BigInt(int_of(b@)),
        Value::Float(b) => ValueV::Float(b),
        Value::Bool(b) => ValueV::Bool(b),
        Value::Str(s) => ValueV::Str(s@),
        Value::Unit => ValueV::Unit,
        Value::Tuple(xs) => ValueV::Tuple(
            Seq::new(
                xs@.len(),
                |i: int|
                    if 0 <= i < xs@.len() {
                        val(xs@[i])
                    } else {
                        arbitrary()
                    },
            ),
        ),
        Value::Array(xs) => ValueV::Array(
            Seq::new(
                xs@.len(),
                |i: int|
                    if 0 <= i < xs@.len() {
                        val(xs@[i])
                    } else {
                        arbitrary()
                    },
            ),
        ),
        Value::List(xs) => ValueV::List(
            Seq::new(
                xs@.len(),
                |i: int|
                    if 0 <= i < xs@.len() {
                        val(xs@[i])
                    } else {
                        arbitrary()
                    },
            ),
        ),
        Value::Record(fs) => ValueV::Record(
            Seq::new(
                fs@.len(),
                |i: int|
                    if 0 <= i < fs@.len() {
                        (fs@[i].0, val(fs@[i].1))
                    } else {
                        arbitrary()
                    },
            ),
        ),
        Value::Ctor(c, xs) => ValueV::Ctor(
            c,
            Seq::new(
                xs@.len(),
                |i: int|
                    if 0 <= i < xs@.len() {
                        val(xs@[i])
                    } else {
                        arbitrary()
                    },
            ),
        ),
        Value::Closure { param, body, env } => ValueV::Closure { param, body, env },
        Value::Builtin { op, args } => ValueV::Builtin {
            op,
            args: Seq::new(
                args@.len(),
                |i: int|
                    if 0 <= i < args@.len() {
                        val(args@[i])
                    } else {
                        arbitrary()
                    },
            ),
        },
        Value::Cont(k) => ValueV::Cont(k),
    }
}

pub open spec fn vals(xs: Seq<Value>) -> Seq<ValueV> {
    xs.map_values(|v: Value| val(v))
}

/// A record's fields, as what they are.
pub open spec fn fields(fs: Seq<(Sym, Value)>) -> Seq<(Sym, ValueV)> {
    fs.map_values(|f: (Sym, Value)| (f.0, val(f.1)))
}

/// A value, with what it holds.
pub open spec fn opened(v: Value) -> ValueV {
    match v {
        Value::Int(n) => ValueV::Int(n),
        Value::BigInt(b) => ValueV::BigInt(int_of(b@)),
        Value::Float(b) => ValueV::Float(b),
        Value::Bool(b) => ValueV::Bool(b),
        Value::Str(s) => ValueV::Str(s@),
        Value::Unit => ValueV::Unit,
        Value::Tuple(xs) => ValueV::Tuple(vals(xs@)),
        Value::Array(xs) => ValueV::Array(vals(xs@)),
        Value::List(xs) => ValueV::List(vals(xs@)),
        Value::Record(fs) => ValueV::Record(fields(fs@)),
        Value::Ctor(c, xs) => ValueV::Ctor(c, vals(xs@)),
        Value::Closure { param, body, env } => ValueV::Closure { param, body, env },
        Value::Builtin { op, args } => ValueV::Builtin { op, args: vals(args@) },
        Value::Cont(k) => ValueV::Cont(k),
    }
}

pub broadcast proof fn value_opens(v: Value)
    ensures
        #[trigger] val(v) == opened(v),
{
    match v {
        Value::Tuple(xs) => {
            assert(val(v)->Tuple_0 =~= vals(xs@));
        },
        Value::Array(xs) => {
            assert(val(v)->Array_0 =~= vals(xs@));
        },
        Value::List(xs) => {
            assert(val(v)->List_0 =~= vals(xs@));
        },
        Value::Record(fs) => {
            assert(val(v)->Record_0 =~= fields(fs@));
        },
        Value::Ctor(c, xs) => {
            assert(val(v)->Ctor_1 =~= vals(xs@));
        },
        Value::Builtin { op, args } => {
            assert(val(v)->args =~= vals(args@));
        },
        _ => {},
    }
}

pub broadcast proof fn vals_push(xs: Seq<Value>, x: Value)
    ensures
        #[trigger] vals(xs.push(x)) == vals(xs).push(val(x)),
{
    assert(vals(xs.push(x)) =~= vals(xs).push(val(x)));
}

pub broadcast proof fn vals_len(xs: Seq<Value>)
    ensures
        #[trigger] vals(xs).len() == xs.len(),
{
}

pub broadcast proof fn vals_empty()
    ensures
        #[trigger] vals(Seq::empty()) == Seq::<ValueV>::empty(),
{
    assert(vals(Seq::empty()) =~= Seq::<ValueV>::empty());
}

pub broadcast group value_facts {
    value_opens,
    vals_push,
    vals_len,
    vals_empty,
}

impl Value {
    /// The same value, shared.
    pub fn copy(&self) -> (r: Value)
        ensures
            r == *self,
    {
        match self {
            Value::Int(n) => Value::Int(*n),
            Value::BigInt(b) => Value::BigInt(share(b)),
            Value::Float(b) => Value::Float(*b),
            Value::Bool(b) => Value::Bool(*b),
            Value::Str(s) => Value::Str(share(s)),
            Value::Unit => Value::Unit,
            Value::Tuple(xs) => Value::Tuple(share(xs)),
            Value::Array(xs) => Value::Array(share(xs)),
            Value::List(xs) => Value::List(share(xs)),
            Value::Record(fs) => Value::Record(share(fs)),
            Value::Ctor(c, xs) => Value::Ctor(*c, share(xs)),
            Value::Closure { param, body, env } => Value::Closure { param: *param, body: share(body), env: *env },
            Value::Builtin { op, args } => Value::Builtin { op: *op, args: share(args) },
            Value::Cont(k) => Value::Cont(*k),
        }
    }
}

/// A copy of some values, in their order.
pub fn copies(xs: &Vec<Value>, from: usize, to: usize) -> (r: Vec<Value>)
    requires
        from <= to <= xs@.len(),
    ensures
        r@ == xs@.subrange(from as int, to as int),
{
    let mut r: Vec<Value> = Vec::new();
    let mut i: usize = from;
    while i < to
        invariant
            from <= i <= to <= xs@.len(),
            r@ == xs@.subrange(from as int, i as int),
        decreases to - i,
    {
        r.push(xs[i].copy());
        i = i + 1;
        proof {
            assert(r@ =~= xs@.subrange(from as int, i as int));
        }
    }
    r
}

/// `out` with every one of `xs` behind it.
pub fn append_all(out: &mut Vec<Value>, xs: &Vec<Value>)
    ensures
        final(out)@ == old(out)@ + xs@,
{
    let ghost was = out@;
    let mut i: usize = 0;
    proof {
        assert(out@ =~= was + xs@.take(0));
    }
    while i < xs.len()
        invariant
            i <= xs@.len(),
            out@ == was + xs@.take(i as int),
        decreases xs@.len() - i,
    {
        out.push(xs[i].copy());
        i = i + 1;
        proof {
            assert(out@ =~= was + xs@.take(i as int));
        }
    }
    proof {
        assert(xs@.take(i as int) =~= xs@);
    }
}

} // verus!
