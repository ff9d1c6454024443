//! Values with each vector as the elements it holds: what they are compared and shown
//! by, since a vector's inside varies with how it was built.

use super::elems::{elems, node, nodes};
use super::value::ValueV;
use super::term;
use crate::terms::symbol::Sym;
use vstd::prelude::*;

verus! {

/// A value, with each vector as the elements it holds.
pub enum Plain {
    Int(i64),
    BigInt(int),
    Float(u64),
    Bool(bool),
    Str(Seq<char>),
    Unit,
    Tuple(Seq<Plain>),
    Array(Seq<Plain>),
    List(Seq<Plain>),
    Vector(Seq<Plain>),
    Record(Seq<(Sym, Plain)>),
    Ctor(Sym, Seq<Plain>),
    Closure,
    Builtin(super::term::Prim),
    Cont,
}

pub open spec fn norm(v: ValueV) -> Plain
    decreases v, 0nat,
{
    match v {
        ValueV::Int(n) => Plain::Int(n),
        ValueV::BigInt(n) => Plain::BigInt(n),
        ValueV::Float(b) => Plain::Float(b),
        ValueV::Bool(b) => Plain::Bool(b),
        ValueV::Str(s) => Plain::Str(s),
        ValueV::Unit => Plain::Unit,
        ValueV::Tuple(xs) => Plain::Tuple(norms(xs)),
        ValueV::Array(xs) => Plain::Array(norms(xs)),
        ValueV::List(xs) => Plain::List(norms(xs)),
        ValueV::Record(fs) => Plain::Record(
            Seq::new(
                fs.len(),
                |i: int|
                    if 0 <= i < fs.len() {
                        (fs[i].0, norm(fs[i].1))
                    } else {
                        arbitrary()
                    },
            ),
        ),
        ValueV::Ctor(c, args) => if c == term::VECTOR_EMPTY && args.len() == 0 {
            Plain::Vector(Seq::empty())
        } else if c == term::VECTOR_SINGLE && args.len() == 1 && args[0] is Array {
            match args[0] {
                ValueV::Array(xs) => Plain::Vector(norms(xs)),
                _ => Plain::Unit,
            }
        } else if c == term::VECTOR_FULL && args.len() == 7 && elems(v) is Some {
            match (args[2], args[3], args[5], args[6]) {
                (ValueV::Array(a), ValueV::Array(b), ValueV::Array(c), ValueV::Array(d)) => Plain::Vector(
                    norms(a) + norms(b) + node_norm(args[4]) + norms(c) + norms(d),
                ),
                _ => Plain::Unit,
            }
        } else {
            Plain::Ctor(c, norms(args))
        },
        ValueV::Closure { .. } => Plain::Closure,
        ValueV::Builtin { op, .. } => Plain::Builtin(op),
        ValueV::Cont(_) => Plain::Cont,
    }
}

pub open spec fn norms(xs: Seq<ValueV>) -> Seq<Plain>
    decreases xs, 0nat,
{
    Seq::new(
        xs.len(),
        |i: int|
            if 0 <= i < xs.len() {
                norm(xs[i])
            } else {
                arbitrary()
            },
    )
}

pub open spec fn node_norm(v: ValueV) -> Seq<Plain>
    decreases v, 0nat,
{
    match v {
        ValueV::Ctor(c, args) => if c == term::VNODE_LEAF && args.len() == 1 {
            match args[0] {
                ValueV::Array(xs) => norms(xs),
                _ => Seq::empty(),
            }
        } else if c == term::VNODE_BRANCH && args.len() == 2 {
            match args[1] {
                ValueV::Array(kids) => nodes_norm(kids, kids.len()),
                _ => Seq::empty(),
            }
        } else {
            Seq::empty()
        },
        _ => Seq::empty(),
    }
}

pub open spec fn nodes_norm(kids: Seq<ValueV>, n: nat) -> Seq<Plain>
    decreases kids, n,
{
    if n == 0 || n > kids.len() {
        Seq::empty()
    } else {
        nodes_norm(kids, (n - 1) as nat) + node_norm(kids[n - 1])
    }
}

pub proof fn lemma_norms(xs: Seq<ValueV>)
    ensures
        norms(xs).len() == xs.len(),
        forall|i: int| 0 <= i < xs.len() ==> #[trigger] norms(xs)[i] == norm(xs[i]),
{
}

proof fn lemma_norms_join(a: Seq<ValueV>, b: Seq<ValueV>)
    ensures
        norms(a + b) == norms(a) + norms(b),
{
    assert(norms(a + b) =~= norms(a) + norms(b));
}

proof fn lemma_node_norm(v: ValueV)
    ensures
        match node(v) {
            Some(xs) => node_norm(v) == norms(xs),
            None => true,
        },
    decreases v, 0nat,
{
    if let ValueV::Ctor(c, args) = v {
        if c == term::VNODE_BRANCH && args.len() == 2 {
            assert(decreases_to!(v => args[1]));
            if let ValueV::Array(kids) = args[1] {
                lemma_nodes_norm(kids, kids.len());
            }
        }
    }
}

proof fn lemma_nodes_norm(kids: Seq<ValueV>, n: nat)
    ensures
        match nodes(kids, n) {
            Some(xs) => nodes_norm(kids, n) == norms(xs),
            None => true,
        },
    decreases kids, n,
{
    if n > 0 && n <= kids.len() {
        lemma_nodes_norm(kids, (n - 1) as nat);
        assert(decreases_to!(kids => kids[n - 1]));
        lemma_node_norm(kids[n - 1]);
        if let (Some(a), Some(b)) = (nodes(kids, (n - 1) as nat), node(kids[n - 1])) {
            lemma_norms_join(a, b);
        }
    } else {
        assert(norms(Seq::empty()) =~= Seq::<Plain>::empty());
    }
}

/// A vector is its elements, however it was built; nothing else is one.
pub proof fn a_vector_is_its_elements(v: ValueV)
    ensures
        match elems(v) {
            Some(xs) => norm(v) == Plain::Vector(norms(xs)),
            None => !(norm(v) is Vector) && match v {
                ValueV::Ctor(c, args) => norm(v) == Plain::Ctor(c, norms(args)),
                _ => true,
            },
        },
{
    if let ValueV::Ctor(c, args) = v {
        if c == term::VECTOR_EMPTY && args.len() == 0 {
            assert(norms(Seq::empty()) =~= Seq::<Plain>::empty());
        } else if c == term::VECTOR_FULL && args.len() == 7 {
            if elems(v) is Some {
                lemma_node_norm(args[4]);
                let (a, b) = (args[2]->Array_0, args[3]->Array_0);
                let m = node(args[4])->0;
                let (x, y) = (args[5]->Array_0, args[6]->Array_0);
                lemma_norms_join(a, b);
                lemma_norms_join(a + b, m);
                lemma_norms_join(a + b + m, x);
                lemma_norms_join(a + b + m + x, y);
            }
        }
    }
}

/// A record's fields, each with its vectors as their elements.
pub open spec fn norm_fields(fs: Seq<(Sym, ValueV)>) -> Seq<(Sym, Plain)> {
    fs.map_values(|f: (Sym, ValueV)| (f.0, norm(f.1)))
}

pub proof fn lemma_norm_record(fs: Seq<(Sym, ValueV)>)
    ensures
        norm(ValueV::Record(fs)) == Plain::Record(norm_fields(fs)),
{
    assert(norm(ValueV::Record(fs))->Record_0 =~= norm_fields(fs));
}

} // verus!
