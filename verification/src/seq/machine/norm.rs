//! Values with each vector and list as the elements it holds: what they are compared and shown
//! by, since a vector's inside varies with how it was built.

use super::elems::{elems, items, list_ctor, node, nodes};
use super::value::ValueV;
use crate::terms::prim::Width;
use crate::terms::symbol::{self, Sym};
use vstd::prelude::*;

verus! {

/// A value, with each vector and list as the elements it holds.
pub enum Plain {
    Int(i64),
    BigInt(int),
    Float(u64),
    Word(Width, u64),
    Float32(u32),
    Bool(bool),
    Str(Seq<char>),
    Char(char),
    Unit,
    Vector(Seq<Plain>),
    List(Seq<Plain>),
    Data(Sym, Seq<Plain>),
    Array(Seq<Plain>),
    Record(Seq<(Sym, Plain)>),
    Ref(usize),
    MutArray(usize),
    Obj,
    Halt,
    Compact(Box<Plain>),
}

pub open spec fn norm(v: ValueV) -> Plain
    decreases v, 1nat,
{
    match v {
        ValueV::Int(n) => Plain::Int(n),
        ValueV::BigInt(n) => Plain::BigInt(n),
        ValueV::Float(b) => Plain::Float(b),
        ValueV::Word(w, b) => Plain::Word(w, b),
        ValueV::Float32(b) => Plain::Float32(b),
        ValueV::Bool(b) => Plain::Bool(b),
        ValueV::Str(s) => Plain::Str(s),
        ValueV::Char(c) => Plain::Char(c),
        ValueV::Unit => Plain::Unit,
        ValueV::Array(xs) => Plain::Array(norms(xs)),
        ValueV::Record(fs) => Plain::Record(
            Seq::new(
                fs.len(),
                |i: int|
                    if 0 <= i < fs.len() {
                        (fs[i].0, norm(fs[i].1))
                    } else {
                        arbitrary()
                    },
            ),
        ),
        ValueV::Data(c, _, args) => if c == symbol::VECTOR_EMPTY && args.len() == 0 {
            Plain::Vector(Seq::empty())
        } else if c == symbol::VECTOR_SINGLE && args.len() == 1 && args[0] is Array {
            match args[0] {
                ValueV::Array(xs) => Plain::Vector(norms(xs)),
                _ => Plain::Unit,
            }
        } else if c == symbol::VECTOR_FULL && args.len() == 7 && elems(v) is Some {
            match (args[2], args[3], args[5], args[6]) {
                (ValueV::Array(a), ValueV::Array(b), ValueV::Array(c), ValueV::Array(d)) => Plain::Vector(
                    norms(a) + norms(b) + node_norm(args[4]) + norms(c) + norms(d),
                ),
                _ => Plain::Unit,
            }
        } else if list_ctor(c) && items(v) is Some {
            Plain::List(list_norm(v))
        } else {
            Plain::Data(c, norms(args))
        },
        ValueV::Ref(k) => Plain::Ref(k),
        ValueV::MutArray(k) => Plain::MutArray(k),
        ValueV::Obj(_, _) => Plain::Obj,
        ValueV::Halt => Plain::Halt,
        ValueV::Compact(x, _) => Plain::Compact(Box::new(norm(*x))),
    }
}

pub open spec fn list_norm(v: ValueV) -> Seq<Plain>
    decreases v, 0nat,
{
    match v {
        ValueV::Data(c, _, fs) => if c == symbol::LIST_CONS && fs.len() == 2 {
            seq![norm(fs[0])] + list_norm(fs[1])
        } else {
            Seq::empty()
        },
        _ => Seq::empty(),
    }
}

pub open spec fn norms(xs: Seq<ValueV>) -> Seq<Plain>
    decreases xs, 0nat,
{
    Seq::new(
        xs.len(),
        |i: int|
            if 0 <= i < xs.len() {
                norm(xs[i])
            } else {
                arbitrary()
            },
    )
}

pub open spec fn node_norm(v: ValueV) -> Seq<Plain>
    decreases v, 0nat,
{
    match v {
        ValueV::Data(c, _, args) => if c == symbol::VNODE_LEAF && args.len() == 1 {
            match args[0] {
                ValueV::Array(xs) => norms(xs),
                _ => Seq::empty(),
            }
        } else if c == symbol::VNODE_BRANCH && args.len() == 2 {
            match args[1] {
                ValueV::Array(kids) => nodes_norm(kids, kids.len()),
                _ => Seq::empty(),
            }
        } else {
            Seq::empty()
        },
        _ => Seq::empty(),
    }
}

pub open spec fn nodes_norm(kids: Seq<ValueV>, n: nat) -> Seq<Plain>
    decreases kids, n,
{
    if n == 0 || n > kids.len() {
        Seq::empty()
    } else {
        nodes_norm(kids, (n - 1) as nat) + node_norm(kids[n - 1])
    }
}

pub proof fn lemma_norms(xs: Seq<ValueV>)
    ensures
        norms(xs).len() == xs.len(),
        forall|i: int| 0 <= i < xs.len() ==> #[trigger] norms(xs)[i] == norm(xs[i]),
{
}

proof fn lemma_norms_join(a: Seq<ValueV>, b: Seq<ValueV>)
    ensures
        norms(a + b) == norms(a) + norms(b),
{
    assert(norms(a + b) =~= norms(a) + norms(b));
}

proof fn lemma_node_norm(v: ValueV)
    ensures
        match node(v) {
            Some(xs) => node_norm(v) == norms(xs),
            None => true,
        },
    decreases v, 0nat,
{
    if let ValueV::Data(c, _, args) = v {
        if c == symbol::VNODE_BRANCH && args.len() == 2 {
            assert(decreases_to!(v => args[1]));
            if let ValueV::Array(kids) = args[1] {
                lemma_nodes_norm(kids, kids.len());
            }
        }
    }
}

proof fn lemma_nodes_norm(kids: Seq<ValueV>, n: nat)
    ensures
        match nodes(kids, n) {
            Some(xs) => nodes_norm(kids, n) == norms(xs),
            None => true,
        },
    decreases kids, n,
{
    if n > 0 && n <= kids.len() {
        lemma_nodes_norm(kids, (n - 1) as nat);
        assert(decreases_to!(kids => kids[n - 1]));
        lemma_node_norm(kids[n - 1]);
        if let (Some(a), Some(b)) = (nodes(kids, (n - 1) as nat), node(kids[n - 1])) {
            lemma_norms_join(a, b);
        }
    } else {
        assert(norms(Seq::empty()) =~= Seq::<Plain>::empty());
    }
}

/// A vector is its elements, however it was built; nothing else is one.
pub proof fn a_vector_is_its_elements(v: ValueV)
    ensures
        match elems(v) {
            Some(xs) => norm(v) == Plain::Vector(norms(xs)),
            None => !(norm(v) is Vector),
        },
{
    if let ValueV::Data(c, _, args) = v {
        if c == symbol::VECTOR_EMPTY && args.len() == 0 {
            assert(norms(Seq::empty()) =~= Seq::<Plain>::empty());
        } else if c == symbol::VECTOR_FULL && args.len() == 7 {
            if elems(v) is Some {
                lemma_node_norm(args[4]);
                let (a, b) = (args[2]->Array_0, args[3]->Array_0);
                let m = node(args[4])->0;
                let (x, y) = (args[5]->Array_0, args[6]->Array_0);
                lemma_norms_join(a, b);
                lemma_norms_join(a + b, m);
                lemma_norms_join(a + b + m, x);
                lemma_norms_join(a + b + m + x, y);
            }
        }
    }
}

proof fn lemma_list_norm(v: ValueV)
    ensures
        match items(v) {
            Some(xs) => list_norm(v) == norms(xs),
            None => true,
        },
    decreases v,
{
    if let ValueV::Data(c, _, fs) = v {
        if c == symbol::LIST_CONS && fs.len() == 2 {
            assert(decreases_to!(v => fs[1]));
            lemma_list_norm(fs[1]);
            if let Some(rest) = items(fs[1]) {
                lemma_norms_join(seq![fs[0]], rest);
                assert(norms(seq![fs[0]]) =~= seq![norm(fs[0])]);
            }
        } else {
            assert(norms(Seq::empty()) =~= Seq::<Plain>::empty());
        }
    }
}

/// A list is its items; data that is neither a vector nor a list is what it is.
pub proof fn a_list_is_its_items(v: ValueV)
    ensures
        match v {
            ValueV::Data(c, _, args) => match items(v) {
                Some(xs) => norm(v) == Plain::List(norms(xs)),
                None => elems(v) is None ==> norm(v) == Plain::Data(c, norms(args)),
            },
            _ => items(v) is None && !(norm(v) is List),
        },
{
    lemma_list_norm(v);
}

/// A record's fields, each with its vectors as their elements.
pub open spec fn norm_fields(fs: Seq<(Sym, ValueV)>) -> Seq<(Sym, Plain)> {
    fs.map_values(|f: (Sym, ValueV)| (f.0, norm(f.1)))
}

pub proof fn lemma_norm_record(fs: Seq<(Sym, ValueV)>)
    ensures
        norm(ValueV::Record(fs)) == Plain::Record(norm_fields(fs)),
{
    assert(norm(ValueV::Record(fs))->Record_0 =~= norm_fields(fs));
}

} // verus!
