//! Vectors as the elements they hold.

use super::value::{append_all, copies, val, vals, value_facts, Value, ValueV};
use super::term;
use crate::terms::symbol::Sym;
use std::rc::Rc;
use vstd::prelude::*;

verus! {

broadcast use value_facts;

/// Is this the outer constructor of a `Vector`, which `[…]` makes? Its inside varies
/// with how it was built, so it is shown and compared as the elements it holds.
pub open spec fn vector_ctor(c: Sym) -> bool {
    c == term::VECTOR_EMPTY || c == term::VECTOR_SINGLE || c == term::VECTOR_FULL
}

pub fn is_vector_ctor(c: Sym) -> (r: bool)
    ensures
        r == vector_ctor(c),
{
    c == term::VECTOR_EMPTY || c == term::VECTOR_SINGLE || c == term::VECTOR_FULL
}

/// The elements of a node of a vector's tree.
pub open spec fn node(v: ValueV) -> Option<Seq<ValueV>>
    decreases v, 0nat,
{
    match v {
        ValueV::Ctor(c, args) => if c == term::VNODE_LEAF && args.len() == 1 {
            match args[0] {
                ValueV::Array(xs) => Some(xs),
                _ => None,
            }
        } else if c == term::VNODE_BRANCH && args.len() == 2 {
            match args[1] {
                ValueV::Array(kids) => nodes(kids, kids.len()),
                _ => None,
            }
        } else {
            None
        },
        _ => None,
    }
}

/// The elements of the first `n` of some nodes.
pub open spec fn nodes(kids: Seq<ValueV>, n: nat) -> Option<Seq<ValueV>>
    decreases kids, n,
{
    if n == 0 || n > kids.len() {
        Some(Seq::empty())
    } else {
        match (nodes(kids, (n - 1) as nat), node(kids[n - 1])) {
            (Some(a), Some(b)) => Some(a + b),
            _ => None,
        }
    }
}

pub open spec fn array_in(v: ValueV) -> Option<Seq<ValueV>> {
    match v {
        ValueV::Array(xs) => Some(xs),
        _ => None,
    }
}

/// The elements of a vector, in order: nothing, if it is none.
pub open spec fn elems(v: ValueV) -> Option<Seq<ValueV>> {
    match v {
        ValueV::Ctor(c, args) => if c == term::VECTOR_EMPTY && args.len() == 0 {
            Some(Seq::empty())
        } else if c == term::VECTOR_SINGLE && args.len() == 1 {
            array_in(args[0])
        } else if c == term::VECTOR_FULL && args.len() == 7 {
            match (
                array_in(args[2]),
                array_in(args[3]),
                node(args[4]),
                array_in(args[5]),
                array_in(args[6]),
            ) {
                (Some(a), Some(b), Some(m), Some(c), Some(d)) => Some(a + b + m + c + d),
                _ => None,
            }
        } else {
            None
        },
        _ => None,
    }
}

/// The elements of a vector are parts of it.
pub proof fn elements_are_inside(v: ValueV)
    ensures
        match elems(v) {
            Some(xs) => forall|i: int| 0 <= i < xs.len() ==> decreases_to!(v => #[trigger] xs[i]),
            None => true,
        },
{
    if let ValueV::Ctor(c, args) = v {
        if c == term::VECTOR_SINGLE && args.len() == 1 {
            assert(decreases_to!(v => args[0]));
        } else if c == term::VECTOR_FULL && args.len() == 7 {
            assert(decreases_to!(v => args[2]));
            assert(decreases_to!(v => args[3]));
            assert(decreases_to!(v => args[4]));
            assert(decreases_to!(v => args[5]));
            assert(decreases_to!(v => args[6]));
            lemma_node_inside(args[4]);
        }
    }
}

proof fn lemma_node_inside(v: ValueV)
    ensures
        match node(v) {
            Some(xs) => forall|i: int| 0 <= i < xs.len() ==> decreases_to!(v => #[trigger] xs[i]),
            None => true,
        },
    decreases v, 0nat,
{
    if let ValueV::Ctor(c, args) = v {
        if c == term::VNODE_LEAF && args.len() == 1 {
            assert(decreases_to!(v => args[0]));
        } else if c == term::VNODE_BRANCH && args.len() == 2 {
            assert(decreases_to!(v => args[1]));
            if let ValueV::Array(kids) = args[1] {
                lemma_nodes_inside(kids, kids.len());
            }
        }
    }
}

proof fn lemma_nodes_inside(kids: Seq<ValueV>, n: nat)
    ensures
        match nodes(kids, n) {
            Some(xs) => forall|i: int| 0 <= i < xs.len() ==> decreases_to!(kids => #[trigger] xs[i]),
            None => true,
        },
    decreases kids, n,
{
    if n > 0 && n <= kids.len() {
        lemma_nodes_inside(kids, (n - 1) as nat);
        assert(decreases_to!(kids => kids[n - 1]));
        lemma_node_inside(kids[n - 1]);
    }
}

/// The elements of a node, behind `out`.
pub fn vector_node_elems(v: &Value, out: &mut Vec<Value>) -> (r: bool)
    ensures
        match node(val(*v)) {
            Some(xs) => r && vals(final(out)@) == vals(old(out)@) + xs,
            None => !r,
        },
    decreases v, 0nat,
{
    let ghost was = out@;
    match v {
        Value::Ctor(c, args) => if *c == term::VNODE_LEAF && args.len() == 1 {
            match &args[0] {
                Value::Array(xs) => {
                    append_all(out, xs);
                    proof {
                        assert(vals(out@) =~= vals(was) + vals(xs@));
                    }
                    true
                },
                _ => false,
            }
        } else if *c == term::VNODE_BRANCH && args.len() == 2 {
            assert(decreases_to!(v => args@[1]));
            match &args[1] {
                Value::Array(kids) => vector_nodes_elems(kids, out),
                _ => false,
            }
        } else {
            false
        },
        _ => false,
    }
}

fn vector_nodes_elems(kids: &Rc<Vec<Value>>, out: &mut Vec<Value>) -> (r: bool)
    ensures
        match nodes(vals(kids@), kids@.len()) {
            Some(xs) => r && vals(final(out)@) == vals(old(out)@) + xs,
            None => !r,
        },
    decreases *kids, 0nat,
{
    let ghost was = out@;
    let mut ok: bool = true;
    let mut i: usize = 0;
    proof {
        assert(vals(out@) =~= vals(was) + Seq::<ValueV>::empty());
    }
    while i < kids.len()
        invariant
            i <= kids@.len(),
            match nodes(vals(kids@), i as nat) {
                Some(xs) => ok && vals(out@) == vals(was) + xs,
                None => !ok,
            },
        decreases kids@.len() - i,
    {
        if ok {
            assert(decreases_to!(*kids => kids@[i as int]));
            let ghost mid = out@;
            ok = vector_node_elems(&kids[i], out);
            proof {
                if let (Some(a), Some(b)) = (nodes(vals(kids@), i as nat), node(val(kids@[i as int]))) {
                    assert(vals(was) + a + b =~= vals(was) + (a + b));
                }
            }
        }
        i = i + 1;
    }
    ok
}

/// The elements of a vector, in order: nothing, if it is not one.
pub fn vector_elems(v: &Value) -> (r: Option<Vec<Value>>)
    ensures
        match (r, elems(val(*v))) {
            (Some(xs), Some(want)) => vals(xs@) == want,
            (None, None) => true,
            _ => false,
        },
{
    match v {
        Value::Ctor(c, args) => if *c == term::VECTOR_EMPTY && args.len() == 0 {
            Some(Vec::new())
        } else if *c == term::VECTOR_SINGLE && args.len() == 1 {
            match &args[0] {
                Value::Array(xs) => {
                    let r: Vec<Value> = copies(xs, 0, xs.len());
                    proof {
                        assert(r@ =~= xs@);
                    }
                    Some(r)
                },
                _ => None,
            }
        } else if *c == term::VECTOR_FULL && args.len() == 7 {
            match (&args[2], &args[3], &args[5], &args[6]) {
                (Value::Array(a), Value::Array(b), Value::Array(c), Value::Array(d)) => {
                    let mut out: Vec<Value> = copies(a, 0, a.len());
                    append_all(&mut out, b);
                    proof {
                        assert(vals(out@) =~= vals(a@) + vals(b@));
                    }
                    if !vector_node_elems(&args[4], &mut out) {
                        return None;
                    }
                    let ghost mid = out@;
                    append_all(&mut out, c);
                    append_all(&mut out, d);
                    proof {
                        assert(vals(out@) =~= vals(mid) + vals(c@) + vals(d@));
                    }
                    Some(out)
                },
                _ => None,
            }
        } else {
            None
        },
        _ => None,
    }
}

} // verus!
