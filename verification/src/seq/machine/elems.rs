//! Vectors and lists as the elements they hold.

use super::value::{append_all, copies, val, vals, value_facts, Value, ValueV};
use crate::terms::symbol::{self, Sym};
use std::rc::Rc;
use vstd::prelude::*;

verus! {

broadcast use value_facts;

/// Is this the outer constructor of a `Vector`, which `[…]` makes? Its inside varies
/// with how it was built, so it is shown and compared as the elements it holds.
pub open spec fn vector_ctor(c: Sym) -> bool {
    c == symbol::VECTOR_EMPTY || c == symbol::VECTOR_SINGLE || c == symbol::VECTOR_FULL
}

pub fn is_vector_ctor(c: Sym) -> (r: bool)
    ensures
        r == vector_ctor(c),
{
    c == symbol::VECTOR_EMPTY || c == symbol::VECTOR_SINGLE || c == symbol::VECTOR_FULL
}

/// The elements of a node of a vector's tree.
pub open spec fn node(v: ValueV) -> Option<Seq<ValueV>>
    decreases v, 0nat,
{
    match v {
        ValueV::Data(c, _, args) => if c == symbol::VNODE_LEAF && args.len() == 1 {
            match args[0] {
                ValueV::Array(xs) => Some(xs),
                _ => None,
            }
        } else if c == symbol::VNODE_BRANCH && args.len() == 2 {
            match args[1] {
                ValueV::Array(kids) => nodes(kids, kids.len()),
                _ => None,
            }
        } else {
            None
        },
        _ => None,
    }
}

/// The elements of the first `n` of some nodes.
pub open spec fn nodes(kids: Seq<ValueV>, n: nat) -> Option<Seq<ValueV>>
    decreases kids, n,
{
    if n == 0 || n > kids.len() {
        Some(Seq::empty())
    } else {
        match (nodes(kids, (n - 1) as nat), node(kids[n - 1])) {
            (Some(a), Some(b)) => Some(a + b),
            _ => None,
        }
    }
}

pub open spec fn array_in(v: ValueV) -> Option<Seq<ValueV>> {
    match v {
        ValueV::Array(xs) => Some(xs),
        _ => None,
    }
}

/// The elements of a vector, in order: nothing, if it is none.
pub open spec fn elems(v: ValueV) -> Option<Seq<ValueV>> {
    match v {
        ValueV::Data(c, _, args) => if c == symbol::VECTOR_EMPTY && args.len() == 0 {
            Some(Seq::empty())
        } else if c == symbol::VECTOR_SINGLE && args.len() == 1 {
            array_in(args[0])
        } else if c == symbol::VECTOR_FULL && args.len() == 7 {
            match (
                array_in(args[2]),
                array_in(args[3]),
                node(args[4]),
                array_in(args[5]),
                array_in(args[6]),
            ) {
                (Some(a), Some(b), Some(m), Some(c), Some(d)) => Some(a + b + m + c + d),
                _ => None,
            }
        } else {
            None
        },
        _ => None,
    }
}

/// The elements of a vector are parts of it.
pub proof fn elements_are_inside(v: ValueV)
    ensures
        match elems(v) {
            Some(xs) => forall|i: int| 0 <= i < xs.len() ==> decreases_to!(v => #[trigger] xs[i]),
            None => true,
        },
{
    if let ValueV::Data(c, _, args) = v {
        if c == symbol::VECTOR_SINGLE && args.len() == 1 {
            assert(decreases_to!(v => args[0]));
        } else if c == symbol::VECTOR_FULL && args.len() == 7 {
            assert(decreases_to!(v => args[2]));
            assert(decreases_to!(v => args[3]));
            assert(decreases_to!(v => args[4]));
            assert(decreases_to!(v => args[5]));
            assert(decreases_to!(v => args[6]));
            lemma_node_inside(args[4]);
        }
    }
}

proof fn lemma_node_inside(v: ValueV)
    ensures
        match node(v) {
            Some(xs) => forall|i: int| 0 <= i < xs.len() ==> decreases_to!(v => #[trigger] xs[i]),
            None => true,
        },
    decreases v, 0nat,
{
    if let ValueV::Data(c, _, args) = v {
        if c == symbol::VNODE_LEAF && args.len() == 1 {
            assert(decreases_to!(v => args[0]));
        } else if c == symbol::VNODE_BRANCH && args.len() == 2 {
            assert(decreases_to!(v => args[1]));
            if let ValueV::Array(kids) = args[1] {
                lemma_nodes_inside(kids, kids.len());
            }
        }
    }
}

proof fn lemma_nodes_inside(kids: Seq<ValueV>, n: nat)
    ensures
        match nodes(kids, n) {
            Some(xs) => forall|i: int| 0 <= i < xs.len() ==> decreases_to!(kids => #[trigger] xs[i]),
            None => true,
        },
    decreases kids, n,
{
    if n > 0 && n <= kids.len() {
        lemma_nodes_inside(kids, (n - 1) as nat);
        assert(decreases_to!(kids => kids[n - 1]));
        lemma_node_inside(kids[n - 1]);
    }
}

/// The elements of a node, behind `out`.
pub fn vector_node_elems<'p>(v: &Value<'p>, out: &mut Vec<Value<'p>>) -> (r: bool)
    ensures
        match node(val(*v)) {
            Some(xs) => r && vals(final(out)@) == vals(old(out)@) + xs,
            None => !r,
        },
    decreases v, 0nat,
{
    let ghost was = out@;
    match v {
        Value::Data(c, _, args) => if *c == symbol::VNODE_LEAF && args.len() == 1 {
            match &args[0] {
                Value::Array(xs) => {
                    append_all(out, xs);
                    proof {
                        assert(vals(out@) =~= vals(was) + vals(xs@));
                    }
                    true
                },
                _ => false,
            }
        } else if *c == symbol::VNODE_BRANCH && args.len() == 2 {
            assert(decreases_to!(v => args@[1]));
            match &args[1] {
                Value::Array(kids) => vector_nodes_elems(kids, out),
                _ => false,
            }
        } else {
            false
        },
        _ => false,
    }
}

fn vector_nodes_elems<'p>(kids: &Rc<Vec<Value<'p>>>, out: &mut Vec<Value<'p>>) -> (r: bool)
    ensures
        match nodes(vals(kids@), kids@.len()) {
            Some(xs) => r && vals(final(out)@) == vals(old(out)@) + xs,
            None => !r,
        },
    decreases *kids, 0nat,
{
    let ghost was = out@;
    let mut ok: bool = true;
    let mut i: usize = 0;
    proof {
        assert(vals(out@) =~= vals(was) + Seq::<ValueV>::empty());
    }
    while i < kids.len()
        invariant
            i <= kids@.len(),
            match nodes(vals(kids@), i as nat) {
                Some(xs) => ok && vals(out@) == vals(was) + xs,
                None => !ok,
            },
        decreases kids@.len() - i,
    {
        if ok {
            assert(decreases_to!(*kids => kids@[i as int]));
            let ghost mid = out@;
            ok = vector_node_elems(&kids[i], out);
            proof {
                if let (Some(a), Some(b)) = (nodes(vals(kids@), i as nat), node(val(kids@[i as int]))) {
                    assert(vals(was) + a + b =~= vals(was) + (a + b));
                }
            }
        }
        i = i + 1;
    }
    ok
}

/// The elements of a vector, in order: nothing, if it is not one.
pub fn vector_elems<'p>(v: &Value<'p>) -> (r: Option<Vec<Value<'p>>>)
    ensures
        match (r, elems(val(*v))) {
            (Some(xs), Some(want)) => vals(xs@) == want,
            (None, None) => true,
            _ => false,
        },
{
    match v {
        Value::Data(c, _, args) => if *c == symbol::VECTOR_EMPTY && args.len() == 0 {
            Some(Vec::new())
        } else if *c == symbol::VECTOR_SINGLE && args.len() == 1 {
            match &args[0] {
                Value::Array(xs) => {
                    let r: Vec<Value<'p>> = copies(xs, 0, xs.len());
                    proof {
                        assert(r@ =~= xs@);
                    }
                    Some(r)
                },
                _ => None,
            }
        } else if *c == symbol::VECTOR_FULL && args.len() == 7 {
            match (&args[2], &args[3], &args[5], &args[6]) {
                (Value::Array(a), Value::Array(b), Value::Array(c), Value::Array(d)) => {
                    let mut out: Vec<Value<'p>> = copies(a, 0, a.len());
                    append_all(&mut out, b);
                    proof {
                        assert(vals(out@) =~= vals(a@) + vals(b@));
                    }
                    if !vector_node_elems(&args[4], &mut out) {
                        return None;
                    }
                    let ghost mid = out@;
                    append_all(&mut out, c);
                    append_all(&mut out, d);
                    proof {
                        assert(vals(out@) =~= vals(mid) + vals(c@) + vals(d@));
                    }
                    Some(out)
                },
                _ => None,
            }
        } else {
            None
        },
        _ => None,
    }
}

/// Is this the constructor of a list?
pub open spec fn list_ctor(c: Sym) -> bool {
    c == symbol::LIST_NIL || c == symbol::LIST_CONS
}

/// The items of a chain of `Cons`, in order: nothing, if it does not end in `Nil`.
pub open spec fn items(v: ValueV) -> Option<Seq<ValueV>>
    decreases v,
{
    match v {
        ValueV::Data(c, _, fs) => if c == symbol::LIST_NIL && fs.len() == 0 {
            Some(Seq::empty())
        } else if c == symbol::LIST_CONS && fs.len() == 2 {
            match items(fs[1]) {
                Some(rest) => Some(seq![fs[0]] + rest),
                None => None,
            }
        } else {
            None
        },
        _ => None,
    }
}

/// The items of a list are parts of it.
pub proof fn items_are_inside(v: ValueV)
    ensures
        match items(v) {
            Some(xs) => forall|i: int| 0 <= i < xs.len() ==> decreases_to!(v => #[trigger] xs[i]),
            None => true,
        },
    decreases v,
{
    if let ValueV::Data(c, _, fs) = v {
        if c == symbol::LIST_CONS && fs.len() == 2 {
            assert(decreases_to!(v => fs[0]));
            assert(decreases_to!(v => fs[1]));
            items_are_inside(fs[1]);
            if let Some(rest) = items(fs[1]) {
                let xs = seq![fs[0]] + rest;
                assert forall|i: int| 0 <= i < xs.len() implies decreases_to!(v => #[trigger] xs[i]) by {
                    if i > 0 {
                        assert(xs[i] == rest[i - 1]);
                    }
                }
            }
        }
    }
}

/// The items of a chain of `Cons`, one link at a time.
pub fn list_items<'p>(v: &Value<'p>) -> (r: Option<Vec<Value<'p>>>)
    ensures
        match (r, items(val(*v))) {
            (Some(xs), Some(want)) => vals(xs@) == want,
            (None, None) => true,
            _ => false,
        },
{
    let mut out: Vec<Value<'p>> = Vec::new();
    let mut cur: Value<'p> = v.copy();
    let mut more: bool = true;
    let mut ok: bool = true;
    while more
        invariant
            more ==> match items(val(cur)) {
                Some(rest) => items(val(*v)) == Some(vals(out@) + rest),
                None => items(val(*v)) is None,
            },
            more ==> ok,
            !more && ok ==> items(val(*v)) == Some(vals(out@)),
            !more && !ok ==> items(val(*v)) is None,
        decreases val(cur), (if more { 1nat } else { 0nat }),
    {
        let ghost was = vals(out@);
        let next: Option<Value<'p>> = match &cur {
            Value::Data(c, _, fs) => if *c == symbol::LIST_NIL && fs.len() == 0 {
                more = false;
                None
            } else if *c == symbol::LIST_CONS && fs.len() == 2 {
                out.push(fs[0].copy());
                proof {
                    let d = val(cur);
                    assert(vals(fs@)[0] == val(fs@[0]) && vals(fs@)[1] == val(fs@[1]));
                    assert(decreases_to!(d => vals(fs@)[1])) by {
                        super::equal::parts_are_inside(d);
                        assert(super::equal::list_in(d)[1] == vals(fs@)[1]);
                    }
                    if let Some(rest) = items(vals(fs@)[1]) {
                        assert(was + (seq![vals(fs@)[0]] + rest) =~= vals(out@) + rest);
                    }
                }
                Some(fs[1].copy())
            } else {
                more = false;
                ok = false;
                None
            },
            _ => {
                more = false;
                ok = false;
                None
            },
        };
        proof {
            assert(was + Seq::<ValueV>::empty() =~= was);
        }
        if let Some(n) = next {
            cur = n;
        }
    }
    if ok {
        Some(out)
    } else {
        None
    }
}

} // verus!
