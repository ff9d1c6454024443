//! What a term means: the value it comes to, said without lowering it or running it.

use crate::seq::ir::{commuting, Program, Tag};
use crate::seq::machine::prim::{AnswerV, Cx};
use crate::seq::machine::run_prim::prim_op;
use crate::seq::machine::shown::HeapV;
use crate::seq::machine::state::literal;
use crate::seq::machine::value::ValueV;
use crate::terms::prim::Prim;
use crate::terms::symbol::{self, Sym};
use crate::terms::term::{Term, Var};
use vstd::prelude::*;

verus! {

/// What a term is run in: a program's symbols, the heap, and the number of each constructor.
pub struct World {
    pub p: Program,
    pub heap: HeapV,
    pub tags: Map<Sym, Tag>,
}

impl World {
    pub open spec fn cx(self) -> Cx {
        Cx { names: self.p.symbols@, tags: self.p.tags@, heap: self.heap }
    }
}

/// What a primitive that leaves the heap alone answers.
#[verifier::opaque]
pub open spec fn prim_value(w: World, f: Prim, vs: Seq<ValueV>) -> Option<ValueV> {
    match f {
        Prim::Once | Prim::Detach | Prim::Enter | Prim::Reattach | Prim::GlobalReady | Prim::GlobalGet | Prim::GlobalSet
        | Prim::TakeOnce => None,
        _ => match prim_op(f, vs, w.cx()) {
            Ok((h, AnswerV::Value(v))) => if h == w.heap {
                Some(v)
            } else {
                None
            },
            _ => None,
        },
    }
}

/// A literal stands first in an operation that may take it second. Of those, the ones on
/// integers are spoken of here.
pub open spec fn turned(f: Prim, xs: Seq<Term>) -> bool {
    xs.len() == 2 && xs[0] is Lit && !(xs[1] is Lit) && commuting(f)
}

/// The value a term comes to where variables are what `rho` says: of terms that call
/// nothing.
pub open spec fn means(w: World, e: Term, rho: Map<Var, ValueV>) -> Option<ValueV>
    decreases e, 0nat,
{
    match e {
        Term::Loc(_, b) => means(w, *b, rho),
        Term::Var(v) => if rho.contains_key(v) {
            Some(rho[v])
        } else {
            None
        },
        Term::Lit(l) => Some(literal(l, w.p.symbols@)),
        Term::Prim(f, xs, _) => match all_mean(w, xs@, xs@.len(), rho) {
            Some(vs) => if turned(f, xs@) && !(vs[0] is Int && vs[1] is Int) {
                None
            } else {
                prim_value(w, f, vs)
            },
            None => None,
        },
        Term::Tuple(xs) => match all_mean(w, xs@, xs@.len(), rho) {
            Some(vs) => Some(ValueV::Data(symbol::TUPLE, w.tags[symbol::TUPLE], vs)),
            None => None,
        },
        Term::Ctor(c, _, xs) => match all_mean(w, xs@, xs@.len(), rho) {
            Some(vs) => Some(ValueV::Data(c, w.tags[c], vs)),
            None => None,
        },
        Term::Array(xs, _) => match all_mean(w, xs@, xs@.len(), rho) {
            Some(vs) => Some(ValueV::Array(vs)),
            None => None,
        },
        Term::Proj(b, i) => match means(w, *b, rho) {
            Some(ValueV::Data(_, _, fs)) => if i < fs.len() {
                Some(fs[i as int])
            } else {
                None
            },
            _ => None,
        },
        Term::Let(x, _, r, b) => match means(w, *r, rho) {
            Some(u) => means(w, *b, rho.insert(x, u)),
            None => None,
        },
        Term::If(c, t, f) => match means(w, *c, rho) {
            Some(ValueV::Bool(true)) => means(w, *t, rho),
            Some(ValueV::Bool(false)) => means(w, *f, rho),
            _ => None,
        },
        _ => None,
    }
}

/// The values the first `n` of some terms come to.
pub open spec fn all_mean(w: World, xs: Seq<Term>, n: nat, rho: Map<Var, ValueV>) -> Option<Seq<ValueV>>
    decreases xs, n,
{
    if n == 0 || n > xs.len() {
        Some(Seq::empty())
    } else {
        match (all_mean(w, xs, (n - 1) as nat, rho), means(w, xs[n - 1], rho)) {
            (Some(vs), Some(v)) => Some(vs.push(v)),
            _ => None,
        }
    }
}

/// A term that calls nothing: what [`means`] speaks of.
pub open spec fn pure(e: Term) -> bool
    decreases e,
{
    match e {
        Term::Loc(_, b) => pure(*b),
        Term::Var(_) | Term::Lit(_) => true,
        Term::Prim(_, xs, _) => forall|i: int| 0 <= i < xs@.len() ==> pure(#[trigger] xs@[i]),
        Term::Tuple(xs) => forall|i: int| 0 <= i < xs@.len() ==> pure(#[trigger] xs@[i]),
        Term::Ctor(_, _, xs) => forall|i: int| 0 <= i < xs@.len() ==> pure(#[trigger] xs@[i]),
        Term::Array(xs, _) => forall|i: int| 0 <= i < xs@.len() ==> pure(#[trigger] xs@[i]),
        Term::Proj(b, _) => pure(*b),
        Term::Let(_, _, r, b) => pure(*r) && pure(*b),
        Term::If(c, t, f) => pure(*c) && pure(*t) && pure(*f),
        _ => false,
    }
}

/// One that does not branch either.
pub open spec fn flat(e: Term) -> bool
    decreases e,
{
    match e {
        Term::Loc(_, b) => flat(*b),
        Term::Var(_) | Term::Lit(_) => true,
        Term::Prim(_, xs, _) => forall|i: int| 0 <= i < xs@.len() ==> flat(#[trigger] xs@[i]),
        Term::Tuple(xs) => forall|i: int| 0 <= i < xs@.len() ==> flat(#[trigger] xs@[i]),
        Term::Ctor(_, _, xs) => forall|i: int| 0 <= i < xs@.len() ==> flat(#[trigger] xs@[i]),
        Term::Array(xs, _) => forall|i: int| 0 <= i < xs@.len() ==> flat(#[trigger] xs@[i]),
        Term::Proj(b, _) => flat(*b),
        Term::Let(_, _, r, b) => flat(*r) && flat(*b),
        _ => false,
    }
}

/// A variable that a term may look at from outside.
pub open spec fn mentions(e: Term, v: Var) -> bool
    decreases e,
{
    match e {
        Term::Loc(_, b) => mentions(*b, v),
        Term::Var(x) => x == v,
        Term::Prim(_, xs, _) => exists|i: int| 0 <= i < xs@.len() && mentions(#[trigger] xs@[i], v),
        Term::Tuple(xs) => exists|i: int| 0 <= i < xs@.len() && mentions(#[trigger] xs@[i], v),
        Term::Ctor(_, _, xs) => exists|i: int| 0 <= i < xs@.len() && mentions(#[trigger] xs@[i], v),
        Term::Array(xs, _) => exists|i: int| 0 <= i < xs@.len() && mentions(#[trigger] xs@[i], v),
        Term::Proj(b, _) => mentions(*b, v),
        Term::Let(x, _, r, b) => mentions(*r, v) || (v != x && mentions(*b, v)),
        Term::If(c, t, f) => mentions(*c, v) || mentions(*t, v) || mentions(*f, v),
        _ => false,
    }
}

/// A variable that a term binds.
pub open spec fn binds(e: Term, v: Var) -> bool
    decreases e,
{
    match e {
        Term::Loc(_, b) => binds(*b, v),
        Term::Prim(_, xs, _) => exists|i: int| 0 <= i < xs@.len() && binds(#[trigger] xs@[i], v),
        Term::Tuple(xs) => exists|i: int| 0 <= i < xs@.len() && binds(#[trigger] xs@[i], v),
        Term::Ctor(_, _, xs) => exists|i: int| 0 <= i < xs@.len() && binds(#[trigger] xs@[i], v),
        Term::Array(xs, _) => exists|i: int| 0 <= i < xs@.len() && binds(#[trigger] xs@[i], v),
        Term::Proj(b, _) => binds(*b, v),
        Term::Let(x, _, r, b) => v == x || binds(*r, v) || binds(*b, v),
        Term::If(c, t, f) => binds(*c, v) || binds(*t, v) || binds(*f, v),
        _ => false,
    }
}

pub open spec fn disjoint(a: Term, b: Term) -> bool {
    forall|v: Var| #[trigger] binds(a, v) ==> !binds(b, v)
}

/// No variable is bound twice, and every constructor has a number.
pub open spec fn neat(w: World, e: Term) -> bool
    decreases e,
{
    match e {
        Term::Loc(_, b) => neat(w, *b),
        Term::Prim(_, xs, _) => neat_all(w, xs@),
        Term::Tuple(xs) => neat_all(w, xs@) && w.tags.contains_key(symbol::TUPLE),
        Term::Ctor(c, _, xs) => neat_all(w, xs@) && w.tags.contains_key(c),
        Term::Array(xs, _) => neat_all(w, xs@),
        Term::Proj(b, _) => neat(w, *b),
        Term::Let(x, _, r, b) => neat(w, *r) && neat(w, *b) && disjoint(*r, *b) && !binds(*r, x) && !binds(*b, x),
        Term::If(c, t, f) => neat(w, *c) && neat(w, *t) && neat(w, *f) && disjoint(*c, *t) && disjoint(*c, *f),
        _ => true,
    }
}

pub open spec fn neat_all(w: World, xs: Seq<Term>) -> bool
    decreases xs,
{
    &&& forall|i: int| 0 <= i < xs.len() ==> neat(w, #[trigger] xs[i])
    &&& forall|i: int, j: int| 0 <= i < j < xs.len() ==> disjoint(#[trigger] xs[i], #[trigger] xs[j])
}

} // verus!
