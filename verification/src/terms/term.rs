//! Core terms.

use super::prim::{Lit, Prim};
use super::symbol::{Sym, Symbols};
use super::ty::{Poly, Ty, TyVar};
use crate::seq::ir::Loc;
use vstd::prelude::*;

verus! {

/// A variable. Each is bound in one place.
pub type Var = u32;

pub enum Pat {
    Wild,
    Var(Var, Ty),
    As(Var, Ty, Box<Pat>),
    Lit(Lit),
    Ctor(Sym, Vec<Pat>),
    Tuple(Vec<Pat>),
    /// An array of exactly this length.
    Array(Vec<Pat>),
    /// The fields it names, and whatever others there are.
    Record(Vec<(Sym, Pat)>),
}

/// A `case` arm: its pattern, its guard, and its body.
pub struct Arm {
    pub pat: Pat,
    pub guard: Option<Term>,
    pub body: Term,
}

/// A clause of a handler.
pub struct HClause {
    pub effect: Sym,
    pub op: Sym,
    pub param: Var,
    pub param_ty: Ty,
    pub resume: Var,
    pub resume_ty: Ty,
    pub body: Term,
}

pub enum Term {
    /// What a person wrote at a position.
    Loc(Loc, Box<Term>),
    Var(Var),
    Lit(Lit),
    Lam(Var, Ty, Box<Term>),
    App(Box<Term>, Box<Term>),
    /// A type abstraction. The number tells it from every other.
    TyLam(u32, Vec<TyVar>, Box<Term>),
    TyApp(Box<Term>, Vec<Ty>),
    Let(Var, Poly, Box<Term>, Box<Term>),
    LetRec(Vec<(Var, Poly, Term)>, Box<Term>),
    /// A join point, and what may jump to it.
    Join { var: Var, params: Vec<(Var, Ty)>, ty: Ty, rhs: Box<Term>, body: Box<Term> },
    Jump(Var, Vec<Term>, Ty),
    If(Box<Term>, Box<Term>, Box<Term>),
    Tuple(Vec<Term>),
    Proj(Box<Term>, usize),
    Array(Vec<Term>, Ty),
    /// Labels, and a value for each.
    Record(Vec<Sym>, Vec<Term>),
    Sel(Box<Term>, Sym, Ty),
    Extend(Box<Term>, Sym, Box<Term>),
    Ctor(Sym, Ty, Vec<Term>),
    Prim(Prim, Vec<Term>, Ty),
    Case(Box<Term>, Vec<Arm>, Ty),
    Perform(Sym, Sym, Box<Term>, Ty),
    Handle { body: Box<Term>, clauses: Vec<HClause>, ret: Option<(Var, Ty, Box<Term>)>, ty: Ty },
    /// One that could not be built.
    Error,
}

/// A constructor of a type, and its fields' types, over the type's parameters.
pub struct Variant {
    pub name: Sym,
    pub fields: Vec<Ty>,
}

pub struct CoreDef {
    pub var: Var,
    pub name: Sym,
    pub poly: Poly,
    pub term: Term,
}

/// A program, ready to be lowered.
pub struct CoreProgram {
    pub symbols: Symbols,
    pub defs: Vec<CoreDef>,
    pub entry: Option<Var>,
    /// The constructors of each type.
    pub variants: Vec<(Sym, Vec<Variant>)>,
    /// Named-field order per constructor.
    pub ctor_fields: Vec<(Sym, Vec<Sym>)>,
    /// Variables that are copies of another.
    pub origins: Vec<(Var, Var)>,
}

/// A term without the positions around it.
pub open spec fn peeled(t: Term) -> Term
    decreases t,
{
    match t {
        Term::Loc(_, inner) => peeled(*inner),
        t => t,
    }
}

impl Term {
    pub fn peel(&self) -> (r: &Term)
        ensures
            *r == peeled(*self),
        decreases self,
    {
        match self {
            Term::Loc(_, inner) => inner.peel(),
            t => t,
        }
    }
}

/// The variables a pattern binds, in order, added to `out`.
pub open spec fn pattern_vars(out: Seq<Var>, p: Pat) -> Seq<Var>
    decreases p, 0nat,
{
    match p {
        Pat::Wild | Pat::Lit(_) => out,
        Pat::Var(x, _) => out.push(x),
        Pat::As(x, _, sub) => pattern_vars(out.push(x), *sub),
        Pat::Ctor(_, ps) => patterns_vars(out, ps@, ps@.len()),
        Pat::Tuple(ps) => patterns_vars(out, ps@, ps@.len()),
        Pat::Array(ps) => patterns_vars(out, ps@, ps@.len()),
        Pat::Record(fs) => fields_vars(out, fs@, fs@.len()),
    }
}

pub open spec fn patterns_vars(out: Seq<Var>, ps: Seq<Pat>, n: nat) -> Seq<Var>
    decreases ps, n,
{
    if n == 0 || n > ps.len() {
        out
    } else {
        pattern_vars(patterns_vars(out, ps, (n - 1) as nat), ps[n - 1])
    }
}

pub open spec fn fields_vars(out: Seq<Var>, fs: Seq<(Sym, Pat)>, n: nat) -> Seq<Var>
    decreases fs, n,
{
    if n == 0 || n > fs.len() {
        out
    } else {
        pattern_vars(fields_vars(out, fs, (n - 1) as nat), fs[n - 1].1)
    }
}

/// Adds the variables a pattern binds to `out`, in order.
pub fn pat_vars(p: &Pat, out: &mut Vec<Var>)
    ensures
        final(out)@ == pattern_vars(old(out)@, *p),
    decreases p, 0nat,
{
    match p {
        Pat::Wild | Pat::Lit(_) => {},
        Pat::Var(x, _) => {
            out.push(*x);
        },
        Pat::As(x, _, sub) => {
            out.push(*x);
            pat_vars(sub, out);
        },
        Pat::Ctor(_, ps) => {
            pats_vars(ps, out);
        },
        Pat::Tuple(ps) => {
            pats_vars(ps, out);
        },
        Pat::Array(ps) => {
            pats_vars(ps, out);
        },
        Pat::Record(fs) => {
            let ghost was = out@;
            let mut i: usize = 0;
            while i < fs.len()
                invariant
                    i <= fs@.len(),
                    decreases_to!(p => fs),
                    out@ == fields_vars(was, fs@, i as nat),
                decreases fs@.len() - i,
            {
                assert(decreases_to!(fs => fs@[i as int]));
                pat_vars(&fs[i].1, out);
                i = i + 1;
            }
        },
    }
}

fn pats_vars(ps: &Vec<Pat>, out: &mut Vec<Var>)
    ensures
        final(out)@ == patterns_vars(old(out)@, ps@, ps@.len()),
    decreases ps, 1nat,
{
    let ghost was = out@;
    let mut i: usize = 0;
    while i < ps.len()
        invariant
            i <= ps@.len(),
            out@ == patterns_vars(was, ps@, i as nat),
        decreases ps@.len() - i,
    {
        assert(decreases_to!(ps => ps@[i as int]));
        pat_vars(&ps[i], out);
        i = i + 1;
    }
}

} // verus!
