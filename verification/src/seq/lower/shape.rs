//! What terms and patterns look like, where lowering decides by it.

use crate::seq::ir::{commutes, commuting};
use crate::seq::view::before;
use crate::terms::prim::{Lit, Prim};
use crate::terms::term::{pat_vars, pattern_vars, Arm, HClause, Pat, Term, Var};
use crate::terms::ty::{Poly, Ty, TyVar, VarKind};
use vstd::prelude::*;

verus! {

/// Does one of these binders range over types, and so take a descriptor?
pub open spec fn over_types(vs: Seq<TyVar>) -> bool {
    exists|i: int| 0 <= i < vs.len() && (#[trigger] vs[i]).kind == VarKind::Type
}

pub fn any_type(vs: &Vec<TyVar>) -> (r: bool)
    ensures
        r == over_types(vs@),
{
    let mut i: usize = 0;
    while i < vs.len()
        invariant
            i <= vs@.len(),
            forall|j: int| 0 <= j < i ==> (#[trigger] vs@[j]).kind != VarKind::Type,
        decreases vs@.len() - i,
    {
        if vs[i].kind == VarKind::Type {
            return true;
        }
        i = i + 1;
    }
    false
}

/// Is `t` a type abstraction with at least one binder that takes a descriptor?
pub open spec fn abstracts(t: Term) -> bool
    decreases t,
{
    match t {
        Term::Loc(_, inner) => abstracts(*inner),
        Term::TyLam(_, vs, _) => over_types(vs@),
        _ => false,
    }
}

/// Which type abstraction `t` is.
pub open spec fn abs_id(t: Term) -> u32
    decreases t,
{
    match t {
        Term::Loc(_, inner) => abs_id(*inner),
        Term::TyLam(id, _, _) => id,
        _ => 0,
    }
}

/// The binders of type abstraction `t`.
pub open spec fn abs_binders(t: Term) -> Seq<TyVar>
    decreases t,
{
    match t {
        Term::Loc(_, inner) => abs_binders(*inner),
        Term::TyLam(_, vs, _) => vs@,
        _ => Seq::empty(),
    }
}

/// What stands under type abstraction `t`, and `t` itself if it is none.
pub open spec fn under_abs(t: Term) -> Term
    decreases t,
{
    match t {
        Term::Loc(_, inner) => under_abs(*inner),
        Term::TyLam(_, _, body) => *body,
        t => t,
    }
}

/// The type abstraction `t` is: its number, its binders and its body.
pub fn ty_abs(t: &Term) -> (r: Option<(u32, &Vec<TyVar>, &Term)>)
    ensures
        match r {
            Some((id, vs, body)) => abstracts(*t) && id == abs_id(*t) && vs@ == abs_binders(*t) && *body == under_abs(
                *t,
            ),
            None => !abstracts(*t),
        },
    decreases t,
{
    match t {
        Term::Loc(_, inner) => ty_abs(inner),
        Term::TyLam(id, vs, body) => if any_type(vs) {
            Some((*id, vs, &**body))
        } else {
            None
        },
        _ => None,
    }
}

/// Which of the first `n` binders take a descriptor, in order.
pub open spec fn described(vs: Seq<TyVar>, n: nat) -> Seq<usize>
    decreases n,
{
    if n == 0 || n > vs.len() {
        Seq::empty()
    } else if vs[n - 1].kind == VarKind::Type {
        described(vs, (n - 1) as nat).push((n - 1) as usize)
    } else {
        described(vs, (n - 1) as nat)
    }
}

pub fn describe_binders(vs: &Vec<TyVar>) -> (r: Vec<usize>)
    ensures
        r@ == described(vs@, vs@.len()),
{
    let mut r: Vec<usize> = Vec::new();
    let mut i: usize = 0;
    while i < vs.len()
        invariant
            i <= vs@.len(),
            r@ == described(vs@, i as nat),
        decreases vs@.len() - i,
    {
        if vs[i].kind == VarKind::Type {
            r.push(i);
        }
        i = i + 1;
    }
    r
}

/// What is called, where `t` is a call: through positions, and through an
/// instantiation, which passes nothing of its own at run time.
pub open spec fn head(t: Term) -> Term
    decreases t,
{
    match t {
        Term::Loc(_, inner) => head(*inner),
        Term::App(f, _) => head(*f),
        Term::TyApp(f, _) => plain_head(*f),
        t => t,
    }
}

pub open spec fn plain_head(t: Term) -> Term
    decreases t,
{
    match t {
        Term::Loc(_, inner) => plain_head(*inner),
        Term::TyApp(f, _) => plain_head(*f),
        t => t,
    }
}

/// The arguments of a call, left to right.
pub open spec fn call_args(t: Term) -> Seq<Term>
    decreases t,
{
    match t {
        Term::Loc(_, inner) => call_args(*inner),
        Term::App(f, a) => call_args(*f).push(*a),
        _ => Seq::empty(),
    }
}

pub fn call_head(t: &Term) -> (r: &Term)
    ensures
        *r == head(*t),
    decreases t,
{
    match t {
        Term::Loc(_, inner) => call_head(inner),
        Term::App(f, _) => call_head(f),
        Term::TyApp(f, _) => call_plain_head(f),
        t => t,
    }
}

fn call_plain_head(t: &Term) -> (r: &Term)
    ensures
        *r == plain_head(*t),
    decreases t,
{
    match t {
        Term::Loc(_, inner) => call_plain_head(inner),
        Term::TyApp(f, _) => call_plain_head(f),
        t => t,
    }
}

/// Are these terms, seen through pointers, the terms `ts`?
pub open spec fn these(rs: Seq<&Term>, ts: Seq<Term>) -> bool {
    &&& rs.len() == ts.len()
    &&& forall|i: int| 0 <= i < ts.len() ==> *(#[trigger] rs[i]) == ts[i]
}

pub fn args_of(t: &Term) -> (r: Vec<&Term>)
    ensures
        these(r@, call_args(*t)),
    decreases t,
{
    match t {
        Term::Loc(_, inner) => args_of(inner),
        Term::App(f, a) => {
            let mut r: Vec<&Term> = args_of(f);
            r.push(&**a);
            r
        },
        _ => Vec::new(),
    }
}

/// The type arguments of the instantiation at the head of a call.
pub open spec fn head_tys(t: Term) -> Option<Seq<Ty>>
    decreases t,
{
    match t {
        Term::Loc(_, inner) => head_tys(*inner),
        Term::App(f, _) => head_tys(*f),
        Term::TyApp(_, tys) => Some(tys@),
        _ => None,
    }
}

pub fn call_tys(t: &Term) -> (r: Option<&Vec<Ty>>)
    ensures
        match r {
            Some(v) => head_tys(*t) == Some(v@),
            None => head_tys(*t) is None,
        },
    decreases t,
{
    match t {
        Term::Loc(_, inner) => call_tys(inner),
        Term::App(f, _) => call_tys(f),
        Term::TyApp(_, tys) => Some(tys),
        _ => None,
    }
}

/// The parameters a term binds as nested lambdas, under its type abstractions.
pub open spec fn lam_params(t: Term) -> Seq<Var>
    decreases t,
{
    match t {
        Term::TyLam(_, _, body) => lam_params(*body),
        t => plain_params(t),
    }
}

pub open spec fn plain_params(t: Term) -> Seq<Var>
    decreases t,
{
    match t {
        Term::Lam(p, _, body) => seq![p] + plain_params(*body),
        _ => Seq::empty(),
    }
}

/// What is left underneath them.
pub open spec fn under_lams(t: Term) -> Term
    decreases t,
{
    match t {
        Term::TyLam(_, _, body) => under_lams(*body),
        t => plain_under(t),
    }
}

pub open spec fn plain_under(t: Term) -> Term
    decreases t,
{
    match t {
        Term::Lam(_, _, body) => plain_under(*body),
        t => t,
    }
}

/// The parameters a term binds as nested lambdas, and what is left underneath.
pub fn lam_spine(t: &Term) -> (r: (Vec<Var>, &Term))
    ensures
        r.0@ == lam_params(*t),
        *r.1 == under_lams(*t),
    decreases t,
{
    match t {
        Term::TyLam(_, _, body) => lam_spine(body),
        t => plain_spine(t),
    }
}

fn plain_spine(t: &Term) -> (r: (Vec<Var>, &Term))
    ensures
        r.0@ == plain_params(*t),
        *r.1 == plain_under(*t),
    decreases t,
{
    match t {
        Term::Lam(p, _, body) => {
            let (rest, under) = plain_spine(body);
            (before(*p, &rest), under)
        },
        t => (Vec::new(), t),
    }
}

/// Which argument of a binary primitive is its one operand, and the literal that is
/// the other: the literal is on the right, or the operation does not care.
pub open spec fn const_arg(p: Prim, args: Seq<Term>) -> Option<(int, Lit)> {
    if args.len() != 2 {
        None
    } else if args[1] is Lit {
        Some((0int, args[1]->Lit_0))
    } else if args[0] is Lit && commuting(p) {
        Some((1int, args[0]->Lit_0))
    } else {
        None
    }
}

pub fn const_operand(p: Prim, args: &Vec<Term>) -> (r: Option<(usize, Lit)>)
    ensures
        match r {
            Some((i, l)) => const_arg(p, args@) == Some((i as int, l)) && i < 2 && args@.len() == 2,
            None => const_arg(p, args@) is None,
        },
{
    if args.len() != 2 {
        return None;
    }
    if let Term::Lit(l) = &args[1] {
        return Some((0, *l));
    }
    if let Term::Lit(l) = &args[0] {
        if commutes(p) {
            return Some((1, *l));
        }
    }
    None
}

/// Does the pattern match every value of its type?
pub open spec fn never_fails(p: Pat) -> bool
    decreases p,
{
    match p {
        Pat::Wild => true,
        Pat::Var(_, _) => true,
        Pat::As(_, _, sub) => never_fails(*sub),
        Pat::Tuple(ps) => forall|i: int| 0 <= i < ps@.len() ==> never_fails(#[trigger] ps@[i]),
        Pat::Record(fs) => forall|i: int| 0 <= i < fs@.len() ==> never_fails((#[trigger] fs@[i]).1),
        Pat::Lit(_) => false,
        Pat::Array(_) => false,
        Pat::Ctor(_, _) => false,
    }
}

pub fn irrefutable(p: &Pat) -> (r: bool)
    ensures
        r == never_fails(*p),
    decreases p, 0nat,
{
    match p {
        Pat::Wild => true,
        Pat::Var(_, _) => true,
        Pat::As(_, _, sub) => irrefutable(sub),
        Pat::Tuple(ps) => all_irrefutable(ps),
        Pat::Record(fs) => {
            let mut ok: bool = true;
            let mut i: usize = 0;
            while i < fs.len()
                invariant
                    i <= fs@.len(),
                    decreases_to!(p => fs),
                    ok == (forall|j: int| 0 <= j < i ==> never_fails((#[trigger] fs@[j]).1)),
                decreases fs@.len() - i,
            {
                assert(decreases_to!(fs => fs@[i as int]));
                let this: bool = irrefutable(&fs[i].1);
                ok = ok && this;
                i = i + 1;
            }
            ok
        },
        Pat::Lit(_) => false,
        Pat::Array(_) => false,
        Pat::Ctor(_, _) => false,
    }
}

pub fn all_irrefutable(ps: &Vec<Pat>) -> (r: bool)
    ensures
        r == (forall|i: int| 0 <= i < ps@.len() ==> never_fails(#[trigger] ps@[i])),
    decreases ps, 1nat,
{
    let mut i: usize = 0;
    while i < ps.len()
        invariant
            i <= ps@.len(),
            forall|j: int| 0 <= j < i ==> never_fails(#[trigger] ps@[j]),
        decreases ps@.len() - i,
    {
        assert(decreases_to!(ps => ps@[i as int]));
        if !irrefutable(&ps[i]) {
            return false;
        }
        i = i + 1;
    }
    true
}

/// Can a decision tree take the pattern apart?
pub open spec fn tree_takes(p: Pat) -> bool
    decreases p,
{
    match p {
        Pat::Wild => true,
        Pat::Var(_, _) => true,
        Pat::Lit(_) => true,
        Pat::As(_, _, sub) => tree_takes(*sub),
        Pat::Ctor(_, ps) => forall|i: int| 0 <= i < ps@.len() ==> tree_takes(#[trigger] ps@[i]),
        Pat::Tuple(ps) => forall|i: int| 0 <= i < ps@.len() ==> tree_takes(#[trigger] ps@[i]),
        Pat::Array(_) => false,
        Pat::Record(_) => false,
    }
}

pub fn tree_pat(p: &Pat) -> (r: bool)
    ensures
        r == tree_takes(*p),
    decreases p, 0nat,
{
    match p {
        Pat::Wild => true,
        Pat::Var(_, _) => true,
        Pat::Lit(_) => true,
        Pat::As(_, _, sub) => tree_pat(sub),
        Pat::Ctor(_, ps) => tree_pats(ps),
        Pat::Tuple(ps) => tree_pats(ps),
        Pat::Array(_) => false,
        Pat::Record(_) => false,
    }
}

fn tree_pats(ps: &Vec<Pat>) -> (r: bool)
    ensures
        r == (forall|i: int| 0 <= i < ps@.len() ==> tree_takes(#[trigger] ps@[i])),
    decreases ps, 1nat,
{
    let mut i: usize = 0;
    while i < ps.len()
        invariant
            i <= ps@.len(),
            forall|j: int| 0 <= j < i ==> tree_takes(#[trigger] ps@[j]),
        decreases ps@.len() - i,
    {
        assert(decreases_to!(ps => ps@[i as int]));
        if !tree_pat(&ps[i]) {
            return false;
        }
        i = i + 1;
    }
    true
}

/// How many terms a term is made of.
pub open spec fn nodes(t: Term) -> nat
    decreases t, 0nat,
{
    1 + match t {
        Term::Loc(_, b) => nodes(*b),
        Term::TyLam(_, _, b) => nodes(*b),
        Term::TyApp(b, _) => nodes(*b),
        Term::Proj(b, _) => nodes(*b),
        Term::Sel(b, _, _) => nodes(*b),
        Term::Perform(_, _, b, _) => nodes(*b),
        Term::Lam(_, _, b) => nodes(*b),
        Term::Var(_) => 0,
        Term::Lit(_) => 0,
        Term::Error => 0,
        Term::App(f, a) => nodes(*f) + nodes(*a),
        Term::Extend(f, _, a) => nodes(*f) + nodes(*a),
        Term::Let(_, _, r, b) => nodes(*r) + nodes(*b),
        Term::LetRec(binds, b) => bind_nodes(binds@, binds@.len()) + nodes(*b),
        Term::Join { rhs, body, .. } => nodes(*rhs) + nodes(*body),
        Term::Jump(_, args, _) => list_nodes(args@, args@.len()),
        Term::If(a, b, c) => nodes(*a) + nodes(*b) + nodes(*c),
        Term::Tuple(xs) => list_nodes(xs@, xs@.len()),
        Term::Array(xs, _) => list_nodes(xs@, xs@.len()),
        Term::Record(_, xs) => list_nodes(xs@, xs@.len()),
        Term::Ctor(_, _, xs) => list_nodes(xs@, xs@.len()),
        Term::Prim(_, xs, _) => list_nodes(xs@, xs@.len()),
        Term::Case(s, arms, _) => nodes(*s) + arm_nodes(arms@, arms@.len()),
        Term::Handle { body, clauses, ret, .. } => nodes(*body) + clause_nodes(clauses@, clauses@.len()) + (match ret {
            Some(r) => nodes(*r.2),
            None => 0,
        }),
    }
}

pub open spec fn list_nodes(xs: Seq<Term>, n: nat) -> nat
    decreases xs, n,
{
    if n == 0 || n > xs.len() {
        0
    } else {
        list_nodes(xs, (n - 1) as nat) + nodes(xs[n - 1])
    }
}

pub open spec fn bind_nodes(xs: Seq<(Var, Poly, Term)>, n: nat) -> nat
    decreases xs, n,
{
    if n == 0 || n > xs.len() {
        0
    } else {
        bind_nodes(xs, (n - 1) as nat) + nodes(xs[n - 1].2)
    }
}

pub open spec fn arm_nodes(xs: Seq<Arm>, n: nat) -> nat
    decreases xs, n,
{
    if n == 0 || n > xs.len() {
        0
    } else {
        arm_nodes(xs, (n - 1) as nat) + nodes(xs[n - 1].body) + (match xs[n - 1].guard {
            Some(g) => nodes(g),
            None => 0,
        })
    }
}

pub open spec fn clause_nodes(xs: Seq<HClause>, n: nat) -> nat
    decreases xs, n,
{
    if n == 0 || n > xs.len() {
        0
    } else {
        clause_nodes(xs, (n - 1) as nat) + nodes(xs[n - 1].body)
    }
}

/// The smaller of what has been counted and the most that is.
pub open spec fn capped(n: nat, cap: u64) -> nat {
    if n < cap {
        n
    } else {
        cap as nat
    }
}

/// How many terms `t` is made of, on top of `so_far`, counted no further than
/// `cap`.
pub fn size(t: &Term, so_far: u64, cap: u64) -> (r: u64)
    requires
        so_far <= cap,
    ensures
        r == capped(so_far as nat + nodes(*t), cap),
    decreases t, 0nat,
{
    let n: u64 = if so_far < cap {
        so_far + 1
    } else {
        so_far
    };
    match t {
        Term::Loc(_, b) => size(b, n, cap),
        Term::TyLam(_, _, b) => size(b, n, cap),
        Term::TyApp(b, _) => size(b, n, cap),
        Term::Proj(b, _) => size(b, n, cap),
        Term::Sel(b, _, _) => size(b, n, cap),
        Term::Perform(_, _, b, _) => size(b, n, cap),
        Term::Lam(_, _, b) => size(b, n, cap),
        Term::Var(_) => n,
        Term::Lit(_) => n,
        Term::Error => n,
        Term::App(f, a) => size(a, size(f, n, cap), cap),
        Term::Extend(f, _, a) => size(a, size(f, n, cap), cap),
        Term::Let(_, _, r, b) => size(b, size(r, n, cap), cap),
        Term::LetRec(binds, b) => {
            let mut m: u64 = n;
            let mut i: usize = 0;
            while i < binds.len()
                invariant
                    i <= binds@.len(),
                    m <= cap,
                    decreases_to!(t => binds),
                    m == capped(n as nat + bind_nodes(binds@, i as nat), cap),
                decreases binds@.len() - i,
            {
                assert(decreases_to!(binds => binds@[i as int]));
                m = size(&binds[i].2, m, cap);
                i = i + 1;
            }
            size(b, m, cap)
        },
        Term::Join { rhs, body, .. } => size(body, size(rhs, n, cap), cap),
        Term::Jump(_, args, _) => size_list(args, n, cap),
        Term::If(a, b, c) => size(c, size(b, size(a, n, cap), cap), cap),
        Term::Tuple(xs) => size_list(xs, n, cap),
        Term::Array(xs, _) => size_list(xs, n, cap),
        Term::Record(_, xs) => size_list(xs, n, cap),
        Term::Ctor(_, _, xs) => size_list(xs, n, cap),
        Term::Prim(_, xs, _) => size_list(xs, n, cap),
        Term::Case(s, arms, _) => {
            let first: u64 = size(s, n, cap);
            let mut m: u64 = first;
            let mut i: usize = 0;
            while i < arms.len()
                invariant
                    i <= arms@.len(),
                    m <= cap,
                    decreases_to!(t => arms),
                    m == capped(first as nat + arm_nodes(arms@, i as nat), cap),
                decreases arms@.len() - i,
            {
                assert(decreases_to!(arms => arms@[i as int]));
                m = size(&arms[i].body, m, cap);
                if let Some(g) = &arms[i].guard {
                    m = size(g, m, cap);
                }
                i = i + 1;
            }
            m
        },
        Term::Handle { body, clauses, ret, .. } => {
            let first: u64 = size(body, n, cap);
            let mut m: u64 = first;
            let mut i: usize = 0;
            while i < clauses.len()
                invariant
                    i <= clauses@.len(),
                    m <= cap,
                    decreases_to!(t => clauses),
                    m == capped(first as nat + clause_nodes(clauses@, i as nat), cap),
                decreases clauses@.len() - i,
            {
                assert(decreases_to!(clauses => clauses@[i as int]));
                m = size(&clauses[i].body, m, cap);
                i = i + 1;
            }
            match ret {
                Some((_, _, b)) => size(b, m, cap),
                None => m,
            }
        },
    }
}

fn size_list(xs: &Vec<Term>, so_far: u64, cap: u64) -> (r: u64)
    requires
        so_far <= cap,
    ensures
        r == capped(so_far as nat + list_nodes(xs@, xs@.len()), cap),
    decreases xs, 1nat,
{
    let mut m: u64 = so_far;
    let mut i: usize = 0;
    while i < xs.len()
        invariant
            i <= xs@.len(),
            m <= cap,
            m == capped(so_far as nat + list_nodes(xs@, i as nat), cap),
        decreases xs@.len() - i,
    {
        assert(decreases_to!(xs => xs@[i as int]));
        m = size(&xs[i], m, cap);
        i = i + 1;
    }
    m
}

/// The largest of `hi` and the variables `t` mentions, bound or free.
pub open spec fn highest(hi: Var, t: Term) -> Var
    decreases t, 0nat,
{
    match t {
        Term::Loc(_, b) => highest(hi, *b),
        Term::TyLam(_, _, b) => highest(hi, *b),
        Term::TyApp(b, _) => highest(hi, *b),
        Term::Proj(b, _) => highest(hi, *b),
        Term::Sel(b, _, _) => highest(hi, *b),
        Term::Perform(_, _, b, _) => highest(hi, *b),
        Term::Lam(p, _, b) => highest(higher(hi, p), *b),
        Term::Var(v) => higher(hi, v),
        Term::Lit(_) => hi,
        Term::Error => hi,
        Term::App(f, a) => highest(highest(hi, *f), *a),
        Term::Extend(f, _, a) => highest(highest(hi, *f), *a),
        Term::Let(x, _, r, b) => highest(highest(higher(hi, x), *r), *b),
        Term::LetRec(binds, b) => highest(highest_bind(hi, binds@, binds@.len()), *b),
        Term::Join { var, params, rhs, body, .. } => highest(
            highest(highest_param(higher(hi, var), params@, params@.len()), *rhs),
            *body,
        ),
        Term::Jump(j, args, _) => highest_list(higher(hi, j), args@, args@.len()),
        Term::If(a, b, c) => highest(highest(highest(hi, *a), *b), *c),
        Term::Tuple(xs) => highest_list(hi, xs@, xs@.len()),
        Term::Array(xs, _) => highest_list(hi, xs@, xs@.len()),
        Term::Record(_, xs) => highest_list(hi, xs@, xs@.len()),
        Term::Ctor(_, _, xs) => highest_list(hi, xs@, xs@.len()),
        Term::Prim(_, xs, _) => highest_list(hi, xs@, xs@.len()),
        Term::Case(s, arms, _) => highest_arm(highest(hi, *s), arms@, arms@.len()),
        Term::Handle { body, clauses, ret, .. } => {
            let m = highest_clause(highest(hi, *body), clauses@, clauses@.len());
            match ret {
                Some(r) => highest(higher(m, r.0), *r.2),
                None => m,
            }
        },
    }
}

pub open spec fn higher(a: Var, b: Var) -> Var {
    if a < b {
        b
    } else {
        a
    }
}

pub open spec fn highest_var(hi: Var, vs: Seq<Var>, n: nat) -> Var
    decreases n,
{
    if n == 0 || n > vs.len() {
        hi
    } else {
        higher(highest_var(hi, vs, (n - 1) as nat), vs[n - 1])
    }
}

pub open spec fn highest_list(hi: Var, xs: Seq<Term>, n: nat) -> Var
    decreases xs, n,
{
    if n == 0 || n > xs.len() {
        hi
    } else {
        highest(highest_list(hi, xs, (n - 1) as nat), xs[n - 1])
    }
}

pub open spec fn highest_param(hi: Var, ps: Seq<(Var, Ty)>, n: nat) -> Var
    decreases n,
{
    if n == 0 || n > ps.len() {
        hi
    } else {
        higher(highest_param(hi, ps, (n - 1) as nat), ps[n - 1].0)
    }
}

pub open spec fn highest_bind(hi: Var, xs: Seq<(Var, Poly, Term)>, n: nat) -> Var
    decreases xs, n,
{
    if n == 0 || n > xs.len() {
        hi
    } else {
        highest(higher(highest_bind(hi, xs, (n - 1) as nat), xs[n - 1].0), xs[n - 1].2)
    }
}

pub open spec fn highest_arm(hi: Var, xs: Seq<Arm>, n: nat) -> Var
    decreases xs, n,
{
    if n == 0 || n > xs.len() {
        hi
    } else {
        let vs = pattern_vars(Seq::empty(), xs[n - 1].pat);
        let a = highest_var(highest_arm(hi, xs, (n - 1) as nat), vs, vs.len());
        let b = match xs[n - 1].guard {
            Some(g) => highest(a, g),
            None => a,
        };
        highest(b, xs[n - 1].body)
    }
}

pub open spec fn highest_clause(hi: Var, xs: Seq<HClause>, n: nat) -> Var
    decreases xs, n,
{
    if n == 0 || n > xs.len() {
        hi
    } else {
        highest(
            higher(higher(highest_clause(hi, xs, (n - 1) as nat), xs[n - 1].param), xs[n - 1].resume),
            xs[n - 1].body,
        )
    }
}

fn max(a: Var, b: Var) -> (r: Var)
    ensures
        r == higher(a, b),
{
    if a < b {
        b
    } else {
        a
    }
}

/// The largest of `hi` and the variables `t` mentions, so fresh names can start
/// above it.
pub fn max_var(hi: Var, t: &Term) -> (r: Var)
    ensures
        r == highest(hi, *t),
    decreases t, 0nat,
{
    match t {
        Term::Loc(_, b) => max_var(hi, b),
        Term::TyLam(_, _, b) => max_var(hi, b),
        Term::TyApp(b, _) => max_var(hi, b),
        Term::Proj(b, _) => max_var(hi, b),
        Term::Sel(b, _, _) => max_var(hi, b),
        Term::Perform(_, _, b, _) => max_var(hi, b),
        Term::Lam(p, _, b) => max_var(max(hi, *p), b),
        Term::Var(v) => max(hi, *v),
        Term::Lit(_) => hi,
        Term::Error => hi,
        Term::App(f, a) => max_var(max_var(hi, f), a),
        Term::Extend(f, _, a) => max_var(max_var(hi, f), a),
        Term::Let(x, _, r, b) => max_var(max_var(max(hi, *x), r), b),
        Term::LetRec(binds, b) => {
            let mut m: Var = hi;
            let mut i: usize = 0;
            while i < binds.len()
                invariant
                    i <= binds@.len(),
                    decreases_to!(t => binds),
                    m == highest_bind(hi, binds@, i as nat),
                decreases binds@.len() - i,
            {
                assert(decreases_to!(binds => binds@[i as int]));
                m = max_var(max(m, binds[i].0), &binds[i].2);
                i = i + 1;
            }
            max_var(m, b)
        },
        Term::Join { var, params, rhs, body, .. } => {
            let first: Var = max(hi, *var);
            let mut m: Var = first;
            let mut i: usize = 0;
            while i < params.len()
                invariant
                    i <= params@.len(),
                    m == highest_param(first, params@, i as nat),
                decreases params@.len() - i,
            {
                m = max(m, params[i].0);
                i = i + 1;
            }
            max_var(max_var(m, rhs), body)
        },
        Term::Jump(j, args, _) => max_var_list(max(hi, *j), args),
        Term::If(a, b, c) => max_var(max_var(max_var(hi, a), b), c),
        Term::Tuple(xs) => max_var_list(hi, xs),
        Term::Array(xs, _) => max_var_list(hi, xs),
        Term::Record(_, xs) => max_var_list(hi, xs),
        Term::Ctor(_, _, xs) => max_var_list(hi, xs),
        Term::Prim(_, xs, _) => max_var_list(hi, xs),
        Term::Case(s, arms, _) => {
            let first: Var = max_var(hi, s);
            let mut m: Var = first;
            let mut i: usize = 0;
            while i < arms.len()
                invariant
                    i <= arms@.len(),
                    decreases_to!(t => arms),
                    m == highest_arm(first, arms@, i as nat),
                decreases arms@.len() - i,
            {
                assert(decreases_to!(arms => arms@[i as int]));
                let mut vs: Vec<Var> = Vec::new();
                pat_vars(&arms[i].pat, &mut vs);
                let start: Var = m;
                let mut j: usize = 0;
                while j < vs.len()
                    invariant
                        j <= vs@.len(),
                        m == highest_var(start, vs@, j as nat),
                    decreases vs@.len() - j,
                {
                    m = max(m, vs[j]);
                    j = j + 1;
                }
                if let Some(g) = &arms[i].guard {
                    m = max_var(m, g);
                }
                m = max_var(m, &arms[i].body);
                i = i + 1;
            }
            m
        },
        Term::Handle { body, clauses, ret, .. } => {
            let first: Var = max_var(hi, body);
            let mut m: Var = first;
            let mut i: usize = 0;
            while i < clauses.len()
                invariant
                    i <= clauses@.len(),
                    decreases_to!(t => clauses),
                    m == highest_clause(first, clauses@, i as nat),
                decreases clauses@.len() - i,
            {
                assert(decreases_to!(clauses => clauses@[i as int]));
                m = max_var(max(max(m, clauses[i].param), clauses[i].resume), &clauses[i].body);
                i = i + 1;
            }
            match ret {
                Some((v, _, b)) => max_var(max(m, *v), b),
                None => m,
            }
        },
    }
}

fn max_var_list(hi: Var, xs: &Vec<Term>) -> (r: Var)
    ensures
        r == highest_list(hi, xs@, xs@.len()),
    decreases xs, 1nat,
{
    let mut m: Var = hi;
    let mut i: usize = 0;
    while i < xs.len()
        invariant
            i <= xs@.len(),
            m == highest_list(hi, xs@, i as nat),
        decreases xs@.len() - i,
    {
        assert(decreases_to!(xs => xs@[i as int]));
        m = max_var(m, &xs[i]);
        i = i + 1;
    }
    m
}

} // verus!
