//! Liveness: what a term needs of the environment, and whether it needs the
//! evidence.

use super::shape::{args_of, call_args, call_head, head};
use super::state::{Lower, St};
use crate::seq::ir::Name;
use crate::seq::view::{after, both, copy_names};
use crate::terms::term::{pat_vars, pattern_vars, Arm, HClause, Term, Var};
use crate::terms::ty::{Poly, Ty};
use std::collections::HashSet;
use vstd::prelude::*;

verus! {

broadcast use vstd::std_specs::hash::group_hash_axioms;

/// Does `t` mention `v`, with `v` bound nowhere inside it?
pub open spec fn free(t: Term, v: Var) -> bool
    decreases t,
{
    match t {
        Term::Loc(_, b) => free(*b, v),
        Term::TyLam(_, _, b) => free(*b, v),
        Term::TyApp(b, _) => free(*b, v),
        Term::Proj(b, _) => free(*b, v),
        Term::Sel(b, _, _) => free(*b, v),
        Term::Perform(_, _, b, _) => free(*b, v),
        Term::Var(x) => x == v,
        Term::Lit(_) => false,
        Term::Error => false,
        Term::Lam(p, _, b) => v != p && free(*b, v),
        Term::App(f, a) => free(*f, v) || free(*a, v),
        Term::Extend(f, _, a) => free(*f, v) || free(*a, v),
        Term::Let(x, _, r, b) => free(*r, v) || (v != x && free(*b, v)),
        Term::LetRec(binds, b) => {
            &&& forall|i: int| 0 <= i < binds@.len() ==> (#[trigger] binds@[i]).0 != v
            &&& free(*b, v) || exists|i: int| 0 <= i < binds@.len() && free((#[trigger] binds@[i]).2, v)
        },
        Term::Join { var, params, rhs, body, .. } => {
            ||| free(*rhs, v) && forall|i: int| 0 <= i < params@.len() ==> (#[trigger] params@[i]).0 != v
            ||| v != var && free(*body, v)
        },
        Term::Jump(j, args, _) => j == v || exists|i: int| 0 <= i < args@.len() && free(#[trigger] args@[i], v),
        Term::If(a, b, c) => free(*a, v) || free(*b, v) || free(*c, v),
        Term::Tuple(xs) => exists|i: int| 0 <= i < xs@.len() && free(#[trigger] xs@[i], v),
        Term::Array(xs, _) => exists|i: int| 0 <= i < xs@.len() && free(#[trigger] xs@[i], v),
        Term::Record(_, xs) => exists|i: int| 0 <= i < xs@.len() && free(#[trigger] xs@[i], v),
        Term::Ctor(_, _, xs) => exists|i: int| 0 <= i < xs@.len() && free(#[trigger] xs@[i], v),
        Term::Prim(_, xs, _) => exists|i: int| 0 <= i < xs@.len() && free(#[trigger] xs@[i], v),
        Term::Case(s, arms, _) => free(*s, v) || exists|i: int|
            0 <= i < arms@.len() && !pattern_vars(Seq::empty(), (#[trigger] arms@[i]).pat).contains(v) && (free(
                arms@[i].body,
                v,
            ) || (arms@[i].guard is Some && free(arms@[i].guard->0, v))),
        Term::Handle { body, clauses, ret, .. } => {
            ||| free(*body, v)
            ||| exists|i: int|
                0 <= i < clauses@.len() && (#[trigger] clauses@[i]).param != v && clauses@[i].resume != v && free(
                    clauses@[i].body,
                    v,
                )
            ||| ret is Some && (ret->0).0 != v && free(*(ret->0).2, v)
        },
    }
}

/// Whether `n` is among what a mention of `v` needs: what its block takes, for a
/// label, and itself otherwise.
pub open spec fn stands_for(st: St, v: Var, n: Name) -> bool {
    if st.globals.contains_key(v) {
        st.globals[v].1.contains(n)
    } else if st.joins.contains_key(v) {
        st.joins[v].1.contains(n)
    } else {
        n == v
    }
}

/// Whether `t` needs `n`, where the variables of `scope` are bound outside it.
pub open spec fn uses(st: St, t: Term, scope: Seq<Var>, n: Name) -> bool
    decreases t,
{
    match t {
        Term::Loc(_, b) => uses(st, *b, scope, n),
        Term::TyLam(_, _, b) => uses(st, *b, scope, n),
        Term::TyApp(b, _) => uses(st, *b, scope, n),
        Term::Proj(b, _) => uses(st, *b, scope, n),
        Term::Sel(b, _, _) => uses(st, *b, scope, n),
        Term::Perform(_, _, b, _) => uses(st, *b, scope, n),
        Term::Var(x) => !scope.contains(x) && stands_for(st, x, n),
        Term::Lit(_) => false,
        Term::Error => false,
        Term::Lam(p, _, b) => uses(st, *b, scope.push(p), n),
        Term::App(f, a) => uses(st, *f, scope, n) || uses(st, *a, scope, n),
        Term::Extend(f, _, a) => uses(st, *f, scope, n) || uses(st, *a, scope, n),
        Term::Let(x, _, r, b) => uses(st, *r, scope, n) || uses(st, *b, scope.push(x), n),
        Term::LetRec(binds, b) => {
            ||| uses(st, *b, scope + bound_by(binds@), n)
            ||| exists|i: int| 0 <= i < binds@.len() && uses(st, (#[trigger] binds@[i]).2, scope + bound_by(binds@), n)
        },
        Term::Join { var, params, rhs, body, .. } => {
            ||| uses(st, *rhs, scope + params_of(params@), n)
            ||| uses(st, *body, scope.push(var), n)
        },
        Term::Jump(j, args, _) => {
            ||| !scope.contains(j) && stands_for(st, j, n)
            ||| exists|i: int| 0 <= i < args@.len() && uses(st, #[trigger] args@[i], scope, n)
        },
        Term::If(a, b, c) => uses(st, *a, scope, n) || uses(st, *b, scope, n) || uses(st, *c, scope, n),
        Term::Tuple(xs) => exists|i: int| 0 <= i < xs@.len() && uses(st, #[trigger] xs@[i], scope, n),
        Term::Array(xs, _) => exists|i: int| 0 <= i < xs@.len() && uses(st, #[trigger] xs@[i], scope, n),
        Term::Record(_, xs) => exists|i: int| 0 <= i < xs@.len() && uses(st, #[trigger] xs@[i], scope, n),
        Term::Ctor(_, _, xs) => exists|i: int| 0 <= i < xs@.len() && uses(st, #[trigger] xs@[i], scope, n),
        Term::Prim(_, xs, _) => exists|i: int| 0 <= i < xs@.len() && uses(st, #[trigger] xs@[i], scope, n),
        Term::Case(s, arms, _) => uses(st, *s, scope, n) || exists|i: int|
            0 <= i < arms@.len() && arm_uses(st, #[trigger] arms@[i], scope, n),
        Term::Handle { body, clauses, ret, .. } => {
            ||| uses(st, *body, scope, n)
            ||| exists|i: int|
                0 <= i < clauses@.len() && uses(
                    st,
                    (#[trigger] clauses@[i]).body,
                    scope.push(clauses@[i].param).push(clauses@[i].resume),
                    n,
                )
            ||| ret is Some && uses(st, *(ret->0).2, scope.push((ret->0).0), n)
        },
    }
}

/// Whether an arm's body or guard needs `n`.
pub open spec fn arm_uses(st: St, arm: Arm, scope: Seq<Var>, n: Name) -> bool
    decreases arm,
{
    let inner = pattern_vars(scope, arm.pat);
    uses(st, arm.body, inner, n) || (arm.guard is Some && uses(st, arm.guard->0, inner, n))
}

/// The variables a `letrec` binds.
pub open spec fn bound_by(binds: Seq<(Var, Poly, Term)>) -> Seq<Var> {
    Seq::new(binds.len(), |i: int| binds[i].0)
}

/// The parameters of a join point.
pub open spec fn params_of(params: Seq<(Var, Ty)>) -> Seq<Var> {
    Seq::new(params.len(), |i: int| params[i].0)
}

/// The definition a saturated call is to, where that has a direct entry point.
pub open spec fn direct_worker(st: St, t: Term) -> Option<Var> {
    match head(t) {
        Term::Var(v) => if st.workers.contains_key(v) && st.workers[v].1 == call_args(t).len() {
            Some(v)
        } else {
            None
        },
        _ => None,
    }
}

/// Does lowering `t` refer to the evidence in scope?
pub open spec fn needs_ev(st: St, t: Term) -> bool
    decreases t, 1nat,
{
    match t {
        Term::App(_, _) => match direct_worker(st, t) {
            Some(f) => if st.worker_ev.contains(f) {
                true
            } else {
                args_need_ev(st, t)
            },
            None => true,
        },
        Term::Perform(_, _, _, _) => true,
        Term::Handle { .. } => true,
        Term::LetRec(_, _) => true,
        Term::Join { .. } => true,
        Term::Jump(_, _, _) => true,
        Term::Var(v) => st.letrecs.contains(v),
        Term::Lam(_, _, _) => false,
        Term::Lit(_) => false,
        Term::Error => false,
        Term::TyLam(_, _, b) => needs_ev(st, *b),
        Term::TyApp(b, _) => needs_ev(st, *b),
        Term::Loc(_, b) => needs_ev(st, *b),
        Term::Proj(b, _) => needs_ev(st, *b),
        Term::Sel(b, _, _) => needs_ev(st, *b),
        Term::Let(_, _, r, b) => needs_ev(st, *r) || needs_ev(st, *b),
        Term::Extend(r, _, b) => needs_ev(st, *r) || needs_ev(st, *b),
        Term::If(a, b, c) => needs_ev(st, *a) || needs_ev(st, *b) || needs_ev(st, *c),
        Term::Tuple(xs) => exists|i: int| 0 <= i < xs@.len() && needs_ev(st, #[trigger] xs@[i]),
        Term::Array(xs, _) => exists|i: int| 0 <= i < xs@.len() && needs_ev(st, #[trigger] xs@[i]),
        Term::Record(_, xs) => exists|i: int| 0 <= i < xs@.len() && needs_ev(st, #[trigger] xs@[i]),
        Term::Ctor(_, _, xs) => exists|i: int| 0 <= i < xs@.len() && needs_ev(st, #[trigger] xs@[i]),
        Term::Prim(_, xs, _) => exists|i: int| 0 <= i < xs@.len() && needs_ev(st, #[trigger] xs@[i]),
        Term::Case(s, arms, _) => needs_ev(st, *s) || exists|i: int|
            0 <= i < arms@.len() && (needs_ev(st, (#[trigger] arms@[i]).body) || (arms@[i].guard is Some && needs_ev(
                st,
                arms@[i].guard->0,
            ))),
    }
}

/// Does an argument of the call need the evidence?
pub open spec fn args_need_ev(st: St, t: Term) -> bool
    decreases t, 0nat,
{
    match t {
        Term::Loc(_, inner) => args_need_ev(st, *inner),
        Term::App(f, a) => args_need_ev(st, *f) || needs_ev(st, *a),
        _ => false,
    }
}

/// What a term needs of the environment, the variables `bound` aside: names, with
/// labels expanded, and the evidence if it calls, performs or handles.
pub open spec fn wants(st: St, t: Term, bound: Seq<Var>) -> Set<Name> {
    Set::new(|n: Name| uses(st, t, bound, n) || (n == st.ev && needs_ev(st, t)))
}

/// What some terms need of the environment.
pub open spec fn wants_all(st: St, ts: Seq<Term>, bound: Seq<Var>) -> Set<Name> {
    Set::new(|n: Name| exists|i: int| 0 <= i < ts.len() && wants(st, #[trigger] ts[i], bound).contains(n))
}

/// The first `n` names of `env` that are wanted, in order, each once.
pub open spec fn first_wanted(env: Seq<Name>, want: Set<Name>, n: nat) -> Seq<Name>
    decreases n,
{
    if n == 0 || n > env.len() {
        Seq::empty()
    } else {
        let r = first_wanted(env, want, (n - 1) as nat);
        if want.contains(env[n - 1]) && !r.contains(env[n - 1]) {
            r.push(env[n - 1])
        } else {
            r
        }
    }
}

/// The names of `env`, in order, that are in `want`: the environment shape a
/// continuation should capture.
#[verifier::opaque]
pub open spec fn restricted(env: Seq<Name>, want: Set<Name>) -> Seq<Name> {
    first_wanted(env, want, env.len())
}

/// Add a name to a set.
pub fn also(s: &mut HashSet<Name>, n: Name)
    ensures
        final(s)@ == old(s)@.insert(n),
{
    s.insert(n);
}

/// Take a name out of a set.
pub fn without(s: &mut HashSet<Name>, n: Name)
    ensures
        final(s)@ == old(s)@.remove(n),
{
    s.remove(&n);
}

pub fn is_in(v: &Vec<Name>, n: Name) -> (r: bool)
    ensures
        r == v@.contains(n),
{
    let mut i: usize = 0;
    while i < v.len()
        invariant
            i <= v@.len(),
            forall|j: int| 0 <= j < i ==> v@[j] != n,
        decreases v@.len() - i,
    {
        if v[i] == n {
            return true;
        }
        i = i + 1;
    }
    false
}

/// The names of `env`, in order, that are in `want`.
pub fn restrict(env: &Vec<Name>, want: &HashSet<Name>) -> (r: Vec<Name>)
    ensures
        r@ == restricted(env@, want@),
{
    proof {
        reveal(restricted);
    }
    let mut r: Vec<Name> = Vec::new();
    let mut i: usize = 0;
    while i < env.len()
        invariant
            i <= env@.len(),
            r@ == first_wanted(env@, want@, i as nat),
        decreases env@.len() - i,
    {
        if want.contains(&env[i]) && !is_in(&r, env[i]) {
            r.push(env[i]);
        }
        i = i + 1;
    }
    r
}

/// Add every name of `ns` to `out`.
fn add_all(out: &mut HashSet<Name>, ns: &Vec<Name>)
    ensures
        forall|n: Name| #[trigger] final(out)@.contains(n) <==> old(out)@.contains(n) || ns@.contains(n),
{
    crate::seq::ir::extend(out, ns);
}

pub fn letrec_vars(binds: &Vec<(Var, Poly, Term)>) -> (r: Vec<Var>)
    ensures
        r@ == bound_by(binds@),
{
    let mut r: Vec<Var> = Vec::new();
    let mut i: usize = 0;
    while i < binds.len()
        invariant
            i <= binds@.len(),
            r@ == bound_by(binds@).take(i as int),
        decreases binds@.len() - i,
    {
        r.push(binds[i].0);
        i = i + 1;
        proof {
            let all = bound_by(binds@);
            assert(all.take(i as int) =~= all.take(i - 1).push(all[i - 1]));
        }
    }
    proof {
        assert(bound_by(binds@).take(i as int) =~= bound_by(binds@));
    }
    r
}

pub fn join_params(params: &Vec<(Var, Ty)>) -> (r: Vec<Var>)
    ensures
        r@ == params_of(params@),
{
    let mut r: Vec<Var> = Vec::new();
    let mut i: usize = 0;
    while i < params.len()
        invariant
            i <= params@.len(),
            r@ == params_of(params@).take(i as int),
        decreases params@.len() - i,
    {
        r.push(params[i].0);
        i = i + 1;
        proof {
            let all = params_of(params@);
            assert(all.take(i as int) =~= all.take(i - 1).push(all[i - 1]));
        }
    }
    proof {
        assert(params_of(params@).take(i as int) =~= params_of(params@));
    }
    r
}

/// Is `v` free in `t`?
pub fn is_free(t: &Term, v: Var) -> (r: bool)
    ensures
        r == free(*t, v),
    decreases t, 0nat,
{
    match t {
        Term::Loc(_, b) => is_free(b, v),
        Term::TyLam(_, _, b) => is_free(b, v),
        Term::TyApp(b, _) => is_free(b, v),
        Term::Proj(b, _) => is_free(b, v),
        Term::Sel(b, _, _) => is_free(b, v),
        Term::Perform(_, _, b, _) => is_free(b, v),
        Term::Var(x) => *x == v,
        Term::Lit(_) => false,
        Term::Error => false,
        Term::Lam(p, _, b) => v != *p && is_free(b, v),
        Term::App(f, a) => is_free(f, v) || is_free(a, v),
        Term::Extend(f, _, a) => is_free(f, v) || is_free(a, v),
        Term::Let(x, _, r, b) => is_free(r, v) || (v != *x && is_free(b, v)),
        Term::LetRec(binds, b) => {
            let mut bound: bool = false;
            let mut found: bool = is_free(b, v);
            let ghost first = found;
            let mut i: usize = 0;
            while i < binds.len()
                invariant
                    i <= binds@.len(),
                    decreases_to!(t => binds),
                    bound == (exists|j: int| 0 <= j < i && (#[trigger] binds@[j]).0 == v),
                    found == (first || exists|j: int| 0 <= j < i && free((#[trigger] binds@[j]).2, v)),
                decreases binds@.len() - i,
            {
                assert(decreases_to!(binds => binds@[i as int]));
                let this: bool = is_free(&binds[i].2, v);
                if binds[i].0 == v {
                    bound = true;
                }
                if this {
                    found = true;
                }
                i = i + 1;
            }
            !bound && found
        },
        Term::Join { var, params, rhs, body, .. } => {
            let ps: Vec<Var> = join_params(params);
            proof {
                assert(params_of(params@).contains(v) <==> exists|i: int|
                    0 <= i < params@.len() && (#[trigger] params@[i]).0 == v) by {
                    if exists|i: int| 0 <= i < params@.len() && (#[trigger] params@[i]).0 == v {
                        let i = choose|i: int| 0 <= i < params@.len() && (#[trigger] params@[i]).0 == v;
                        assert(params_of(params@)[i] == v);
                    }
                }
            }
            (!is_in(&ps, v) && is_free(rhs, v)) || (v != *var && is_free(body, v))
        },
        Term::Jump(j, args, _) => *j == v || any_free(args, v),
        Term::If(a, b, c) => is_free(a, v) || is_free(b, v) || is_free(c, v),
        Term::Tuple(xs) => any_free(xs, v),
        Term::Array(xs, _) => any_free(xs, v),
        Term::Record(_, xs) => any_free(xs, v),
        Term::Ctor(_, _, xs) => any_free(xs, v),
        Term::Prim(_, xs, _) => any_free(xs, v),
        Term::Case(s, arms, _) => {
            let mut found: bool = is_free(s, v);
            let ghost first = found;
            let mut i: usize = 0;
            while i < arms.len()
                invariant
                    i <= arms@.len(),
                    decreases_to!(t => arms),
                    found == (first || exists|j: int|
                        0 <= j < i && !pattern_vars(Seq::empty(), (#[trigger] arms@[j]).pat).contains(v) && (free(
                            arms@[j].body,
                            v,
                        ) || (arms@[j].guard is Some && free(arms@[j].guard->0, v)))),
                decreases arms@.len() - i,
            {
                assert(decreases_to!(arms => arms@[i as int]));
                let mut vs: Vec<Var> = Vec::new();
                pat_vars(&arms[i].pat, &mut vs);
                let here: bool = is_free(&arms[i].body, v);
                let guard: bool = match &arms[i].guard {
                    Some(g) => is_free(g, v),
                    None => false,
                };
                if !is_in(&vs, v) && (here || guard) {
                    found = true;
                }
                i = i + 1;
            }
            found
        },
        Term::Handle { body, clauses, ret, .. } => {
            let mut found: bool = is_free(body, v);
            let ghost first = found;
            let mut i: usize = 0;
            while i < clauses.len()
                invariant
                    i <= clauses@.len(),
                    decreases_to!(t => clauses),
                    found == (first || exists|j: int|
                        0 <= j < i && (#[trigger] clauses@[j]).param != v && clauses@[j].resume != v && free(
                            clauses@[j].body,
                            v,
                        )),
                decreases clauses@.len() - i,
            {
                assert(decreases_to!(clauses => clauses@[i as int]));
                let here: bool = is_free(&clauses[i].body, v);
                if clauses[i].param != v && clauses[i].resume != v && here {
                    found = true;
                }
                i = i + 1;
            }
            let last: bool = match ret {
                Some((x, _, b)) => *x != v && is_free(b, v),
                None => false,
            };
            found || last
        },
    }
}

fn any_free(xs: &Vec<Term>, v: Var) -> (r: bool)
    ensures
        r == (exists|i: int| 0 <= i < xs@.len() && free(#[trigger] xs@[i], v)),
    decreases xs, 1nat,
{
    let mut i: usize = 0;
    while i < xs.len()
        invariant
            i <= xs@.len(),
            forall|j: int| 0 <= j < i ==> !free(#[trigger] xs@[j], v),
        decreases xs@.len() - i,
    {
        assert(decreases_to!(xs => xs@[i as int]));
        if is_free(&xs[i], v) {
            return true;
        }
        i = i + 1;
    }
    false
}

impl Lower {
    /// Add every name `v` stands for, unless it is bound in `scope`.
    fn mention(&self, v: Var, scope: &Vec<Var>, out: &mut HashSet<Name>)
        ensures
            forall|n: Name| #[trigger]
                final(out)@.contains(n) <==> old(out)@.contains(n) || (!scope@.contains(v) && stands_for(self@, v, n)),
    {
        if is_in(scope, v) {
            return;
        }
        match self.globals.get(v) {
            Some(g) => {
                add_all(out, &g.1);
            },
            None => match self.joins.get(v) {
                Some(j) => {
                    add_all(out, &j.1);
                },
                None => {
                    let ghost was = out@;
                    out.insert(v);
                    proof {
                        assert(out@ == was.insert(v));
                    }
                },
            },
        }
    }

    /// Add what `t` needs, the variables of `scope` aside.
    fn gather(&self, t: &Term, scope: &Vec<Var>, out: &mut HashSet<Name>)
        ensures
            forall|n: Name| #[trigger]
                final(out)@.contains(n) <==> old(out)@.contains(n) || uses(self@, *t, scope@, n),
        decreases t, 0nat,
    {
        match t {
            Term::Loc(_, b) => self.gather(b, scope, out),
            Term::TyLam(_, _, b) => self.gather(b, scope, out),
            Term::TyApp(b, _) => self.gather(b, scope, out),
            Term::Proj(b, _) => self.gather(b, scope, out),
            Term::Sel(b, _, _) => self.gather(b, scope, out),
            Term::Perform(_, _, b, _) => self.gather(b, scope, out),
            Term::Var(x) => self.mention(*x, scope, out),
            Term::Lit(_) => {},
            Term::Error => {},
            Term::Lam(p, _, b) => {
                let inner: Vec<Var> = after(scope, *p);
                self.gather(b, &inner, out);
            },
            Term::App(f, a) => {
                self.gather(f, scope, out);
                self.gather(a, scope, out);
            },
            Term::Extend(f, _, a) => {
                self.gather(f, scope, out);
                self.gather(a, scope, out);
            },
            Term::Let(x, _, r, b) => {
                self.gather(r, scope, out);
                let inner: Vec<Var> = after(scope, *x);
                self.gather(b, &inner, out);
            },
            Term::LetRec(binds, b) => {
                let vs: Vec<Var> = letrec_vars(binds);
                let inner: Vec<Var> = both(scope, &vs);
                self.gather(b, &inner, out);
                let ghost was = out@;
                let mut i: usize = 0;
                while i < binds.len()
                    invariant
                        i <= binds@.len(),
                        decreases_to!(t => binds),
                        inner@ == scope@ + bound_by(binds@),
                        forall|n: Name| #[trigger]
                            out@.contains(n) <==> was.contains(n) || exists|j: int|
                                0 <= j < i && uses(self@, (#[trigger] binds@[j]).2, inner@, n),
                    decreases binds@.len() - i,
                {
                    assert(decreases_to!(binds => binds@[i as int]));
                    let ghost before = out@;
                    self.gather(&binds[i].2, &inner, out);
                    i = i + 1;
                    proof {
                        assert forall|n: Name| #[trigger]
                            out@.contains(n) <==> was.contains(n) || exists|j: int|
                                0 <= j < i && uses(self@, (#[trigger] binds@[j]).2, inner@, n) by {
                            assert(out@.contains(n) <==> before.contains(n) || uses(
                                self@,
                                binds@[i - 1].2,
                                inner@,
                                n,
                            ));
                        }
                    }
                }
            },
            Term::Join { var, params, rhs, body, .. } => {
                let ps: Vec<Var> = join_params(params);
                let inner: Vec<Var> = both(scope, &ps);
                self.gather(rhs, &inner, out);
                let outer: Vec<Var> = after(scope, *var);
                self.gather(body, &outer, out);
            },
            Term::Jump(j, args, _) => {
                self.mention(*j, scope, out);
                self.gather_list(args, scope, out);
            },
            Term::If(a, b, c) => {
                self.gather(a, scope, out);
                self.gather(b, scope, out);
                self.gather(c, scope, out);
            },
            Term::Tuple(xs) => self.gather_list(xs, scope, out),
            Term::Array(xs, _) => self.gather_list(xs, scope, out),
            Term::Record(_, xs) => self.gather_list(xs, scope, out),
            Term::Ctor(_, _, xs) => self.gather_list(xs, scope, out),
            Term::Prim(_, xs, _) => self.gather_list(xs, scope, out),
            Term::Case(s, arms, _) => {
                self.gather(s, scope, out);
                self.gather_arms(arms, scope, out);
            },
            Term::Handle { body, clauses, ret, .. } => {
                self.gather(body, scope, out);
                self.gather_clauses(clauses, scope, out);
                if let Some((x, _, b)) = ret {
                    let inner: Vec<Var> = after(scope, *x);
                    self.gather(b, &inner, out);
                }
            },
        }
    }

    fn gather_list(&self, xs: &Vec<Term>, scope: &Vec<Var>, out: &mut HashSet<Name>)
        ensures
            forall|n: Name| #[trigger]
                final(out)@.contains(n) <==> old(out)@.contains(n) || exists|i: int|
                    0 <= i < xs@.len() && uses(self@, #[trigger] xs@[i], scope@, n),
        decreases xs, 1nat,
    {
        let ghost was = out@;
        let mut i: usize = 0;
        while i < xs.len()
            invariant
                i <= xs@.len(),
                forall|n: Name| #[trigger]
                    out@.contains(n) <==> was.contains(n) || exists|j: int|
                        0 <= j < i && uses(self@, #[trigger] xs@[j], scope@, n),
            decreases xs@.len() - i,
        {
            assert(decreases_to!(xs => xs@[i as int]));
            let ghost before = out@;
            self.gather(&xs[i], scope, out);
            i = i + 1;
            proof {
                assert forall|n: Name| #[trigger]
                    out@.contains(n) <==> was.contains(n) || exists|j: int|
                        0 <= j < i && uses(self@, #[trigger] xs@[j], scope@, n) by {
                    assert(out@.contains(n) <==> before.contains(n) || uses(self@, xs@[i - 1], scope@, n));
                }
            }
        }
    }

    fn gather_arms(&self, arms: &Vec<Arm>, scope: &Vec<Var>, out: &mut HashSet<Name>)
        ensures
            forall|n: Name| #[trigger]
                final(out)@.contains(n) <==> old(out)@.contains(n) || exists|i: int|
                    0 <= i < arms@.len() && arm_uses(self@, #[trigger] arms@[i], scope@, n),
        decreases arms, 1nat,
    {
        let ghost was = out@;
        let mut i: usize = 0;
        while i < arms.len()
            invariant
                i <= arms@.len(),
                forall|n: Name| #[trigger]
                    out@.contains(n) <==> was.contains(n) || exists|j: int|
                        0 <= j < i && arm_uses(self@, #[trigger] arms@[j], scope@, n),
            decreases arms@.len() - i,
        {
            assert(decreases_to!(arms => arms@[i as int]));
            let ghost before = out@;
            let mut inner: Vec<Var> = copy_names(scope);
            pat_vars(&arms[i].pat, &mut inner);
            self.gather(&arms[i].body, &inner, out);
            if let Some(g) = &arms[i].guard {
                self.gather(g, &inner, out);
            }
            i = i + 1;
            proof {
                assert forall|n: Name| #[trigger]
                    out@.contains(n) <==> was.contains(n) || exists|j: int|
                        0 <= j < i && arm_uses(self@, #[trigger] arms@[j], scope@, n) by {
                    assert(out@.contains(n) <==> before.contains(n) || arm_uses(self@, arms@[i - 1], scope@, n));
                }
            }
        }
    }

    fn gather_clauses(&self, clauses: &Vec<HClause>, scope: &Vec<Var>, out: &mut HashSet<Name>)
        ensures
            forall|n: Name| #[trigger]
                final(out)@.contains(n) <==> old(out)@.contains(n) || exists|i: int|
                    0 <= i < clauses@.len() && uses(
                        self@,
                        (#[trigger] clauses@[i]).body,
                        scope@.push(clauses@[i].param).push(clauses@[i].resume),
                        n,
                    ),
        decreases clauses, 1nat,
    {
        let ghost was = out@;
        let mut i: usize = 0;
        while i < clauses.len()
            invariant
                i <= clauses@.len(),
                forall|n: Name| #[trigger]
                    out@.contains(n) <==> was.contains(n) || exists|j: int|
                        0 <= j < i && uses(
                            self@,
                            (#[trigger] clauses@[j]).body,
                            scope@.push(clauses@[j].param).push(clauses@[j].resume),
                            n,
                        ),
            decreases clauses@.len() - i,
        {
            assert(decreases_to!(clauses => clauses@[i as int]));
            let ghost before = out@;
            let mut inner: Vec<Var> = after(scope, clauses[i].param);
            inner.push(clauses[i].resume);
            self.gather(&clauses[i].body, &inner, out);
            i = i + 1;
            proof {
                assert forall|n: Name| #[trigger]
                    out@.contains(n) <==> was.contains(n) || exists|j: int|
                        0 <= j < i && uses(
                            self@,
                            (#[trigger] clauses@[j]).body,
                            scope@.push(clauses@[j].param).push(clauses@[j].resume),
                            n,
                        ) by {
                    assert(out@.contains(n) <==> before.contains(n) || uses(
                        self@,
                        clauses@[i - 1].body,
                        scope@.push(clauses@[i - 1].param).push(clauses@[i - 1].resume),
                        n,
                    ));
                }
            }
        }
    }

    /// Is this a saturated call to a definition with a direct entry point? Exact
    /// arity only.
    pub fn direct_worker(&self, t: &Term) -> (r: Option<Var>)
        ensures
            r == direct_worker(self@, *t),
    {
        match call_head(t) {
            Term::Var(v) => match self.workers.get(*v) {
                Some(w) => if w.1 == args_of(t).len() {
                    Some(*v)
                } else {
                    None
                },
                None => None,
            },
            _ => None,
        }
    }

    /// Does lowering `t` refer to the evidence in scope?
    pub fn needs_ev(&self, t: &Term) -> (r: bool)
        ensures
            r == needs_ev(self@, *t),
        decreases t, 1nat,
    {
        match t {
            Term::App(_, _) => match self.direct_worker(t) {
                Some(f) => if self.worker_ev.contains(&f) {
                    true
                } else {
                    self.args_need_ev(t)
                },
                None => true,
            },
            Term::Perform(_, _, _, _) => true,
            Term::Handle { .. } => true,
            Term::LetRec(_, _) => true,
            Term::Join { .. } => true,
            Term::Jump(_, _, _) => true,
            Term::Var(v) => self.letrecs.contains(v),
            Term::Lam(_, _, _) => false,
            Term::Lit(_) => false,
            Term::Error => false,
            Term::TyLam(_, _, b) => self.needs_ev(b),
            Term::TyApp(b, _) => self.needs_ev(b),
            Term::Loc(_, b) => self.needs_ev(b),
            Term::Proj(b, _) => self.needs_ev(b),
            Term::Sel(b, _, _) => self.needs_ev(b),
            Term::Let(_, _, r, b) => self.needs_ev(r) || self.needs_ev(b),
            Term::Extend(r, _, b) => self.needs_ev(r) || self.needs_ev(b),
            Term::If(a, b, c) => self.needs_ev(a) || self.needs_ev(b) || self.needs_ev(c),
            Term::Tuple(xs) => self.any_needs_ev(xs),
            Term::Array(xs, _) => self.any_needs_ev(xs),
            Term::Record(_, xs) => self.any_needs_ev(xs),
            Term::Ctor(_, _, xs) => self.any_needs_ev(xs),
            Term::Prim(_, xs, _) => self.any_needs_ev(xs),
            Term::Case(s, arms, _) => {
                let mut found: bool = self.needs_ev(s);
                let ghost first = found;
                let mut i: usize = 0;
                while i < arms.len()
                    invariant
                        i <= arms@.len(),
                        decreases_to!(t => arms),
                        found == (first || exists|j: int|
                            0 <= j < i && (needs_ev(self@, (#[trigger] arms@[j]).body) || (arms@[j].guard is Some
                                && needs_ev(self@, arms@[j].guard->0)))),
                    decreases arms@.len() - i,
                {
                    assert(decreases_to!(arms => arms@[i as int]));
                    let here: bool = self.needs_ev(&arms[i].body);
                    let guard: bool = match &arms[i].guard {
                        Some(g) => self.needs_ev(g),
                        None => false,
                    };
                    if here || guard {
                        found = true;
                    }
                    i = i + 1;
                }
                found
            },
        }
    }

    fn args_need_ev(&self, t: &Term) -> (r: bool)
        ensures
            r == args_need_ev(self@, *t),
        decreases t, 0nat,
    {
        match t {
            Term::Loc(_, inner) => self.args_need_ev(inner),
            Term::App(f, a) => self.args_need_ev(f) || self.needs_ev(a),
            _ => false,
        }
    }

    fn any_needs_ev(&self, xs: &Vec<Term>) -> (r: bool)
        ensures
            r == (exists|i: int| 0 <= i < xs@.len() && needs_ev(self@, #[trigger] xs@[i])),
        decreases xs, 2nat,
    {
        let mut i: usize = 0;
        while i < xs.len()
            invariant
                i <= xs@.len(),
                forall|j: int| 0 <= j < i ==> !needs_ev(self@, #[trigger] xs@[j]),
            decreases xs@.len() - i,
        {
            assert(decreases_to!(xs => xs@[i as int]));
            if self.needs_ev(&xs[i]) {
                return true;
            }
            i = i + 1;
        }
        false
    }

    /// Add what a term needs of the environment.
    pub fn want(&self, out: &mut HashSet<Name>, t: &Term, bound: &Vec<Var>)
        ensures
            final(out)@ == old(out)@.union(wants(self@, *t, bound@)),
    {
        let ghost was = out@;
        self.gather(t, bound, out);
        let ghost mid = out@;
        if self.needs_ev(t) {
            out.insert(self.ev);
            proof {
                assert(out@ == mid.insert(self.ev));
            }
        }
        proof {
            assert(out@ =~= was.union(wants(self@, *t, bound@)));
        }
    }

    /// What a term needs of the environment, the variables `bound` aside.
    pub fn wants(&self, t: &Term, bound: &Vec<Var>) -> (r: HashSet<Name>)
        ensures
            r@ == wants(self@, *t, bound@),
    {
        let mut r: HashSet<Name> = HashSet::new();
        self.want(&mut r, t, bound);
        proof {
            assert(r@ =~= wants(self@, *t, bound@));
        }
        r
    }
}

} // verus!
