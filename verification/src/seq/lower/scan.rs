//! The first walk over a term: the type and representation of every variable it
//! binds, and a name for every descriptor.

use super::shape::{abs_binders, abstracts, any_type, describe_binders, described, over_types, ty_abs};
use super::state::{Lower, St};
use crate::seq::ir::{Name, Rep};
use crate::terms::symbol::Sym;
use crate::terms::term::{Arm, HClause, Pat, Term, Var};
use crate::terms::ty::{just, one, Poly, PolyV, Ty, TyVar, VarKind};
use std::rc::Rc;
use vstd::prelude::*;

verus! {

broadcast use vstd::std_specs::hash::group_hash_axioms;

impl St {
    /// With the scope of descriptors as it was when it held `depth` of them.
    pub open spec fn cut_scope(self, depth: nat) -> St {
        if depth <= self.tscope.len() {
            St { tscope: self.tscope.take(depth as int), ..self }
        } else {
            self
        }
    }

    /// With more descriptors in scope.
    pub open spec fn more_scope(self, names: Seq<(u32, Name)>) -> St {
        St { tscope: self.tscope + names, ..self }
    }

    /// With `v` known to be a type abstraction over `vs`.
    pub open spec fn abstraction(self, v: Var, vs: Seq<TyVar>) -> St {
        St { tyabs: self.tyabs.insert(v, described(vs, vs.len())), ..self }
    }
}

/// With a descriptor's name taken for each of the first `n` binders that needs one,
/// and those names.
pub open spec fn name_descs(st: St, vs: Seq<TyVar>, n: nat) -> (St, Seq<(u32, Name)>)
    decreases n,
{
    if n == 0 || n > vs.len() {
        (st, Seq::empty())
    } else {
        let (st1, names) = name_descs(st, vs, (n - 1) as nat);
        if vs[n - 1].kind == VarKind::Type {
            (
                St { descs: st1.descs.insert(st1.next_name), ..st1.fresh_as(Rep::Int) },
                names.push((vs[n - 1].id, st1.next_name)),
            )
        } else {
            (st1, names)
        }
    }
}

/// The type a clause's resumption has: a function's, whatever was said of it.
pub open spec fn resume_type(c: HClause) -> Ty {
    if c.resume_ty is Fun {
        c.resume_ty
    } else {
        Ty::Fun(Rc::new(one(c.param_ty)), Rc::new(Ty::Unknown), Rc::new(Ty::RowEmpty))
    }
}

/// What is known once `t` has been walked.
pub open spec fn scan(st: St, t: Term) -> St
    decreases t, 0nat,
{
    match t {
        Term::Var(_) => st,
        Term::Lit(_) => st,
        Term::Error => st,
        Term::TyLam(id, vs, b) => {
            let st1 = if over_types(vs@) {
                if st.tylams.contains_key(id) {
                    st.more_scope(st.tylams[id])
                } else {
                    let (st0, names) = name_descs(st, vs@, vs@.len());
                    St { tylams: st0.tylams.insert(id, names), ..st0 }.more_scope(names)
                }
            } else {
                st
            };
            scan(st1, *b).cut_scope(st.tscope.len())
        },
        Term::Loc(_, b) => scan(st, *b),
        Term::TyApp(b, _) => scan(st, *b),
        Term::Proj(b, _) => scan(st, *b),
        Term::Sel(b, _, _) => scan(st, *b),
        Term::Perform(_, _, b, _) => scan(st, *b),
        Term::Lam(v, ty, b) => scan(st.bind_poly(v, PolyV::plain(ty)), *b),
        Term::App(a, b) => scan(scan(st, *a), *b),
        Term::Extend(a, _, b) => scan(scan(st, *a), *b),
        Term::Let(v, poly, r, b) => {
            let st1 = st.bind_poly(v, poly@);
            let st2 = if abstracts(*r) {
                let st0 = st1.abstraction(v, abs_binders(*r));
                St { binder_reps: st0.binder_reps.insert(v, Rep::Ref), ..st0 }
            } else {
                st1
            };
            scan(scan(st2, *r), *b)
        },
        Term::Join { var, params, ty, rhs, body } => scan(
            scan(scan_params(st, params@, params@.len()).bind_poly(var, PolyV::plain(ty)), *rhs),
            *body,
        ),
        Term::Jump(_, args, _) => scan_list(st, args@, args@.len()),
        Term::LetRec(binds, body) => scan(scan_binds(st, binds@, binds@.len()), *body),
        Term::If(a, b, c) => scan(scan(scan(st, *a), *b), *c),
        Term::Tuple(xs) => scan_list(st, xs@, xs@.len()),
        Term::Array(xs, _) => scan_list(st, xs@, xs@.len()),
        Term::Record(_, xs) => scan_list(st, xs@, xs@.len()),
        Term::Ctor(_, _, xs) => scan_list(st, xs@, xs@.len()),
        Term::Prim(_, xs, _) => scan_list(st, xs@, xs@.len()),
        Term::Case(s, arms, _) => scan_arms(scan(st, *s), arms@, arms@.len()),
        Term::Handle { body, clauses, ret, .. } => {
            let st1 = scan_clauses(scan(st, *body), clauses@, clauses@.len());
            match ret {
                Some(r) => scan(st1.bind_poly(r.0, PolyV::plain(r.1)), *r.2),
                None => st1,
            }
        },
    }
}

pub open spec fn scan_list(st: St, xs: Seq<Term>, n: nat) -> St
    decreases xs, n,
{
    if n == 0 || n > xs.len() {
        st
    } else {
        scan(scan_list(st, xs, (n - 1) as nat), xs[n - 1])
    }
}

pub open spec fn scan_params(st: St, params: Seq<(Var, Ty)>, n: nat) -> St
    decreases n,
{
    if n == 0 || n > params.len() {
        st
    } else {
        scan_params(st, params, (n - 1) as nat).bind_poly(params[n - 1].0, PolyV::plain(params[n - 1].1))
    }
}

pub open spec fn scan_binds(st: St, binds: Seq<(Var, Poly, Term)>, n: nat) -> St
    decreases binds, n,
{
    if n == 0 || n > binds.len() {
        st
    } else {
        let (v, poly, t) = binds[n - 1];
        let st1 = scan_binds(st, binds, (n - 1) as nat).bind_poly(v, poly@);
        let st2 = if abstracts(t) {
            st1.abstraction(v, abs_binders(t))
        } else {
            st1
        };
        scan(st2, binds[n - 1].2)
    }
}

pub open spec fn scan_arms(st: St, arms: Seq<Arm>, n: nat) -> St
    decreases arms, n,
{
    if n == 0 || n > arms.len() {
        st
    } else {
        let st1 = scan_pat(scan_arms(st, arms, (n - 1) as nat), arms[n - 1].pat);
        let st2 = match arms[n - 1].guard {
            Some(g) => scan(st1, g),
            None => st1,
        };
        scan(st2, arms[n - 1].body)
    }
}

pub open spec fn scan_clauses(st: St, cs: Seq<HClause>, n: nat) -> St
    decreases cs, n,
{
    if n == 0 || n > cs.len() {
        st
    } else {
        let c = cs[n - 1];
        let st1 = scan_clauses(st, cs, (n - 1) as nat).bind_poly(c.param, PolyV::plain(c.param_ty)).bind_poly(
            c.resume,
            PolyV::plain(resume_type(c)),
        );
        scan(st1, cs[n - 1].body)
    }
}

pub open spec fn scan_pat(st: St, p: Pat) -> St
    decreases p, 0nat,
{
    match p {
        Pat::Wild => st,
        Pat::Lit(_) => st,
        Pat::Var(v, ty) => st.bind_poly(v, PolyV::plain(ty)),
        Pat::As(v, ty, sub) => scan_pat(st.bind_poly(v, PolyV::plain(ty)), *sub),
        Pat::Tuple(ps) => scan_pats(st, ps@, ps@.len()),
        Pat::Array(ps) => scan_pats(st, ps@, ps@.len()),
        Pat::Ctor(_, ps) => scan_pats(st, ps@, ps@.len()),
        Pat::Record(fs) => scan_fields(st, fs@, fs@.len()),
    }
}

pub open spec fn scan_pats(st: St, ps: Seq<Pat>, n: nat) -> St
    decreases ps, n,
{
    if n == 0 || n > ps.len() {
        st
    } else {
        scan_pat(scan_pats(st, ps, (n - 1) as nat), ps[n - 1])
    }
}

pub open spec fn scan_fields(st: St, fs: Seq<(Sym, Pat)>, n: nat) -> St
    decreases fs, n,
{
    if n == 0 || n > fs.len() {
        st
    } else {
        scan_pat(scan_fields(st, fs, (n - 1) as nat), fs[n - 1].1)
    }
}

pub fn copy_pairs(v: &Vec<(u32, Name)>) -> (r: Vec<(u32, Name)>)
    ensures
        r@ == v@,
{
    let mut r: Vec<(u32, Name)> = Vec::new();
    let mut i: usize = 0;
    while i < v.len()
        invariant
            i <= v@.len(),
            r@ == v@.take(i as int),
        decreases v@.len() - i,
    {
        r.push(v[i]);
        i = i + 1;
        proof {
            assert(v@.take(i as int) =~= v@.take(i - 1).push(v@[i - 1]));
        }
    }
    proof {
        assert(v@.take(i as int) =~= v@);
    }
    r
}

impl Lower {
    /// The scope of descriptors as it was when it held `depth` of them.
    pub fn cut_scope(&mut self, depth: usize)
        ensures
            final(self)@ == old(self)@.cut_scope(depth as nat),
    {
        if depth <= self.tscope.len() {
            self.tscope.truncate(depth);
        }
    }

    /// More descriptors in scope.
    pub fn more_scope(&mut self, names: &Vec<(u32, Name)>)
        ensures
            final(self)@ == old(self)@.more_scope(names@),
    {
        let mut more: Vec<(u32, Name)> = copy_pairs(names);
        self.tscope.append(&mut more);
    }

    /// `v` is a type abstraction over `vs`.
    pub fn abstraction(&mut self, v: Var, vs: &Vec<TyVar>)
        ensures
            final(self)@ == old(self)@.abstraction(v, vs@),
    {
        let at: Vec<usize> = describe_binders(vs);
        self.tyabs.insert(v, at);
    }

    fn name_descs(&mut self, vs: &Vec<TyVar>) -> (r: Vec<(u32, Name)>)
        ensures
            final(self)@ == name_descs(old(self)@, vs@, vs@.len()).0,
            r@ == name_descs(old(self)@, vs@, vs@.len()).1,
    {
        let ghost start = self@;
        let mut r: Vec<(u32, Name)> = Vec::new();
        let mut i: usize = 0;
        while i < vs.len()
            invariant
                i <= vs@.len(),
                (self@, r@) == name_descs(start, vs@, i as nat),
            decreases vs@.len() - i,
        {
            if vs[i].kind == VarKind::Type {
                let n: Name = self.fresh_as(Rep::Int);
                self.descs.insert(n);
                r.push((vs[i].id, n));
            }
            i = i + 1;
        }
        r
    }

    /// Every variable `t` binds, with its type and representation, and a name for
    /// every descriptor a type abstraction in it binds.
    pub fn scan(&mut self, t: &Term)
        ensures
            final(self)@ == scan(old(self)@, *t),
        decreases t, 0nat,
    {
        match t {
            Term::Var(_) => {},
            Term::Lit(_) => {},
            Term::Error => {},
            Term::TyLam(id, vs, b) => {
                let depth: usize = self.tscope.len();
                if any_type(vs) {
                    let had: Option<Vec<(u32, Name)>> = match self.tylams.get(*id) {
                        Some(names) => Some(copy_pairs(names)),
                        None => None,
                    };
                    match had {
                        Some(names) => {
                            self.more_scope(&names);
                        },
                        None => {
                            let names: Vec<(u32, Name)> = self.name_descs(vs);
                            self.tylams.insert(*id, copy_pairs(&names));
                            self.more_scope(&names);
                        },
                    }
                }
                self.scan(b);
                self.cut_scope(depth);
            },
            Term::Loc(_, b) => self.scan(b),
            Term::TyApp(b, _) => self.scan(b),
            Term::Proj(b, _) => self.scan(b),
            Term::Sel(b, _, _) => self.scan(b),
            Term::Perform(_, _, b, _) => self.scan(b),
            Term::Lam(v, ty, b) => {
                self.bind_poly(*v, Poly::mono(ty.copy()));
                self.scan(b);
            },
            Term::App(a, b) => {
                self.scan(a);
                self.scan(b);
            },
            Term::Extend(a, _, b) => {
                self.scan(a);
                self.scan(b);
            },
            Term::Let(v, poly, r, b) => {
                self.bind_poly(*v, poly.copy());
                if let Some((_, vs, _)) = ty_abs(r) {
                    self.abstraction(*v, vs);
                    self.binder_reps.insert(*v, Rep::Ref);
                }
                self.scan(r);
                self.scan(b);
            },
            Term::Join { var, params, ty, rhs, body } => {
                self.scan_params(params);
                self.bind_poly(*var, Poly::mono(ty.copy()));
                self.scan(rhs);
                self.scan(body);
            },
            Term::Jump(_, args, _) => self.scan_list(args),
            Term::LetRec(binds, body) => {
                self.scan_binds(binds);
                self.scan(body);
            },
            Term::If(a, b, c) => {
                self.scan(a);
                self.scan(b);
                self.scan(c);
            },
            Term::Tuple(xs) => self.scan_list(xs),
            Term::Array(xs, _) => self.scan_list(xs),
            Term::Record(_, xs) => self.scan_list(xs),
            Term::Ctor(_, _, xs) => self.scan_list(xs),
            Term::Prim(_, xs, _) => self.scan_list(xs),
            Term::Case(s, arms, _) => {
                self.scan(s);
                self.scan_arms(arms);
            },
            Term::Handle { body, clauses, ret, .. } => {
                self.scan(body);
                self.scan_clauses(clauses);
                if let Some((v, ty, b)) = ret {
                    self.bind_poly(*v, Poly::mono(ty.copy()));
                    self.scan(b);
                }
            },
        }
    }

    fn scan_list(&mut self, xs: &Vec<Term>)
        ensures
            final(self)@ == scan_list(old(self)@, xs@, xs@.len()),
        decreases xs, 1nat,
    {
        let ghost start = self@;
        let mut i: usize = 0;
        while i < xs.len()
            invariant
                i <= xs@.len(),
                self@ == scan_list(start, xs@, i as nat),
            decreases xs@.len() - i,
        {
            assert(decreases_to!(xs => xs@[i as int]));
            self.scan(&xs[i]);
            i = i + 1;
        }
    }

    fn scan_params(&mut self, params: &Vec<(Var, Ty)>)
        ensures
            final(self)@ == scan_params(old(self)@, params@, params@.len()),
    {
        let ghost start = self@;
        let mut i: usize = 0;
        while i < params.len()
            invariant
                i <= params@.len(),
                self@ == scan_params(start, params@, i as nat),
            decreases params@.len() - i,
        {
            self.bind_poly(params[i].0, Poly::mono(params[i].1.copy()));
            i = i + 1;
        }
    }

    fn scan_binds(&mut self, binds: &Vec<(Var, Poly, Term)>)
        ensures
            final(self)@ == scan_binds(old(self)@, binds@, binds@.len()),
        decreases binds, 1nat,
    {
        let ghost start = self@;
        let mut i: usize = 0;
        while i < binds.len()
            invariant
                i <= binds@.len(),
                self@ == scan_binds(start, binds@, i as nat),
            decreases binds@.len() - i,
        {
            assert(decreases_to!(binds => binds@[i as int]));
            let (v, poly, t) = &binds[i];
            self.bind_poly(*v, poly.copy());
            if let Some((_, vs, _)) = ty_abs(t) {
                self.abstraction(*v, vs);
            }
            self.scan(t);
            i = i + 1;
        }
    }

    fn scan_arms(&mut self, arms: &Vec<Arm>)
        ensures
            final(self)@ == scan_arms(old(self)@, arms@, arms@.len()),
        decreases arms, 1nat,
    {
        let ghost start = self@;
        let mut i: usize = 0;
        while i < arms.len()
            invariant
                i <= arms@.len(),
                self@ == scan_arms(start, arms@, i as nat),
            decreases arms@.len() - i,
        {
            assert(decreases_to!(arms => arms@[i as int]));
            self.scan_pat(&arms[i].pat);
            if let Some(g) = &arms[i].guard {
                self.scan(g);
            }
            self.scan(&arms[i].body);
            i = i + 1;
        }
    }

    fn scan_clauses(&mut self, cs: &Vec<HClause>)
        ensures
            final(self)@ == scan_clauses(old(self)@, cs@, cs@.len()),
        decreases cs, 1nat,
    {
        let ghost start = self@;
        let mut i: usize = 0;
        while i < cs.len()
            invariant
                i <= cs@.len(),
                self@ == scan_clauses(start, cs@, i as nat),
            decreases cs@.len() - i,
        {
            assert(decreases_to!(cs => cs@[i as int]));
            let c: &HClause = &cs[i];
            self.bind_poly(c.param, Poly::mono(c.param_ty.copy()));
            let resume: Ty = match &c.resume_ty {
                Ty::Fun(_, _, _) => c.resume_ty.copy(),
                _ => Ty::Fun(Rc::new(just(c.param_ty.copy())), Rc::new(Ty::Unknown), Rc::new(Ty::RowEmpty)),
            };
            self.bind_poly(c.resume, Poly::mono(resume));
            self.scan(&c.body);
            i = i + 1;
        }
    }

    fn scan_pat(&mut self, p: &Pat)
        ensures
            final(self)@ == scan_pat(old(self)@, *p),
        decreases p, 0nat,
    {
        match p {
            Pat::Wild => {},
            Pat::Lit(_) => {},
            Pat::Var(v, ty) => self.bind_poly(*v, Poly::mono(ty.copy())),
            Pat::As(v, ty, sub) => {
                self.bind_poly(*v, Poly::mono(ty.copy()));
                self.scan_pat(sub);
            },
            Pat::Tuple(ps) => self.scan_pats(ps),
            Pat::Array(ps) => self.scan_pats(ps),
            Pat::Ctor(_, ps) => self.scan_pats(ps),
            Pat::Record(fs) => {
                let ghost start = self@;
                let mut i: usize = 0;
                while i < fs.len()
                    invariant
                        i <= fs@.len(),
                        decreases_to!(p => fs),
                        self@ == scan_fields(start, fs@, i as nat),
                    decreases fs@.len() - i,
                {
                    assert(decreases_to!(fs => fs@[i as int]));
                    self.scan_pat(&fs[i].1);
                    i = i + 1;
                }
            },
        }
    }

    fn scan_pats(&mut self, ps: &Vec<Pat>)
        ensures
            final(self)@ == scan_pats(old(self)@, ps@, ps@.len()),
        decreases ps, 1nat,
    {
        let ghost start = self@;
        let mut i: usize = 0;
        while i < ps.len()
            invariant
                i <= ps@.len(),
                self@ == scan_pats(start, ps@, i as nat),
            decreases ps@.len() - i,
        {
            assert(decreases_to!(ps => ps@[i as int]));
            self.scan_pat(&ps[i]);
            i = i + 1;
        }
    }
}

} // verus!
