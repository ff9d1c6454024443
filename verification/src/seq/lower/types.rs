//! What lowering can tell of a value's type.

use super::state::{Lower, St};
use crate::seq::ir::Name;
use crate::terms::symbol::{self, bare_of, owner_of, split, symbol_of, text_at, Sym};
use crate::terms::term::{peeled, Pat, Term, Var, Variant};
use crate::terms::ty::{
    arity, at_args, bound_arity, is_unknown, just, larger, lit_type, one, says_nothing, share, subst_bound,
    type_of_lit, unknown_list, unknowns, Ty, Tys,
};
use std::rc::Rc;
use vstd::prelude::*;

verus! {

/// A type, or the unknown one.
pub open spec fn or_unknown(t: Option<Ty>) -> Ty {
    match t {
        Some(t) => t,
        None => Ty::Unknown,
    }
}

pub fn or_unknown_ty(t: Option<Ty>) -> (r: Ty)
    ensures
        r == or_unknown(t),
{
    match t {
        Some(t) => t,
        None => Ty::Unknown,
    }
}

/// The type of `t`, as far as a walk down its spine can tell.
pub open spec fn type_of(st: St, t: Term) -> Option<Ty>
    decreases t, 0nat,
{
    match t {
        Term::Loc(_, inner) => type_of(st, *inner),
        Term::TyLam(_, _, inner) => type_of(st, *inner),
        Term::Var(v) => if st.polys.contains_key(v) {
            Some(st.polys[v].ty)
        } else {
            None
        },
        Term::TyApp(f, args) => match peeled(*f) {
            Term::Var(v) => instance(st, v, args@),
            _ => type_of(st, *f),
        },
        Term::Lit(l) => Some(type_of_lit(l)),
        Term::Lam(_, param, body) => Some(
            Ty::Fun(Rc::new(one(param)), Rc::new(or_unknown(type_of(st, *body))), Rc::new(Ty::RowEmpty)),
        ),
        Term::App(f, _) => match type_of(st, *f) {
            Some(Ty::Fun(params, ret, eff)) => match *params {
                Tys::Cons(_, rest) => if *rest is Nil {
                    Some(*ret)
                } else {
                    Some(Ty::Fun(rest, ret, eff))
                },
                Tys::Nil => Some(*ret),
            },
            _ => None,
        },
        Term::Let(_, _, _, body) => type_of(st, *body),
        Term::LetRec(_, body) => type_of(st, *body),
        Term::Join { ty, .. } => Some(ty),
        Term::Jump(_, _, ty) => Some(ty),
        Term::If(_, then, _) => type_of(st, *then),
        Term::Tuple(items) => Some(Ty::Tuple(Rc::new(types_of(st, items@, 0)))),
        Term::Proj(t, i) => match type_of(st, *t) {
            Some(Ty::Tuple(items)) => items.at(i as nat),
            _ => None,
        },
        Term::Array(_, elem) => Some(Ty::Con(symbol::ARRAY, Rc::new(one(elem)))),
        Term::Record(labels, xs) => Some(Ty::Record(Rc::new(row_of(st, labels@, xs@, 0)))),
        Term::Extend(x, label, v) => {
            let rest = match type_of(st, *x) {
                Some(Ty::Record(row)) => *row,
                _ => Ty::RowEmpty,
            };
            Some(
                Ty::Record(
                    Rc::new(Ty::RowExtend(label, Rc::new(or_unknown(type_of(st, *v))), Rc::new(rest))),
                ),
            )
        },
        Term::Sel(_, _, ty) => Some(ty),
        Term::Ctor(_, ty, _) => Some(ty),
        Term::Case(_, _, ty) => Some(ty),
        Term::Prim(_, _, ty) => Some(ty),
        Term::Perform(_, _, _, ty) => Some(ty),
        Term::Handle { ty, .. } => Some(ty),
        Term::Error => None,
    }
}

/// The types of `xs` from `i` on.
pub open spec fn types_of(st: St, xs: Seq<Term>, i: nat) -> Tys
    decreases xs, xs.len() - i,
{
    if i >= xs.len() {
        Tys::Nil
    } else {
        Tys::Cons(Rc::new(or_unknown(type_of(st, xs[i as int]))), Rc::new(types_of(st, xs, i + 1)))
    }
}

/// A row of the labels from `i` on, each at the type of its value.
pub open spec fn row_of(st: St, labels: Seq<Sym>, xs: Seq<Term>, i: nat) -> Ty
    decreases xs, xs.len() - i,
{
    if i >= xs.len() || i >= labels.len() {
        Ty::RowEmpty
    } else {
        Ty::RowExtend(
            labels[i as int],
            Rc::new(or_unknown(type_of(st, xs[i as int]))),
            Rc::new(row_of(st, labels, xs, i + 1)),
        )
    }
}

/// The type of `v` at some arguments: as the definition it is a copy of says, where
/// the arguments are that one's.
pub open spec fn instance(st: St, v: Var, args: Seq<Ty>) -> Option<Ty> {
    if !st.polys.contains_key(v) {
        None
    } else {
        let poly = st.polys[v];
        if st.origins.contains_key(v) && st.polys.contains_key(st.origins[v]) && poly.binders.len() != args.len()
            && st.polys[st.origins[v]].binders.len() == args.len() {
            Some(st.polys[st.origins[v]].at(args))
        } else {
            Some(poly.at(args))
        }
    }
}

/// The constructors of type `name`, looked for from `i` on.
pub open spec fn variants_of(all: Seq<(Sym, Vec<Variant>)>, name: Sym, i: nat) -> Option<Seq<Variant>>
    decreases all.len() - i,
{
    if i >= all.len() {
        None
    } else if all[i as int].0 == name {
        Some(all[i as int].1@)
    } else {
        variants_of(all, name, i + 1)
    }
}

/// The first constructor from `i` on that `ctor` names, with or without its type's
/// name.
pub open spec fn variant_at(symbols: Seq<Seq<char>>, vs: Seq<Variant>, ctor: Sym, i: nat) -> nat
    decreases vs.len() - i,
{
    if i >= vs.len() {
        i
    } else if vs[i as int].name == ctor || text_at(symbols, vs[i as int].name) == bare_of(text_at(symbols, ctor)) {
        i
    } else {
        variant_at(symbols, vs, ctor, i + 1)
    }
}

/// The fields of constructor `ctor` of type `name`.
pub open spec fn declared(st: St, name: Sym, ctor: Sym) -> Option<Seq<Ty>> {
    match variants_of(st.variants, name, 0) {
        Some(vs) => {
            let i = variant_at(st.symbols, vs, ctor, 0);
            if i < vs.len() {
                Some(vs[i as int].fields@)
            } else {
                None
            }
        },
        None => None,
    }
}

/// The type constructor `ctor` belongs to, by its name.
pub open spec fn owner(st: St, ctor: Sym) -> Option<Sym> {
    match owner_of(text_at(st.symbols, ctor)) {
        Some(o) => symbol_of(st.symbols, o),
        None => None,
    }
}

/// How many arguments the first `n` of some types need.
pub open spec fn widest(ts: Seq<Ty>, n: nat) -> nat
    decreases n,
{
    if n == 0 || n > ts.len() {
        0
    } else {
        larger(widest(ts, (n - 1) as nat), arity(ts[n - 1]))
    }
}

/// How many arguments the fields of the first `n` of some constructors need.
pub open spec fn widest_of(vs: Seq<Variant>, n: nat) -> nat
    decreases n,
{
    if n == 0 || n > vs.len() {
        0
    } else {
        larger(widest_of(vs, (n - 1) as nat), widest(vs[n - 1].fields@, vs[n - 1].fields@.len()))
    }
}

/// Field types at some arguments.
pub open spec fn fields_at(fs: Seq<Ty>, args: Tys) -> Seq<Ty> {
    Seq::new(fs.len(), |i: int| at_args(fs[i], args))
}

/// The types of constructor `ctor`'s fields, in a value of type `of`. Where `of` is
/// not the type `ctor` belongs to, the declaration still says what it can: its
/// fields at unknown type arguments.
pub open spec fn field_types(st: St, ctor: Sym, of: Option<Ty>) -> Option<Seq<Ty>> {
    match of {
        Some(Ty::Con(name, args)) => match declared(st, name, ctor) {
            Some(fs) => Some(fields_at(fs, *args)),
            None => owned_fields(st, ctor),
        },
        _ => owned_fields(st, ctor),
    }
}

pub open spec fn owned_fields(st: St, ctor: Sym) -> Option<Seq<Ty>> {
    match owner(st, ctor) {
        Some(o) => match declared(st, o, ctor) {
            Some(fs) => Some(fields_at(fs, unknowns(widest(fs, fs.len())))),
            None => None,
        },
        None => None,
    }
}

/// The type of a field a pattern matches: derived from the value's type, unless
/// that says nothing, in which case what the pattern was checked at, where it names
/// the field.
pub open spec fn field_type(derived: Option<Ty>, p: Pat) -> Option<Ty> {
    if derived is Some && !(derived->0 is Var) && !says_nothing(derived->0) {
        derived
    } else {
        match p {
            Pat::Var(_, ty) => Some(ty),
            Pat::As(_, ty, _) => Some(ty),
            _ => if derived is Some && !says_nothing(derived->0) {
                derived
            } else {
                None
            },
        }
    }
}

/// What a pattern that takes a value apart says of it.
pub open spec fn pattern_type(st: St, p: Pat) -> Option<Ty> {
    match p {
        Pat::Ctor(ctor, _) => match owner(st, ctor) {
            Some(o) => match variants_of(st.variants, o, 0) {
                Some(vs) => Some(Ty::Con(o, Rc::new(unknowns(widest_of(vs, vs.len()))))),
                None => None,
            },
            None => None,
        },
        Pat::Tuple(items) => Some(Ty::Tuple(Rc::new(unknowns(items@.len())))),
        Pat::Array(_) => Some(Ty::Con(symbol::ARRAY, Rc::new(one(Ty::Unknown)))),
        Pat::Record(_) => Some(Ty::Record(Rc::new(Ty::RowEmpty))),
        Pat::Lit(l) => Some(type_of_lit(l)),
        Pat::Var(_, _) => None,
        Pat::As(_, _, _) => None,
        Pat::Wild => None,
    }
}

/// The type a name for field `i`, matched by `p`, is given.
pub open spec fn name_type(st: St, types: Option<Seq<Ty>>, p: Pat, i: int) -> Option<Ty> {
    let ty = match types {
        Some(ts) => if i < ts.len() {
            Some(ts[i])
        } else {
            None
        },
        None => None,
    };
    match field_type(ty, p) {
        Some(t) => Some(t),
        None => pattern_type(st, p),
    }
}

/// With names taken for the first `n` fields, and those names.
pub open spec fn name_fields(st: St, types: Option<Seq<Ty>>, subs: Seq<Pat>, n: nat) -> (St, Seq<Name>)
    decreases n,
{
    if n == 0 || n > subs.len() {
        (st, Seq::empty())
    } else {
        let (st1, names) = name_fields(st, types, subs, (n - 1) as nat);
        (st1.fresh_typed(name_type(st1, types, subs[n - 1], n - 1)), names.push(st1.next_name))
    }
}

/// Names for the fields of constructor `ctor` in a value of type `of` matched
/// against `subs`.
pub open spec fn field_names(st: St, ctor: Sym, subs: Seq<Pat>, of: Option<Ty>) -> (St, Seq<Name>) {
    name_fields(st, field_types(st, ctor, of), subs, subs.len())
}

/// The type of field `label` of a row.
pub open spec fn in_row(row: Ty, label: Sym) -> Option<Ty>
    decreases row,
{
    match row {
        Ty::RowExtend(l, ty, rest) => if l == label {
            Some(*ty)
        } else {
            in_row(*rest, label)
        },
        _ => None,
    }
}

/// The type of field `label` of a record of type `of`.
pub open spec fn label_type(of: Option<Ty>, label: Sym) -> Option<Ty> {
    match of {
        Some(Ty::Record(row)) => in_row(*row, label),
        _ => None,
    }
}

/// The type arguments of `v`'s instantiation at `tys` that take descriptors.
pub open spec fn described_args(st: St, v: Var, tys: Option<Seq<Ty>>) -> Option<Seq<Ty>> {
    if st.tyabs.contains_key(v) {
        Some(Seq::new(st.tyabs[v].len(), |i: int| type_arg(tys, st.tyabs[v][i])))
    } else {
        None
    }
}

pub open spec fn type_arg(tys: Option<Seq<Ty>>, i: usize) -> Ty {
    match tys {
        Some(ts) => if i < ts.len() {
            ts[i as int]
        } else {
            Ty::Unknown
        },
        None => Ty::Unknown,
    }
}

impl Lower {
    fn instance(&self, v: Var, args: &Vec<Ty>) -> (r: Option<Ty>)
        ensures
            r == instance(self@, v, args@),
    {
        match self.polys.get(v) {
            None => None,
            Some(poly) => {
                if poly.binders.len() != args.len() {
                    if let Some(o) = self.origins.get(&v) {
                        if let Some(original) = self.polys.get(*o) {
                            if original.binders.len() == args.len() {
                                return Some(original.instantiate(args));
                            }
                        }
                    }
                }
                Some(poly.instantiate(args))
            },
        }
    }

    /// The type of `t`, as far as a walk down its spine can tell -- enough to know
    /// how its value is represented.
    pub fn type_of(&self, t: &Term) -> (r: Option<Ty>)
        ensures
            r == type_of(self@, *t),
        decreases t, 0nat,
    {
        match t {
            Term::Loc(_, inner) => self.type_of(inner),
            Term::TyLam(_, _, inner) => self.type_of(inner),
            Term::Var(v) => match self.polys.get(*v) {
                Some(p) => Some(p.ty.copy()),
                None => None,
            },
            Term::TyApp(f, args) => match f.peel() {
                Term::Var(v) => self.instance(*v, args),
                _ => self.type_of(f),
            },
            Term::Lit(l) => Some(lit_type(l)),
            Term::Lam(_, param, body) => Some(
                Ty::Fun(
                    Rc::new(just(param.copy())),
                    Rc::new(or_unknown_ty(self.type_of(body))),
                    Rc::new(Ty::RowEmpty),
                ),
            ),
            Term::App(f, _) => match self.type_of(f) {
                Some(Ty::Fun(params, ret, eff)) => match &*params {
                    Tys::Cons(_, rest) => match &**rest {
                        Tys::Nil => Some(ret.copy()),
                        _ => Some(Ty::Fun(share(rest), share(&ret), share(&eff))),
                    },
                    Tys::Nil => Some(ret.copy()),
                },
                _ => None,
            },
            Term::Let(_, _, _, body) => self.type_of(body),
            Term::LetRec(_, body) => self.type_of(body),
            Term::Join { ty, .. } => Some(ty.copy()),
            Term::Jump(_, _, ty) => Some(ty.copy()),
            Term::If(_, then, _) => self.type_of(then),
            Term::Tuple(items) => Some(Ty::Tuple(Rc::new(self.types_of(items, 0)))),
            Term::Proj(t, i) => match self.type_of(t) {
                Some(Ty::Tuple(items)) => items.get(*i),
                _ => None,
            },
            Term::Array(_, elem) => Some(Ty::Con(symbol::ARRAY, Rc::new(just(elem.copy())))),
            Term::Record(labels, xs) => Some(Ty::Record(Rc::new(self.row_of(labels, xs, 0)))),
            Term::Extend(x, label, v) => {
                let rest: Ty = match self.type_of(x) {
                    Some(Ty::Record(row)) => row.copy(),
                    _ => Ty::RowEmpty,
                };
                Some(
                    Ty::Record(
                        Rc::new(Ty::RowExtend(*label, Rc::new(or_unknown_ty(self.type_of(v))), Rc::new(rest))),
                    ),
                )
            },
            Term::Sel(_, _, ty) => Some(ty.copy()),
            Term::Ctor(_, ty, _) => Some(ty.copy()),
            Term::Case(_, _, ty) => Some(ty.copy()),
            Term::Prim(_, _, ty) => Some(ty.copy()),
            Term::Perform(_, _, _, ty) => Some(ty.copy()),
            Term::Handle { ty, .. } => Some(ty.copy()),
            Term::Error => None,
        }
    }

    fn types_of(&self, xs: &Vec<Term>, i: usize) -> (r: Tys)
        requires
            i <= xs@.len(),
        ensures
            r == types_of(self@, xs@, i as nat),
        decreases xs, xs@.len() - i,
    {
        if i >= xs.len() {
            Tys::Nil
        } else {
            assert(decreases_to!(xs => xs@[i as int]));
            Tys::Cons(Rc::new(or_unknown_ty(self.type_of(&xs[i]))), Rc::new(self.types_of(xs, i + 1)))
        }
    }

    fn row_of(&self, labels: &Vec<Sym>, xs: &Vec<Term>, i: usize) -> (r: Ty)
        requires
            i <= xs@.len(),
        ensures
            r == row_of(self@, labels@, xs@, i as nat),
        decreases xs, xs@.len() - i,
    {
        if i >= xs.len() || i >= labels.len() {
            Ty::RowEmpty
        } else {
            assert(decreases_to!(xs => xs@[i as int]));
            Ty::RowExtend(
                labels[i],
                Rc::new(or_unknown_ty(self.type_of(&xs[i]))),
                Rc::new(self.row_of(labels, xs, i + 1)),
            )
        }
    }

    /// The constructors of type `name`.
    pub fn variants_of(&self, name: Sym) -> (r: Option<&Vec<Variant>>)
        ensures
            match r {
                Some(vs) => variants_of(self@.variants, name, 0) == Some(vs@),
                None => variants_of(self@.variants, name, 0) is None,
            },
    {
        let mut i: usize = 0;
        while i < self.variants.len()
            invariant
                i <= self.variants@.len(),
                variants_of(self.variants@, name, 0) == variants_of(self.variants@, name, i as nat),
            decreases self.variants@.len() - i,
        {
            if self.variants[i].0 == name {
                return Some(&self.variants[i].1);
            }
            i = i + 1;
        }
        None
    }

    fn declared(&self, name: Sym, ctor: Sym) -> (r: Option<&Vec<Ty>>)
        ensures
            match r {
                Some(fs) => declared(self@, name, ctor) == Some(fs@),
                None => declared(self@, name, ctor) is None,
            },
    {
        match self.variants_of(name) {
            None => None,
            Some(vs) => {
                let whole: String = self.symbols.text(ctor);
                let (_, bare) = split(whole.as_str());
                let mut i: usize = 0;
                while i < vs.len()
                    invariant
                        i <= vs@.len(),
                        bare@ == bare_of(text_at(self@.symbols, ctor)),
                        variant_at(self@.symbols, vs@, ctor, 0) == variant_at(self@.symbols, vs@, ctor, i as nat),
                        variants_of(self@.variants, name, 0) == Some(vs@),
                    decreases vs@.len() - i,
                {
                    let this: String = self.symbols.text(vs[i].name);
                    if vs[i].name == ctor || crate::text::same(this.as_str(), bare.as_str()) {
                        return Some(&vs[i].fields);
                    }
                    i = i + 1;
                }
                None
            },
        }
    }

    fn owner(&self, ctor: Sym) -> (r: Option<Sym>)
        ensures
            r == owner(self@, ctor),
    {
        let whole: String = self.symbols.text(ctor);
        let (o, _) = split(whole.as_str());
        match o {
            Some(o) => self.symbols.find(o.as_str()),
            None => None,
        }
    }

    fn fields_at(fs: &Vec<Ty>, args: &Tys) -> (r: Vec<Ty>)
        ensures
            r@ == fields_at(fs@, *args),
    {
        let mut r: Vec<Ty> = Vec::new();
        let mut i: usize = 0;
        while i < fs.len()
            invariant
                i <= fs@.len(),
                r@ == fields_at(fs@, *args).take(i as int),
            decreases fs@.len() - i,
        {
            r.push(subst_bound(&fs[i], args));
            i = i + 1;
            proof {
                let all = fields_at(fs@, *args);
                assert(all.take(i as int) =~= all.take(i - 1).push(all[i - 1]));
            }
        }
        proof {
            assert(fields_at(fs@, *args).take(i as int) =~= fields_at(fs@, *args));
        }
        r
    }

    fn widest(fs: &Vec<Ty>) -> (r: u64)
        ensures
            r == widest(fs@, fs@.len()),
            r <= 0x1_0000_0000,
    {
        let mut r: u64 = 0;
        let mut i: usize = 0;
        while i < fs.len()
            invariant
                i <= fs@.len(),
                r == widest(fs@, i as nat),
                r <= 0x1_0000_0000,
            decreases fs@.len() - i,
        {
            let a: u64 = bound_arity(&fs[i]);
            if r < a {
                r = a;
            }
            i = i + 1;
        }
        r
    }

    /// The types of constructor `ctor`'s fields, in a value of type `of`.
    pub fn field_types(&self, ctor: Sym, of: &Option<Ty>) -> (r: Option<Vec<Ty>>)
        ensures
            match r {
                Some(ts) => field_types(self@, ctor, *of) == Some(ts@),
                None => field_types(self@, ctor, *of) is None,
            },
    {
        if let Some(Ty::Con(name, args)) = of {
            if let Some(fs) = self.declared(*name, ctor) {
                return Some(Self::fields_at(fs, args));
            }
        }
        match self.owner(ctor) {
            Some(o) => match self.declared(o, ctor) {
                Some(fs) => {
                    let u: Tys = unknown_list(Self::widest(fs));
                    Some(Self::fields_at(fs, &u))
                },
                None => None,
            },
            None => None,
        }
    }

    /// What a pattern that takes a value apart says of it, when nothing else does.
    pub fn pattern_type(&self, p: &Pat) -> (r: Option<Ty>)
        ensures
            r == pattern_type(self@, *p),
    {
        match p {
            Pat::Ctor(ctor, _) => match self.owner(*ctor) {
                Some(o) => match self.variants_of(o) {
                    Some(vs) => {
                        let mut n: u64 = 0;
                        let mut i: usize = 0;
                        while i < vs.len()
                            invariant
                                i <= vs@.len(),
                                n == widest_of(vs@, i as nat),
                            decreases vs@.len() - i,
                        {
                            let a: u64 = Self::widest(&vs[i].fields);
                            if n < a {
                                n = a;
                            }
                            i = i + 1;
                        }
                        Some(Ty::Con(o, Rc::new(unknown_list(n))))
                    },
                    None => None,
                },
                None => None,
            },
            Pat::Tuple(items) => Some(Ty::Tuple(Rc::new(unknown_list(items.len() as u64)))),
            Pat::Array(_) => Some(Ty::Con(symbol::ARRAY, Rc::new(just(Ty::Unknown)))),
            Pat::Record(_) => Some(Ty::Record(Rc::new(Ty::RowEmpty))),
            Pat::Lit(l) => Some(lit_type(l)),
            Pat::Var(_, _) => None,
            Pat::As(_, _, _) => None,
            Pat::Wild => None,
        }
    }

    /// Names for the fields of constructor `ctor` in a value of type `of` matched
    /// against `subs`, each holding what the constructor's declaration says it does
    /// -- or what the pattern says, where the declaration cannot be read at `of`.
    pub fn field_names(&mut self, ctor: Sym, subs: &Vec<Pat>, of: &Option<Ty>) -> (r: Vec<Name>)
        ensures
            final(self)@ == field_names(old(self)@, ctor, subs@, *of).0,
            r@ == field_names(old(self)@, ctor, subs@, *of).1,
    {
        let types: Option<Vec<Ty>> = self.field_types(ctor, of);
        let ghost start = self@;
        let ghost seen = field_types(self@, ctor, *of);
        let mut r: Vec<Name> = Vec::new();
        let mut i: usize = 0;
        while i < subs.len()
            invariant
                i <= subs@.len(),
                match types {
                    Some(ts) => seen == Some(ts@),
                    None => seen is None,
                },
                (self@, r@) == name_fields(start, seen, subs@, i as nat),
            decreases subs@.len() - i,
        {
            let derived: Option<Ty> = match &types {
                Some(ts) => if i < ts.len() {
                    Some(ts[i].copy())
                } else {
                    None
                },
                None => None,
            };
            let ty: Option<Ty> = match choose_field_type(derived, &subs[i]) {
                Some(t) => Some(t),
                None => self.pattern_type(&subs[i]),
            };
            let n: Name = self.fresh_typed(ty);
            r.push(n);
            i = i + 1;
        }
        r
    }

    /// The type arguments of `v`'s instantiation at `tys` that take descriptors.
    pub fn described_args(&self, v: Var, tys: Option<&Vec<Ty>>) -> (r: Option<Vec<Ty>>)
        ensures
            match r {
                Some(ts) => described_args(
                    self@,
                    v,
                    match tys {
                        Some(t) => Some(t@),
                        None => None,
                    },
                ) == Some(ts@),
                None => !self@.tyabs.contains_key(v),
            },
    {
        match self.tyabs.get(v) {
            None => None,
            Some(at) => {
                let ghost gs: Option<Seq<Ty>> = match tys {
                    Some(t) => Some(t@),
                    None => None,
                };
                let ghost all = described_args(self@, v, gs)->0;
                let mut r: Vec<Ty> = Vec::new();
                let mut i: usize = 0;
                while i < at.len()
                    invariant
                        i <= at@.len(),
                        at@ == self@.tyabs[v],
                        self@.tyabs.contains_key(v),
                        gs == (match tys {
                            Some(t) => Some(t@),
                            None => None,
                        }),
                        all == described_args(self@, v, gs)->0,
                        r@ == all.take(i as int),
                    decreases at@.len() - i,
                {
                    let t: Ty = match tys {
                        Some(ts) => if at[i] < ts.len() {
                            ts[at[i]].copy()
                        } else {
                            Ty::Unknown
                        },
                        None => Ty::Unknown,
                    };
                    r.push(t);
                    i = i + 1;
                    proof {
                        assert(all.take(i as int) =~= all.take(i - 1).push(all[i - 1]));
                    }
                }
                proof {
                    assert(all.take(i as int) =~= all);
                }
                Some(r)
            },
        }
    }
}

/// The type of a field a pattern matches.
pub fn choose_field_type(derived: Option<Ty>, p: &Pat) -> (r: Option<Ty>)
    ensures
        r == field_type(derived, *p),
{
    let says: bool = match &derived {
        Some(t) => !is_unknown(t),
        None => false,
    };
    let var: bool = match &derived {
        Some(Ty::Var(_)) => true,
        _ => false,
    };
    if says && !var {
        return derived;
    }
    match p {
        Pat::Var(_, ty) => Some(ty.copy()),
        Pat::As(_, ty, _) => Some(ty.copy()),
        _ => if says {
            derived
        } else {
            None
        },
    }
}

/// The type of field `label` of a record of type `of`.
pub fn type_of_label(of: &Option<Ty>, label: Sym) -> (r: Option<Ty>)
    ensures
        r == label_type(*of, label),
{
    match of {
        Some(Ty::Record(row)) => type_in_row(row, label),
        _ => None,
    }
}

fn type_in_row(row: &Ty, label: Sym) -> (r: Option<Ty>)
    ensures
        r == in_row(*row, label),
    decreases row,
{
    match row {
        Ty::RowExtend(l, ty, rest) => if *l == label {
            Some(ty.copy())
        } else {
            type_in_row(rest, label)
        },
        _ => None,
    }
}

} // verus!
