//! Types, as far as lowering reads them: enough to know how a value is
//! represented.

use super::desc::{self, Desc};
use super::prim::{Lit, Width};
use super::symbol::{self, Sym};
use std::rc::Rc;
use vstd::prelude::*;

verus! {

/// `Rc::clone`: another pointer to the same value.
#[verifier::external_body]
pub(crate) fn share<T>(a: &Rc<T>) -> (r: Rc<T>)
    ensures
        r == *a,
{
    Rc::clone(a)
}

/// A type.
pub enum Ty {
    Var(u32),
    /// A variable of a declaration, by its place among its parameters.
    Bound(u32),
    Con(Sym, Rc<Tys>),
    Fun(Rc<Tys>, Rc<Ty>, Rc<Ty>),
    Tuple(Rc<Tys>),
    Record(Rc<Ty>),
    RowEmpty,
    RowExtend(Sym, Rc<Ty>, Rc<Ty>),
    /// One that could not be worked out.
    Unknown,
}

/// Some types, in order.
pub enum Tys {
    Nil,
    Cons(Rc<Ty>, Rc<Tys>),
}

/// What a type variable ranges over.
#[derive(Debug, Clone, Copy, PartialEq, Eq, Structural)]
pub enum VarKind {
    Type,
    Row,
    Effect,
}

#[derive(Debug, Clone, Copy, PartialEq, Eq, Structural)]
pub struct TyVar {
    pub id: u32,
    pub kind: VarKind,
}

/// A type, and the variables it is generic in.
pub struct Poly {
    pub binders: Vec<TyVar>,
    pub ty: Ty,
}

/// A [`Poly`], as a value.
pub struct PolyV {
    pub binders: Seq<TyVar>,
    pub ty: Ty,
}

impl View for Ty {
    type V = Ty;

    open spec fn view(&self) -> Ty {
        *self
    }
}

impl View for Poly {
    type V = PolyV;

    open spec fn view(&self) -> PolyV {
        PolyV { binders: self.binders@, ty: self.ty }
    }
}

impl Ty {
    /// The same type again: its parts are shared.
    pub fn copy(&self) -> (r: Ty)
        ensures
            r == *self,
    {
        match self {
            Ty::Var(v) => Ty::Var(*v),
            Ty::Bound(i) => Ty::Bound(*i),
            Ty::Con(c, args) => Ty::Con(*c, share(args)),
            Ty::Fun(ps, ret, eff) => Ty::Fun(share(ps), share(ret), share(eff)),
            Ty::Tuple(items) => Ty::Tuple(share(items)),
            Ty::Record(row) => Ty::Record(share(row)),
            Ty::RowEmpty => Ty::RowEmpty,
            Ty::RowExtend(l, t, rest) => Ty::RowExtend(*l, share(t), share(rest)),
            Ty::Unknown => Ty::Unknown,
        }
    }
}

impl Tys {
    pub open spec fn len(self) -> nat
        decreases self,
    {
        match self {
            Tys::Nil => 0,
            Tys::Cons(_, rest) => 1 + rest.len(),
        }
    }

    /// The type at place `i`, if there is one.
    pub open spec fn at(self, i: nat) -> Option<Ty>
        decreases self,
    {
        match self {
            Tys::Nil => None,
            Tys::Cons(t, rest) => if i == 0 {
                Some(*t)
            } else {
                rest.at((i - 1) as nat)
            },
        }
    }

    pub fn get(&self, i: usize) -> (r: Option<Ty>)
        ensures
            r == self.at(i as nat),
        decreases self,
    {
        match self {
            Tys::Nil => None,
            Tys::Cons(t, rest) => if i == 0 {
                Some(t.copy())
            } else {
                rest.get(i - 1)
            },
        }
    }
}

/// `n` types nothing is known of.
pub open spec fn unknowns(n: nat) -> Tys
    decreases n,
{
    if n == 0 {
        Tys::Nil
    } else {
        Tys::Cons(Rc::new(Ty::Unknown), Rc::new(unknowns((n - 1) as nat)))
    }
}

pub fn unknown_list(n: u64) -> (r: Tys)
    ensures
        r == unknowns(n as nat),
    decreases n,
{
    if n == 0 {
        Tys::Nil
    } else {
        Tys::Cons(Rc::new(Ty::Unknown), Rc::new(unknown_list(n - 1)))
    }
}

/// A list of one type.
pub open spec fn one(t: Ty) -> Tys {
    Tys::Cons(Rc::new(t), Rc::new(Tys::Nil))
}

pub fn just(t: Ty) -> (r: Tys)
    ensures
        r == one(t),
{
    Tys::Cons(Rc::new(t), Rc::new(Tys::Nil))
}

/// A type with no parameters, by name.
pub open spec fn named(c: Sym) -> Ty {
    Ty::Con(c, Rc::new(Tys::Nil))
}

pub fn con(c: Sym) -> (r: Ty)
    ensures
        r == named(c),
{
    Ty::Con(c, Rc::new(Tys::Nil))
}

/// Says nothing of a value: not worked out, or a specialized copy's reference,
/// which is a representation and not a type.
pub open spec fn says_nothing(t: Ty) -> bool {
    match t {
        Ty::Unknown => true,
        Ty::Con(c, _) => c == symbol::REF_TYPE,
        _ => false,
    }
}

pub fn is_unknown(t: &Ty) -> (r: bool)
    ensures
        r == says_nothing(*t),
{
    match t {
        Ty::Unknown => true,
        Ty::Con(c, _) => *c == symbol::REF_TYPE,
        _ => false,
    }
}

/// The descriptor of every value of type `t`; none, for a type variable, whose
/// values are described at run time.
pub open spec fn desc_of(t: Ty) -> Option<Desc> {
    match t {
        Ty::Var(_) => None,
        Ty::Con(c, _) => if c == symbol::INT {
            Some(desc::INT)
        } else if c == symbol::FLOAT {
            Some(desc::FLOAT)
        } else if c == symbol::STRING || c == symbol::SYMBOL {
            Some(desc::STR)
        } else if c == symbol::CHAR {
            Some(desc::CHAR)
        } else if c == symbol::BOOL {
            Some(desc::BOOL)
        } else if c == symbol::UNIT {
            Some(desc::UNIT)
        } else if c == symbol::FLOAT32 {
            Some(desc::FLOAT32)
        } else if c == symbol::INT8 {
            Some(desc::INT8)
        } else if c == symbol::INT16 {
            Some(desc::INT16)
        } else if c == symbol::INT32 {
            Some(desc::INT32)
        } else if c == symbol::UINT8 {
            Some(desc::UINT8)
        } else if c == symbol::UINT16 {
            Some(desc::UINT16)
        } else if c == symbol::UINT32 {
            Some(desc::UINT32)
        } else if c == symbol::UINT64 {
            Some(desc::UINT64)
        } else {
            Some(desc::REF)
        },
        Ty::Fun(_, _, _) | Ty::Tuple(_) | Ty::Record(_) => Some(desc::REF),
        Ty::Bound(_) | Ty::RowEmpty | Ty::RowExtend(_, _, _) | Ty::Unknown => Some(desc::ANY),
    }
}

pub fn of(t: &Ty) -> (r: Option<Desc>)
    ensures
        r == desc_of(*t),
{
    match t {
        Ty::Var(_) => None,
        Ty::Con(c, _) => {
            let c: Sym = *c;
            if c == symbol::INT {
                Some(desc::INT)
            } else if c == symbol::FLOAT {
                Some(desc::FLOAT)
            } else if c == symbol::STRING || c == symbol::SYMBOL {
                Some(desc::STR)
            } else if c == symbol::CHAR {
                Some(desc::CHAR)
            } else if c == symbol::BOOL {
                Some(desc::BOOL)
            } else if c == symbol::UNIT {
                Some(desc::UNIT)
            } else if c == symbol::FLOAT32 {
                Some(desc::FLOAT32)
            } else if c == symbol::INT8 {
                Some(desc::INT8)
            } else if c == symbol::INT16 {
                Some(desc::INT16)
            } else if c == symbol::INT32 {
                Some(desc::INT32)
            } else if c == symbol::UINT8 {
                Some(desc::UINT8)
            } else if c == symbol::UINT16 {
                Some(desc::UINT16)
            } else if c == symbol::UINT32 {
                Some(desc::UINT32)
            } else if c == symbol::UINT64 {
                Some(desc::UINT64)
            } else {
                Some(desc::REF)
            }
        },
        Ty::Fun(_, _, _) | Ty::Tuple(_) | Ty::Record(_) => Some(desc::REF),
        Ty::Bound(_) | Ty::RowEmpty | Ty::RowExtend(_, _, _) | Ty::Unknown => Some(desc::ANY),
    }
}

/// The name of a sized integer's type.
pub open spec fn width_name(w: Width) -> Sym {
    match w {
        Width::I8 => symbol::INT8,
        Width::I16 => symbol::INT16,
        Width::I32 => symbol::INT32,
        Width::U8 => symbol::UINT8,
        Width::U16 => symbol::UINT16,
        Width::U32 => symbol::UINT32,
        Width::U64 => symbol::UINT64,
    }
}

/// The type of a literal.
pub open spec fn type_of_lit(l: Lit) -> Ty {
    match l {
        Lit::Int(_) => named(symbol::INT),
        Lit::BigInt(_) => named(symbol::BIGINT),
        Lit::Float(_) => named(symbol::FLOAT),
        Lit::Word(w, _) => named(width_name(w)),
        Lit::Float32(_) => named(symbol::FLOAT32),
        Lit::AnyInt(_, v) => Ty::Var(v),
        Lit::AnyFloat(_, v) => Ty::Var(v),
        Lit::Str(_) => named(symbol::STRING),
        Lit::Sym(_) => named(symbol::SYMBOL),
        Lit::Char(_) => named(symbol::CHAR),
        Lit::Bool(_) => named(symbol::BOOL),
        Lit::Unit => named(symbol::UNIT),
    }
}

pub fn lit_type(l: &Lit) -> (r: Ty)
    ensures
        r == type_of_lit(*l),
{
    match l {
        Lit::Int(_) => con(symbol::INT),
        Lit::BigInt(_) => con(symbol::BIGINT),
        Lit::Float(_) => con(symbol::FLOAT),
        Lit::Word(w, _) => con(
            match w {
                Width::I8 => symbol::INT8,
                Width::I16 => symbol::INT16,
                Width::I32 => symbol::INT32,
                Width::U8 => symbol::UINT8,
                Width::U16 => symbol::UINT16,
                Width::U32 => symbol::UINT32,
                Width::U64 => symbol::UINT64,
            },
        ),
        Lit::Float32(_) => con(symbol::FLOAT32),
        Lit::AnyInt(_, v) => Ty::Var(*v),
        Lit::AnyFloat(_, v) => Ty::Var(*v),
        Lit::Str(_) => con(symbol::STRING),
        Lit::Sym(_) => con(symbol::SYMBOL),
        Lit::Char(_) => con(symbol::CHAR),
        Lit::Bool(_) => con(symbol::BOOL),
        Lit::Unit => con(symbol::UNIT),
    }
}

/// How many type arguments a type written over `Bound` places needs: one more than
/// the largest place it mentions.
pub open spec fn arity(t: Ty) -> nat
    decreases t,
{
    match t {
        Ty::Bound(i) => i as nat + 1,
        Ty::Con(_, args) => arities(*args),
        Ty::Tuple(args) => arities(*args),
        Ty::Fun(ps, ret, eff) => larger(arities(*ps), larger(arity(*ret), arity(*eff))),
        Ty::Record(row) => arity(*row),
        Ty::RowExtend(_, field, rest) => larger(arity(*field), arity(*rest)),
        _ => 0,
    }
}

pub open spec fn arities(ts: Tys) -> nat
    decreases ts,
{
    match ts {
        Tys::Nil => 0,
        Tys::Cons(t, rest) => larger(arity(*t), arities(*rest)),
    }
}

pub open spec fn larger(a: nat, b: nat) -> nat {
    if a < b {
        b
    } else {
        a
    }
}

fn max(a: u64, b: u64) -> (r: u64)
    ensures
        r == larger(a as nat, b as nat),
{
    if a < b {
        b
    } else {
        a
    }
}

pub fn bound_arity(t: &Ty) -> (r: u64)
    ensures
        r == arity(*t),
        r <= 0x1_0000_0000,
    decreases t,
{
    match t {
        Ty::Bound(i) => *i as u64 + 1,
        Ty::Con(_, args) => bound_arities(args),
        Ty::Tuple(args) => bound_arities(args),
        Ty::Fun(ps, ret, eff) => max(bound_arities(ps), max(bound_arity(ret), bound_arity(eff))),
        Ty::Record(row) => bound_arity(row),
        Ty::RowExtend(_, field, rest) => max(bound_arity(field), bound_arity(rest)),
        _ => 0,
    }
}

fn bound_arities(ts: &Tys) -> (r: u64)
    ensures
        r == arities(*ts),
        r <= 0x1_0000_0000,
    decreases ts,
{
    match ts {
        Tys::Nil => 0,
        Tys::Cons(t, rest) => max(bound_arity(t), bound_arities(rest)),
    }
}

/// What `Bound(i)` is, given the arguments: itself, where there is none.
pub open spec fn argument(args: Tys, i: u32) -> Ty {
    match args.at(i as nat) {
        Some(t) => t,
        None => Ty::Bound(i),
    }
}

/// A type written over `Bound` places, at some arguments.
pub open spec fn at_args(t: Ty, args: Tys) -> Ty
    decreases t,
{
    match t {
        Ty::Bound(i) => argument(args, i),
        Ty::Con(c, ts) => Ty::Con(c, Rc::new(all_at_args(*ts, args))),
        Ty::Tuple(ts) => Ty::Tuple(Rc::new(all_at_args(*ts, args))),
        Ty::Fun(ps, ret, eff) => Ty::Fun(
            Rc::new(all_at_args(*ps, args)),
            Rc::new(at_args(*ret, args)),
            Rc::new(at_args(*eff, args)),
        ),
        Ty::Record(row) => Ty::Record(Rc::new(at_args(*row, args))),
        Ty::RowExtend(l, field, rest) => Ty::RowExtend(
            l,
            Rc::new(at_args(*field, args)),
            Rc::new(at_args(*rest, args)),
        ),
        t => t,
    }
}

pub open spec fn all_at_args(ts: Tys, args: Tys) -> Tys
    decreases ts,
{
    match ts {
        Tys::Nil => Tys::Nil,
        Tys::Cons(t, rest) => Tys::Cons(Rc::new(at_args(*t, args)), Rc::new(all_at_args(*rest, args))),
    }
}

pub fn subst_bound(t: &Ty, args: &Tys) -> (r: Ty)
    ensures
        r == at_args(*t, *args),
    decreases t,
{
    match t {
        Ty::Bound(i) => match args.get(*i as usize) {
            Some(t) => t,
            None => Ty::Bound(*i),
        },
        Ty::Con(c, ts) => Ty::Con(*c, Rc::new(subst_all(ts, args))),
        Ty::Tuple(ts) => Ty::Tuple(Rc::new(subst_all(ts, args))),
        Ty::Fun(ps, ret, eff) => Ty::Fun(
            Rc::new(subst_all(ps, args)),
            Rc::new(subst_bound(ret, args)),
            Rc::new(subst_bound(eff, args)),
        ),
        Ty::Record(row) => Ty::Record(Rc::new(subst_bound(row, args))),
        Ty::RowExtend(l, field, rest) => Ty::RowExtend(
            *l,
            Rc::new(subst_bound(field, args)),
            Rc::new(subst_bound(rest, args)),
        ),
        Ty::Var(v) => Ty::Var(*v),
        Ty::RowEmpty => Ty::RowEmpty,
        Ty::Unknown => Ty::Unknown,
    }
}

fn subst_all(ts: &Tys, args: &Tys) -> (r: Tys)
    ensures
        r == all_at_args(*ts, *args),
    decreases ts,
{
    match ts {
        Tys::Nil => Tys::Nil,
        Tys::Cons(t, rest) => Tys::Cons(Rc::new(subst_bound(t, args)), Rc::new(subst_all(rest, args))),
    }
}

/// What variable `v` is, where `binders` from `i` on are given `args`: itself,
/// where no binder is it or its argument is missing.
pub open spec fn given(binders: Seq<TyVar>, args: Seq<Ty>, v: u32, i: nat) -> Ty
    decreases binders.len() - i,
{
    if i >= binders.len() {
        Ty::Var(v)
    } else if binders[i as int].id == v && i < args.len() {
        args[i as int]
    } else {
        given(binders, args, v, i + 1)
    }
}

/// A type with its binders' variables replaced by arguments.
pub open spec fn with_args(t: Ty, binders: Seq<TyVar>, args: Seq<Ty>) -> Ty
    decreases t,
{
    match t {
        Ty::Var(v) => given(binders, args, v, 0),
        Ty::Con(c, ts) => Ty::Con(c, Rc::new(all_with_args(*ts, binders, args))),
        Ty::Tuple(ts) => Ty::Tuple(Rc::new(all_with_args(*ts, binders, args))),
        Ty::Fun(ps, ret, eff) => Ty::Fun(
            Rc::new(all_with_args(*ps, binders, args)),
            Rc::new(with_args(*ret, binders, args)),
            Rc::new(with_args(*eff, binders, args)),
        ),
        Ty::Record(row) => Ty::Record(Rc::new(with_args(*row, binders, args))),
        Ty::RowExtend(l, field, rest) => Ty::RowExtend(
            l,
            Rc::new(with_args(*field, binders, args)),
            Rc::new(with_args(*rest, binders, args)),
        ),
        t => t,
    }
}

pub open spec fn all_with_args(ts: Tys, binders: Seq<TyVar>, args: Seq<Ty>) -> Tys
    decreases ts,
{
    match ts {
        Tys::Nil => Tys::Nil,
        Tys::Cons(t, rest) => Tys::Cons(
            Rc::new(with_args(*t, binders, args)),
            Rc::new(all_with_args(*rest, binders, args)),
        ),
    }
}

fn lookup(binders: &Vec<TyVar>, args: &Vec<Ty>, v: u32) -> (r: Ty)
    ensures
        r == given(binders@, args@, v, 0),
{
    let mut i: usize = 0;
    while i < binders.len()
        invariant
            i <= binders@.len(),
            given(binders@, args@, v, 0) == given(binders@, args@, v, i as nat),
        decreases binders@.len() - i,
    {
        if binders[i].id == v && i < args.len() {
            return args[i].copy();
        }
        i = i + 1;
    }
    Ty::Var(v)
}

fn replace(t: &Ty, binders: &Vec<TyVar>, args: &Vec<Ty>) -> (r: Ty)
    ensures
        r == with_args(*t, binders@, args@),
    decreases t,
{
    match t {
        Ty::Var(v) => lookup(binders, args, *v),
        Ty::Con(c, ts) => Ty::Con(*c, Rc::new(replace_all(ts, binders, args))),
        Ty::Tuple(ts) => Ty::Tuple(Rc::new(replace_all(ts, binders, args))),
        Ty::Fun(ps, ret, eff) => Ty::Fun(
            Rc::new(replace_all(ps, binders, args)),
            Rc::new(replace(ret, binders, args)),
            Rc::new(replace(eff, binders, args)),
        ),
        Ty::Record(row) => Ty::Record(Rc::new(replace(row, binders, args))),
        Ty::RowExtend(l, field, rest) => Ty::RowExtend(
            *l,
            Rc::new(replace(field, binders, args)),
            Rc::new(replace(rest, binders, args)),
        ),
        Ty::Bound(i) => Ty::Bound(*i),
        Ty::RowEmpty => Ty::RowEmpty,
        Ty::Unknown => Ty::Unknown,
    }
}

fn replace_all(ts: &Tys, binders: &Vec<TyVar>, args: &Vec<Ty>) -> (r: Tys)
    ensures
        r == all_with_args(*ts, binders@, args@),
    decreases ts,
{
    match ts {
        Tys::Nil => Tys::Nil,
        Tys::Cons(t, rest) => Tys::Cons(Rc::new(replace(t, binders, args)), Rc::new(replace_all(rest, binders, args))),
    }
}

impl PolyV {
    /// The type at some arguments.
    pub open spec fn at(self, args: Seq<Ty>) -> Ty {
        with_args(self.ty, self.binders, args)
    }

    /// A type generic in nothing.
    pub open spec fn plain(ty: Ty) -> PolyV {
        PolyV { binders: Seq::empty(), ty }
    }
}

impl Poly {
    /// A type generic in nothing.
    pub fn mono(ty: Ty) -> (r: Poly)
        ensures
            r@ == PolyV::plain(ty),
    {
        Poly { binders: Vec::new(), ty }
    }

    pub fn copy(&self) -> (r: Poly)
        ensures
            r@ == self@,
    {
        let mut binders: Vec<TyVar> = Vec::new();
        let mut i: usize = 0;
        while i < self.binders.len()
            invariant
                i <= self.binders@.len(),
                binders@ == self.binders@.take(i as int),
            decreases self.binders@.len() - i,
        {
            binders.push(self.binders[i]);
            i = i + 1;
            proof {
                assert(self.binders@.take(i as int) =~= self.binders@.take(i - 1).push(self.binders@[i - 1]));
            }
        }
        proof {
            assert(self.binders@.take(i as int) =~= self.binders@);
        }
        Poly { binders, ty: self.ty.copy() }
    }

    /// The type at some arguments.
    pub fn instantiate(&self, args: &Vec<Ty>) -> (r: Ty)
        ensures
            r == self@.at(args@),
    {
        replace(&self.ty, &self.binders, args)
    }
}

} // verus!
