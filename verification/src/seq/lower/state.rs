//! What lowering knows and what it has written so far.

use crate::seq::ir::{Def, Label, Name, Rep, Tag, NO_DESC};
use crate::seq::table::Table;
use crate::seq::view::{defs_view, DefV};
use crate::terms::desc;
use crate::terms::symbol::{self, Sym, Symbols};
use crate::terms::term::{Var, Variant};
use crate::terms::ty::{desc_of, of, Poly, PolyV, Ty, Tys};
use std::collections::{HashMap, HashSet};
use vstd::prelude::*;

verus! {

broadcast use vstd::std_specs::hash::group_hash_axioms;

/// What the back end is allowed to do beyond the unconditional minimum.
#[derive(Debug, Clone, Copy, PartialEq, Eq, Structural)]
pub enum OptLevel {
    O0,
    O1,
    O2,
}

impl OptLevel {
    /// Whether a `match` may become a decision tree, which is a code-size trade.
    pub open spec fn trees(self) -> bool {
        self == OptLevel::O2
    }

    pub fn case_trees(self) -> (r: bool)
        ensures
            r == self.trees(),
    {
        match self {
            OptLevel::O2 => true,
            _ => false,
        }
    }
}

impl Default for OptLevel {
    fn default() -> (r: OptLevel)
        ensures
            r == OptLevel::O1,
    {
        OptLevel::O1
    }
}

/// Lowering's state.
pub struct Lower {
    pub symbols: Symbols,
    pub next_name: u32,
    pub next_label: u32,
    /// A definition or a `letrec` binding: where to jump, and the names its block
    /// takes before the continuation.
    pub globals: Table<(u32, Vec<Name>)>,
    /// A definition that is a lambda: a second block, taking its arguments
    /// directly, and how many.
    pub workers: Table<(u32, usize)>,
    /// A join point in scope: where to jump, and what its block takes before its
    /// own parameters.
    pub joins: Table<(u32, Vec<Name>)>,
    pub defs: Vec<Def>,
    pub tags: HashMap<Sym, Tag>,
    pub next_tag: Tag,
    pub opt: OptLevel,
    /// Whether a variable was found that is neither in scope nor a definition.
    pub unbound: bool,
    /// Functions' own return continuations.
    pub returns: HashSet<Name>,
    /// Every continuation something was lowered to answer, as often as that.
    pub continuations: Vec<Name>,
    /// Continuations that are entered once and leave nothing behind.
    pub frames: HashSet<Name>,
    /// The name holding the evidence where lowering has got to.
    pub ev: Name,
    /// `letrec` bindings, whose blocks take the evidence.
    pub letrecs: HashSet<Var>,
    /// The definitions whose direct entry point takes the evidence.
    pub worker_ev: HashSet<Var>,
    /// Every variable's type, from where it is bound.
    pub polys: Table<Poly>,
    /// The type of a name lowering invented to hold a value, where known.
    pub types: Table<Ty>,
    /// What the names lowering invented hold.
    pub reps: HashMap<Name, Rep>,
    /// The constructors of each type.
    pub variants: Vec<(Sym, Vec<Variant>)>,
    /// The descriptors of the type variables in scope, innermost last: which name
    /// holds each.
    pub tscope: Vec<(u32, Name)>,
    /// The names each type abstraction binds its descriptors to.
    pub tylams: Table<Vec<(u32, Name)>>,
    /// The bindings whose value is a type abstraction taking descriptors, and which
    /// of their type arguments take one.
    pub tyabs: Table<Vec<usize>>,
    /// Every name a type abstraction binds a descriptor to.
    pub descs: HashSet<Name>,
    /// What each variable the program binds holds, in the scope it is bound in.
    pub binder_reps: HashMap<Var, Rep>,
    /// Variables that are copies of another.
    pub origins: HashMap<Var, Var>,
    /// What a definition's block answers its continuation with, by label.
    pub results: HashMap<u32, Rep>,
    /// For a name holding a thread, what the thread answers with.
    pub threads: HashMap<Name, Rep>,
}

/// [`Lower`], as a value.
pub struct St {
    pub symbols: Seq<Seq<char>>,
    pub next_name: u32,
    pub next_label: u32,
    pub globals: Map<u32, (u32, Seq<Name>)>,
    pub workers: Map<u32, (u32, usize)>,
    pub joins: Map<u32, (u32, Seq<Name>)>,
    pub defs: Seq<DefV>,
    pub tags: Map<Sym, Tag>,
    pub next_tag: Tag,
    pub opt: OptLevel,
    pub unbound: bool,
    pub returns: Set<Name>,
    pub continuations: Seq<Name>,
    pub frames: Set<Name>,
    pub ev: Name,
    pub letrecs: Set<Var>,
    pub worker_ev: Set<Var>,
    pub polys: Map<u32, PolyV>,
    /// The variables `polys` holds, in the order they were written.
    pub bound: Seq<Var>,
    pub types: Map<u32, Ty>,
    pub reps: Map<Name, Rep>,
    pub variants: Seq<(Sym, Vec<Variant>)>,
    pub tscope: Seq<(u32, Name)>,
    pub tylams: Map<u32, Seq<(u32, Name)>>,
    pub tyabs: Map<u32, Seq<usize>>,
    pub descs: Set<Name>,
    pub binder_reps: Map<Var, Rep>,
    pub origins: Map<Var, Var>,
    pub results: Map<u32, Rep>,
    pub threads: Map<Name, Rep>,
}

impl View for Lower {
    type V = St;

    open spec fn view(&self) -> St {
        St {
            symbols: self.symbols@,
            next_name: self.next_name,
            next_label: self.next_label,
            globals: self.globals@,
            workers: self.workers@,
            joins: self.joins@,
            defs: defs_view(self.defs@),
            tags: self.tags@,
            next_tag: self.next_tag,
            opt: self.opt,
            unbound: self.unbound,
            returns: self.returns@,
            continuations: self.continuations@,
            frames: self.frames@,
            ev: self.ev,
            letrecs: self.letrecs@,
            worker_ev: self.worker_ev@,
            polys: self.polys@,
            bound: self.polys.keys@,
            types: self.types@,
            reps: self.reps@,
            variants: self.variants@,
            tscope: self.tscope@,
            tylams: self.tylams@,
            tyabs: self.tyabs@,
            descs: self.descs@,
            binder_reps: self.binder_reps@,
            origins: self.origins@,
            results: self.results@,
            threads: self.threads@,
        }
    }
}

/// The number after `n`; the last is followed by itself.
pub open spec fn bump(n: u32) -> u32 {
    if n == 0xffff_ffff {
        n
    } else {
        (n + 1) as u32
    }
}

fn next(n: u32) -> (r: u32)
    ensures
        r == bump(n),
{
    if n == 0xffff_ffff {
        n
    } else {
        n + 1
    }
}

/// The representation of a value of type `ty`.
pub open spec fn rep_of(ty: Ty) -> Rep {
    match ty {
        Ty::Var(v) => Rep::Var(v),
        ty => match desc_of(ty) {
            None => Rep::Unknown,
            Some(d) => if d == desc::REF {
                Rep::Ref
            } else if d == desc::INT {
                Rep::Int
            } else if d == desc::FLOAT {
                Rep::Float
            } else if d == desc::STR {
                Rep::Str
            } else if d == desc::ANY {
                Rep::Unknown
            } else {
                Rep::Bits(d)
            },
        },
    }
}

impl Rep {
    /// The representation of a value of type `ty`.
    pub fn of(ty: &Ty) -> (r: Rep)
        ensures
            r == rep_of(*ty),
    {
        match ty {
            Ty::Var(v) => Rep::Var(*v),
            ty => match of(ty) {
                None => Rep::Unknown,
                Some(d) => if d == desc::REF {
                    Rep::Ref
                } else if d == desc::INT {
                    Rep::Int
                } else if d == desc::FLOAT {
                    Rep::Float
                } else if d == desc::STR {
                    Rep::Str
                } else if d == desc::ANY {
                    Rep::Unknown
                } else {
                    Rep::Bits(d)
                },
            },
        }
    }
}

/// The innermost of the first `n` descriptors in scope that is `v`'s.
pub open spec fn desc_among(tscope: Seq<(u32, Name)>, v: u32, n: nat) -> Option<Name>
    decreases n,
{
    if n == 0 || n > tscope.len() {
        None
    } else if tscope[n - 1].0 == v {
        Some(tscope[n - 1].1)
    } else {
        desc_among(tscope, v, (n - 1) as nat)
    }
}

impl St {
    /// With the next name taken.
    pub open spec fn fresh(self) -> St {
        St { next_name: bump(self.next_name), ..self }
    }

    /// With the next name taken, to hold `rep`.
    pub open spec fn fresh_as(self, rep: Rep) -> St {
        St { next_name: bump(self.next_name), reps: self.reps.insert(self.next_name, rep), ..self }
    }

    /// With the next name taken, to hold a heap object.
    pub open spec fn fresh_ref(self) -> St {
        self.fresh_as(Rep::Ref)
    }

    pub open spec fn fresh_label(self) -> St {
        St { next_label: bump(self.next_label), ..self }
    }

    /// The name holding type variable `v`'s descriptor.
    pub open spec fn desc_name(self, v: u32) -> Option<Name> {
        desc_among(self.tscope, v, self.tscope.len())
    }

    /// A type variable's representation made the name of the descriptor in scope
    /// for it.
    pub open spec fn resolve(self, rep: Rep) -> Rep {
        match rep {
            Rep::Var(v) => match self.desc_name(v) {
                Some(n) => Rep::Var(n),
                None => Rep::Var(NO_DESC),
            },
            rep => rep,
        }
    }

    /// If `n` holds a thread, with what it answers remembered.
    #[verifier::opaque]
    pub open spec fn note_thread(self, n: Name, ty: Ty) -> St {
        match ty {
            Ty::Con(c, args) => if c == symbol::TASK {
                match *args {
                    Tys::Cons(a, rest) => if *rest is Nil {
                        St { threads: self.threads.insert(n, self.resolve(rep_of(*a))), ..self }
                    } else {
                        self
                    },
                    Tys::Nil => self,
                }
            } else {
                self
            },
            _ => self,
        }
    }

    /// With `n` said to hold a value of type `ty`, which may not be known.
    #[verifier::opaque]
    pub open spec fn set_type(self, n: Name, ty: Option<Ty>) -> St {
        match ty {
            Some(ty) => {
                let st = St { reps: self.reps.insert(n, self.resolve(rep_of(ty))), ..self }.note_thread(n, ty);
                St { types: st.types.insert(n, ty), ..st }
            },
            None => if self.reps.contains_key(n) {
                self
            } else {
                St { reps: self.reps.insert(n, Rep::Unknown), ..self }
            },
        }
    }

    /// With the next name taken, for a value of type `ty`.
    #[verifier::opaque]
    pub open spec fn fresh_typed(self, ty: Option<Ty>) -> St {
        self.fresh().set_type(self.next_name, ty)
    }

    /// The type of the value `n` holds, if it is known.
    pub open spec fn type_of_name(self, n: Name) -> Option<Ty> {
        if self.types.contains_key(n) {
            Some(self.types[n])
        } else if self.polys.contains_key(n) {
            Some(self.polys[n].ty)
        } else {
            None
        }
    }

    /// With the next name taken, for a function's own return continuation.
    pub open spec fn function_return(self) -> St {
        let st = self.fresh_ref();
        St { returns: st.returns.insert(self.next_name), ..st }
    }

    /// With `v`'s type recorded, and its representation in the scope it is bound
    /// in.
    pub open spec fn bind_poly(self, v: Var, poly: PolyV) -> St {
        let st = St {
            binder_reps: self.binder_reps.insert(v, self.resolve(rep_of(poly.ty))),
            ..self
        }.note_thread(v, poly.ty);
        St { polys: st.polys.insert(v, poly), bound: st.bound.push(v), ..st }
    }

    /// The tag constructor `c` has, or will.
    pub open spec fn tag(self, c: Sym) -> Tag {
        if self.tags.contains_key(c) {
            self.tags[c]
        } else {
            self.next_tag
        }
    }

    /// With a tag given to constructor `c`.
    pub open spec fn tagged(self, c: Sym) -> St {
        if self.tags.contains_key(c) {
            self
        } else {
            St { tags: self.tags.insert(c, self.next_tag), next_tag: bump(self.next_tag), ..self }
        }
    }

    /// With a definition written.
    pub open spec fn wrote(self, label: u32, name: Sym, block: crate::seq::view::BlockV) -> St {
        St { defs: self.defs.push(DefV { label: Label(label), name, block }), ..self }
    }

    pub open spec fn with_ev(self, ev: Name) -> St {
        St { ev, ..self }
    }

    /// With `k` counted among the continuations.
    pub open spec fn answering(self, k: Name) -> St {
        St { continuations: self.continuations.push(k), ..self }
    }

    /// With `k` a frame.
    pub open spec fn framed(self, k: Name) -> St {
        St { frames: self.frames.insert(k), ..self }
    }

    /// With a variable found that is bound nowhere.
    pub open spec fn lost(self) -> St {
        St { unbound: true, ..self }
    }
}

impl Lower {
    pub fn fresh(&mut self) -> (r: Name)
        ensures
            r == old(self)@.next_name,
            final(self)@ == old(self)@.fresh(),
    {
        let v: Name = self.next_name;
        self.next_name = next(v);
        v
    }

    /// A fresh name holding `rep`.
    pub fn fresh_as(&mut self, rep: Rep) -> (r: Name)
        ensures
            r == old(self)@.next_name,
            final(self)@ == old(self)@.fresh_as(rep),
    {
        let v: Name = self.fresh();
        self.reps.insert(v, rep);
        v
    }

    /// A fresh name holding a heap object: a closure, a continuation, data.
    pub fn fresh_ref(&mut self) -> (r: Name)
        ensures
            r == old(self)@.next_name,
            final(self)@ == old(self)@.fresh_ref(),
    {
        self.fresh_as(Rep::Ref)
    }

    pub fn fresh_label(&mut self) -> (r: u32)
        ensures
            r == old(self)@.next_label,
            final(self)@ == old(self)@.fresh_label(),
    {
        let l: u32 = self.next_label;
        self.next_label = next(l);
        l
    }

    /// The name holding type variable `v`'s descriptor, where lowering is.
    pub fn desc_name(&self, v: u32) -> (r: Option<Name>)
        ensures
            r == self@.desc_name(v),
    {
        let mut i: usize = self.tscope.len();
        while i > 0
            invariant
                i <= self.tscope@.len(),
                self@.desc_name(v) == desc_among(self.tscope@, v, i as nat),
            decreases i,
        {
            if self.tscope[i - 1].0 == v {
                return Some(self.tscope[i - 1].1);
            }
            i = i - 1;
        }
        None
    }

    /// `rep` with a type variable's representation made the name of the descriptor
    /// in scope for it.
    pub fn resolve(&self, rep: Rep) -> (r: Rep)
        ensures
            r == self@.resolve(rep),
    {
        match rep {
            Rep::Var(v) => match self.desc_name(v) {
                Some(n) => Rep::Var(n),
                None => Rep::Var(NO_DESC),
            },
            rep => rep,
        }
    }

    /// If `n` holds a thread, remember how what it answers is represented.
    pub fn note_thread(&mut self, n: Name, ty: &Ty)
        ensures
            final(self)@ == old(self)@.note_thread(n, *ty),
    {
        proof {
            reveal(St::note_thread);
        }
        if let Ty::Con(c, args) = ty {
            if *c == symbol::TASK {
                if let Tys::Cons(a, rest) = &**args {
                    if let Tys::Nil = &**rest {
                        let rep: Rep = self.resolve(Rep::of(a));
                        self.threads.insert(n, rep);
                    }
                }
            }
        }
    }

    /// Say `n` holds a value of type `ty`, which may not be known.
    pub fn set_type(&mut self, n: Name, ty: Option<Ty>)
        ensures
            final(self)@ == old(self)@.set_type(n, ty),
    {
        proof {
            reveal(St::set_type);
        }
        match ty {
            Some(ty) => {
                let rep: Rep = self.resolve(Rep::of(&ty));
                self.reps.insert(n, rep);
                self.note_thread(n, &ty);
                self.types.insert(n, ty);
            },
            None => {
                if !self.reps.contains_key(&n) {
                    self.reps.insert(n, Rep::Unknown);
                }
            },
        }
    }

    /// A fresh name for a value of type `ty`, which may not be known.
    pub fn fresh_typed(&mut self, ty: Option<Ty>) -> (r: Name)
        ensures
            r == old(self)@.next_name,
            final(self)@ == old(self)@.fresh_typed(ty),
    {
        proof {
            reveal(St::fresh_typed);
        }
        let v: Name = self.fresh();
        self.set_type(v, ty);
        v
    }

    /// The type of the value `n` holds, if it is known.
    pub fn type_of_name(&self, n: Name) -> (r: Option<Ty>)
        ensures
            r == self@.type_of_name(n),
    {
        match self.types.get(n) {
            Some(ty) => Some(ty.copy()),
            None => match self.polys.get(n) {
                Some(p) => Some(p.ty.copy()),
                None => None,
            },
        }
    }

    /// A fresh name for a function's own return continuation.
    pub fn function_return(&mut self) -> (r: Name)
        ensures
            r == old(self)@.next_name,
            final(self)@ == old(self)@.function_return(),
    {
        let k: Name = self.fresh_ref();
        self.returns.insert(k);
        k
    }

    /// Record `v`'s type, and its representation in the scope it is bound in.
    pub fn bind_poly(&mut self, v: Var, poly: Poly)
        ensures
            final(self)@ == old(self)@.bind_poly(v, poly@),
    {
        let rep: Rep = self.resolve(Rep::of(&poly.ty));
        self.binder_reps.insert(v, rep);
        self.note_thread(v, &poly.ty);
        self.polys.insert(v, poly);
    }

    pub fn tag_of(&mut self, c: Sym) -> (r: Tag)
        ensures
            r == old(self)@.tag(c),
            final(self)@ == old(self)@.tagged(c),
    {
        let found: Option<Tag> = match self.tags.get(&c) {
            Some(t) => Some(*t),
            None => None,
        };
        match found {
            Some(t) => t,
            None => {
                let t: Tag = self.next_tag;
                self.next_tag = next(t);
                self.tags.insert(c, t);
                t
            },
        }
    }

    /// Write a definition.
    pub fn write(&mut self, label: u32, name: Sym, block: crate::seq::ir::Block)
        ensures
            final(self)@ == old(self)@.wrote(label, name, block@),
    {
        let ghost was = self.defs@;
        self.defs.push(Def { label: Label(label), name, block });
        proof {
            assert(defs_view(self.defs@) =~= defs_view(was).push(
                DefV { label: Label(label), name, block: block@ },
            ));
        }
    }
}

} // verus!
