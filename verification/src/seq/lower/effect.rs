//! Effect operations, by evidence passing: objects, data and jumps.
//!
//! The evidence is a list of `#ev(key, clause, target, rest)` entries, newest
//! first. An operation searches it, in a block of its own; with an entry found it
//! enters the clause, with a one-shot resumption, and with none it goes to the
//! runtime.

use super::frame::{no_frames, plug, plugged, produced, Pre};
use super::pattern::only;
use super::state::{Lower, St};
use crate::seq::ir::{Block, Extern, Label, Name, Rep, Statement, Tag};
use crate::seq::view::{
    arms_view, before, both, copy_names, invoke_s, invoke_v, jump_s, jump_v, new_s, new_v, one_s, one_v, ret_s,
    ret_v, sub_s, sub_v, switch_s, switch_v, two_s, two_v, BlockV, ExternV, StmtV,
};
use crate::terms::desc;
use crate::terms::prim::{Lit, Prim};
use crate::terms::symbol::{self, place, text_at, with_symbol, Sym};
use crate::terms::ty::Ty;
use vstd::prelude::*;

verus! {

broadcast use vstd::std_specs::hash::group_hash_axioms;

impl St {
    /// The symbol a text is, or will be.
    pub open spec fn symbol(self, t: Seq<char>) -> Sym {
        place(self.symbols, t, 0) as u32
    }

    /// With a text among the symbols.
    pub open spec fn interned(self, t: Seq<char>) -> St {
        St { symbols: with_symbol(self.symbols, t), ..self }
    }

    /// The evidence key of an operation.
    pub open spec fn key(self, effect: Sym, op: Sym) -> Seq<char> {
        text_at(self.symbols, effect) + "."@ + text_at(self.symbols, op)
    }
}

/// The method of a resumption that captures the flag it is taken with, where to
/// continue, the handler's target and the frames cut off: run once, send the
/// handler's value to the caller from now on, and continue.
pub open spec fn resumption(st: St, k: Name, target: Name, taken: Name, seg: Name, ty: Option<Ty>) -> (St, BlockV) {
    let v = st.next_name;
    let st1 = st.fresh_typed(ty);
    let c = st1.next_name;
    let st2 = st1.fresh_ref();
    let ev = st2.next_name;
    let st3 = st2.fresh_ref();
    let st4 = St { returns: st3.returns.insert(c), ..st3 };
    let params = seq![taken, k, target, seg, v, c, ev];
    let first = st4.next_name;
    let st5 = st4.fresh_as(Rep::Bits(desc::BOOL));
    let at_first = seq![first] + params;
    let u = st5.next_name;
    let st6 = st5.fresh_as(Rep::Bits(desc::UNIT));
    let at_u = seq![u] + at_first;
    let back = st6.next_name;
    let st7 = st6.fresh_as(Rep::Bits(desc::UNIT));
    let at_back = seq![back] + at_u;
    let again = StmtV::Error("continuation resumed more than once"@);
    let go = one_v(
        ExternV::Prim(Prim::SetRef),
        seq![target, c],
        at_u,
        one_v(ExternV::Prim(Prim::Reattach), seq![seg], at_back, ret_v(k, v)),
    );
    (
        st7,
        BlockV {
            params,
            body: one_v(
                ExternV::Prim(Prim::TakeOnce),
                seq![taken],
                at_first,
                two_v(ExternV::Branch, seq![first], at_first, again, go),
            ),
        },
    )
}

/// An operation found to be `clause`'s, in `env`. A tail-resumptive clause is a call
/// answering `k` directly; any other gets a one-shot resumption.
pub open spec fn dispatch(
    st: St,
    tail: bool,
    clause: Name,
    target: Name,
    av: Name,
    k: Name,
    env: Seq<Name>,
    res_ty: Option<Ty>,
) -> (St, StmtV) {
    if tail {
        (st, invoke_v(seq![clause, av, k], clause))
    } else {
        let flag = st.next_name;
        let st1 = st.fresh_as(Rep::Bits(desc::UNIT));
        let taken = st1.next_name;
        let st2 = st1.fresh_ref();
        let seg = st2.next_name;
        let st3 = st2.fresh_ref();
        let r = st3.next_name;
        let st4 = st3.fresh_ref();
        let kh = st4.next_name;
        let st5 = st4.fresh_ref();
        let env1 = seq![flag] + env;
        let env2 = seq![taken] + env1;
        let env3 = seq![seg] + env2;
        let env4 = seq![r] + env3;
        let env5 = seq![kh] + env4;
        let enter = invoke_v(seq![clause, av, r, kh], clause);
        let (st6, resume) = resumption(st5, k, target, taken, seg, res_ty);
        (
            st6,
            one_v(
                ExternV::Lit(Lit::Unit),
                Seq::empty(),
                env1,
                one_v(
                    ExternV::Prim(Prim::Once),
                    seq![flag],
                    env2,
                    one_v(
                        ExternV::Prim(Prim::Detach),
                        seq![target],
                        env3,
                        new_v(
                            r,
                            seq![taken, k, target, seg],
                            resume,
                            one_v(ExternV::Prim(Prim::GetRef), seq![target], env5, enter),
                        ),
                    ),
                ),
            ),
        )
    }
}

/// No handler in the program answers: the runtime does.
pub open spec fn native(
    st: St,
    effect: Sym,
    op: Sym,
    av: Name,
    k: Name,
    env: Seq<Name>,
    res_ty: Option<Ty>,
) -> (St, StmtV) {
    let p = produced(st, Seq::empty(), ExternV::Native(effect, op), seq![av], env, res_ty, None);
    (p.st, plugged(p.frames, ret_v(k, p.x)))
}

/// One arm of the search: an entry of this kind, ours or not.
pub open spec fn search_arm(
    st: St,
    label: u32,
    ctor: Sym,
    tail: bool,
    key: Sym,
    params: Seq<Name>,
    res_ty: Option<Ty>,
) -> (St, (Tag, BlockV)) {
    let ekey = st.next_name;
    let st1 = st.fresh_as(Rep::Str);
    let clause = st1.next_name;
    let st2 = st1.fresh_ref();
    let target = st2.next_name;
    let st3 = st2.fresh_ref();
    let rest = st3.next_name;
    let st4 = st3.fresh_ref();
    let fields = seq![ekey, clause, target, rest] + params;
    let (st5, hit) = dispatch(st4, tail, clause, target, params[1], params[2], fields, res_ty);
    let next = sub_v(seq![rest, params[1], params[2]], params, StmtV::Jump(Label(label)));
    (
        st5.tagged(ctor),
        (
            st5.tag(ctor),
            BlockV {
                params: fields,
                body: two_v(ExternV::BranchPrimK(Prim::Eq, Lit::Sym(key)), seq![ekey], fields, next, hit),
            },
        ),
    )
}

/// The name of an operation's search block.
pub open spec fn search_name(st: St, effect: Sym, op: Sym) -> Seq<char> {
    "<perform "@ + st.key(effect, op) + ">"@
}

/// An operation performed with `av`, answering `k`, with evidence `ev`.
#[verifier::opaque]
pub open spec fn perform(
    st: St,
    effect: Sym,
    op: Sym,
    av: Name,
    k: Name,
    ev: Name,
    arg_ty: Option<Ty>,
    res_ty: Option<Ty>,
) -> (St, StmtV) {
    let label = st.next_label;
    let st1 = st.fresh_label();
    let e = st1.next_name;
    let st2 = st1.fresh_ref();
    let a = st2.next_name;
    let st3 = st2.fresh_typed(arg_ty);
    let kk = st3.next_name;
    let st4 = st3.fresh_ref();
    let params = seq![e, a, kk];
    let key = st4.symbol(st4.key(effect, op));
    let st5 = st4.interned(st4.key(effect, op));
    let (st6, arm0) = search_arm(st5, label, symbol::EV, false, key, params, res_ty);
    let (st7, arm1) = search_arm(st6, label, symbol::EV_TAIL, true, key, params, res_ty);
    let (st8, none) = native(st7, effect, op, a, kk, params, res_ty);
    let name = st8.symbol(search_name(st8, effect, op));
    let st9 = st8.interned(search_name(st8, effect, op));
    (
        st9.wrote(label, name, BlockV { params, body: switch_v(e, seq![arm0, arm1], params, none) }),
        jump_v(seq![ev, av, k], Label(label)),
    )
}

impl Lower {
    pub fn intern(&mut self, t: &str) -> (r: Sym)
        ensures
            r == old(self)@.symbol(t@),
            final(self)@ == old(self)@.interned(t@),
    {
        self.symbols.intern(t)
    }

    /// The evidence key of an operation.
    fn key_text(&self, effect: Sym, op: Sym) -> (r: String)
        ensures
            r@ == self@.key(effect, op),
    {
        let mut r: String = self.symbols.text(effect);
        r.append(".");
        r.append(self.symbols.text(op).as_str());
        r
    }

    /// The evidence key of an operation, as a symbol.
    pub fn key(&mut self, effect: Sym, op: Sym) -> (r: Sym)
        ensures
            r == old(self)@.symbol(old(self)@.key(effect, op)),
            final(self)@ == old(self)@.interned(old(self)@.key(effect, op)),
    {
        let t: String = self.key_text(effect, op);
        self.intern(t.as_str())
    }

    /// The method of a resumption, called with a value, a continuation and evidence
    /// it has no use for.
    fn resumption(&mut self, k: Name, target: Name, taken: Name, seg: Name, ty: Option<Ty>) -> (r: Block)
        ensures
            final(self)@ == resumption(old(self)@, k, target, taken, seg, ty).0,
            r@ == resumption(old(self)@, k, target, taken, seg, ty).1,
    {
        let v: Name = self.fresh_typed(ty);
        let c: Name = self.fresh_ref();
        let ev: Name = self.fresh_ref();
        self.returns.insert(c);
        let params: Vec<Name> = vec![taken, k, target, seg, v, c, ev];
        proof {
            assert(params@ =~= seq![taken, k, target, seg, v, c, ev]);
        }
        let first: Name = self.fresh_as(Rep::Bits(desc::BOOL));
        let at_first: Vec<Name> = before(first, &params);
        let u: Name = self.fresh_as(Rep::Bits(desc::UNIT));
        let at_u: Vec<Name> = before(u, &at_first);
        let back: Name = self.fresh_as(Rep::Bits(desc::UNIT));
        let at_back: Vec<Name> = before(back, &at_u);
        let targets: Vec<Name> = vec![target, c];
        proof {
            assert(targets@ =~= seq![target, c]);
        }
        let inner: Statement = one_s(Extern::Prim(Prim::Reattach), only(seg), at_back, ret_s(k, v));
        let go: Statement = one_s(Extern::Prim(Prim::SetRef), targets, at_u, inner);
        let again: Statement = Statement::Error("continuation resumed more than once");
        let test: Statement = two_s(Extern::Branch, only(first), &at_first, again, go);
        let body: Statement = one_s(Extern::Prim(Prim::TakeOnce), only(taken), at_first, test);
        Block { params, body }
    }

    /// The operation is `clause`'s, in `env`.
    fn dispatch(
        &mut self,
        tail: bool,
        clause: Name,
        target: Name,
        av: Name,
        k: Name,
        env: &Vec<Name>,
        res_ty: Option<Ty>,
    ) -> (r: Statement)
        ensures
            final(self)@ == dispatch(old(self)@, tail, clause, target, av, k, env@, res_ty).0,
            r@ == dispatch(old(self)@, tail, clause, target, av, k, env@, res_ty).1,
    {
        if tail {
            let sel: Vec<Name> = vec![clause, av, k];
            proof {
                assert(sel@ =~= seq![clause, av, k]);
            }
            return invoke_s(sel, clause);
        }
        let flag: Name = self.fresh_as(Rep::Bits(desc::UNIT));
        let taken: Name = self.fresh_ref();
        let seg: Name = self.fresh_ref();
        let r: Name = self.fresh_ref();
        let kh: Name = self.fresh_ref();
        let env1: Vec<Name> = before(flag, env);
        let env2: Vec<Name> = before(taken, &env1);
        let env3: Vec<Name> = before(seg, &env2);
        let env4: Vec<Name> = before(r, &env3);
        let env5: Vec<Name> = before(kh, &env4);
        let sel: Vec<Name> = vec![clause, av, r, kh];
        let captures: Vec<Name> = vec![taken, k, target, seg];
        proof {
            assert(sel@ =~= seq![clause, av, r, kh]);
            assert(captures@ =~= seq![taken, k, target, seg]);
        }
        let enter: Statement = invoke_s(sel, clause);
        let resume: Block = self.resumption(k, target, taken, seg, res_ty);
        let s1: Statement = one_s(Extern::Prim(Prim::GetRef), only(target), env5, enter);
        let s2: Statement = new_s(r, captures, resume, s1);
        let s3: Statement = one_s(Extern::Prim(Prim::Detach), only(target), env3, s2);
        let s4: Statement = one_s(Extern::Prim(Prim::Once), only(flag), env2, s3);
        one_s(Extern::Lit(Lit::Unit), Vec::new(), env1, s4)
    }

    /// No handler in the program answers: the runtime does.
    fn native(
        &mut self,
        effect: Sym,
        op: Sym,
        av: Name,
        k: Name,
        env: &Vec<Name>,
        res_ty: Option<Ty>,
    ) -> (r: Statement)
        ensures
            final(self)@ == native(old(self)@, effect, op, av, k, env@, res_ty).0,
            r@ == native(old(self)@, effect, op, av, k, env@, res_ty).1,
    {
        let p: Pre = self.produces(no_frames(), Extern::Native(effect, op), only(av), env, res_ty, None);
        plug(p.frames, ret_s(k, p.x))
    }

    fn search_arm(
        &mut self,
        label: u32,
        ctor: Sym,
        tail: bool,
        key: Sym,
        params: &Vec<Name>,
        res_ty: Option<Ty>,
    ) -> (r: (Tag, Block))
        requires
            params@.len() == 3,
        ensures
            final(self)@ == search_arm(old(self)@, label, ctor, tail, key, params@, res_ty).0,
            (r.0, r.1@) == search_arm(old(self)@, label, ctor, tail, key, params@, res_ty).1,
    {
        let ekey: Name = self.fresh_as(Rep::Str);
        let clause: Name = self.fresh_ref();
        let target: Name = self.fresh_ref();
        let rest: Name = self.fresh_ref();
        let own: Vec<Name> = vec![ekey, clause, target, rest];
        proof {
            assert(own@ =~= seq![ekey, clause, target, rest]);
        }
        let fields: Vec<Name> = both(&own, params);
        let hit: Statement = self.dispatch(tail, clause, target, params[1], params[2], &fields, res_ty);
        let sel: Vec<Name> = vec![rest, params[1], params[2]];
        proof {
            assert(sel@ =~= seq![rest, params@[1], params@[2]]);
        }
        let next: Statement = sub_s(sel, copy_names(params), Statement::Jump(Label(label)));
        let tag: Tag = self.tag_of(ctor);
        let body: Statement = two_s(
            Extern::BranchPrimK(Prim::Eq, Lit::Sym(key)),
            only(ekey),
            &fields,
            next,
            hit,
        );
        (tag, Block { params: fields, body })
    }

    /// An operation performed with `av`, answering `k`, with evidence `ev`. Each
    /// gets a block of its own that walks the evidence.
    pub fn perform(
        &mut self,
        effect: Sym,
        op: Sym,
        av: Name,
        k: Name,
        ev: Name,
        arg_ty: Option<Ty>,
        res_ty: Option<Ty>,
    ) -> (r: Statement)
        ensures
            final(self)@ == perform(old(self)@, effect, op, av, k, ev, arg_ty, res_ty).0,
            r@ == perform(old(self)@, effect, op, av, k, ev, arg_ty, res_ty).1,
    {
        proof {
            reveal(perform);
        }
        let label: u32 = self.fresh_label();
        let e: Name = self.fresh_ref();
        let a: Name = self.fresh_typed(arg_ty);
        let kk: Name = self.fresh_ref();
        let params: Vec<Name> = vec![e, a, kk];
        proof {
            assert(params@ =~= seq![e, a, kk]);
        }
        let key: Sym = self.key(effect, op);
        let ty0: Option<Ty> = copy_ty(&res_ty);
        let ty1: Option<Ty> = copy_ty(&res_ty);
        let arm0: (Tag, Block) = self.search_arm(label, symbol::EV, false, key, &params, ty0);
        let arm1: (Tag, Block) = self.search_arm(label, symbol::EV_TAIL, true, key, &params, ty1);
        let none: Statement = self.native(effect, op, a, kk, &params, res_ty);
        let mut t: String = String::new();
        t.append("<perform ");
        t.append(self.key_text(effect, op).as_str());
        t.append(">");
        proof {
            assert(t@ =~= search_name(self@, effect, op));
        }
        let name: Sym = self.intern(t.as_str());
        let ghost v0 = (arm0.0, arm0.1@);
        let ghost v1 = (arm1.0, arm1.1@);
        let arms: Vec<(Tag, Block)> = vec![arm0, arm1];
        proof {
            assert(arms_view(arms@) =~= seq![v0, v1]);
        }
        let body: Statement = switch_s(e, arms, copy_names(&params), none);
        self.write(label, name, Block { params, body });
        let sel: Vec<Name> = vec![ev, av, k];
        proof {
            assert(sel@ =~= seq![ev, av, k]);
        }
        jump_s(sel, Label(label))
    }
}

pub fn copy_ty(t: &Option<Ty>) -> (r: Option<Ty>)
    ensures
        r == *t,
{
    match t {
        Some(t) => Some(t.copy()),
        None => None,
    }
}

} // verus!
