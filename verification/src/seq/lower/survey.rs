//! What walking a program leaves: descriptors that are integers, and representations
//! that need only those.

use super::program::scan_defs;
use super::scan::{
    name_descs, scan, scan_arms, scan_binds, scan_clauses, scan_fields, scan_list, scan_params, scan_pat, scan_pats,
};
use super::shape::{abs_binders, abstracts, over_types};
use super::state::{rep_of, St};
use super::stride::lemma_among;
use super::went::{all_descs, reps_ok};
use crate::seq::ir::{Name, Rep, NO_DESC};
use crate::terms::symbol::Sym;
use crate::terms::term::{Arm, CoreDef, HClause, Pat, Term, Var};
use crate::terms::ty::{Poly, PolyV, Ty, TyVar, VarKind};
use vstd::prelude::*;

verus! {

/// Every descriptor there is or will be looked up is one, and what a variable needs is
/// one too.
#[verifier::opaque]
pub open spec fn laid(st: St) -> bool {
    &&& all_descs(st, st.tscope)
    &&& forall|id: u32| #[trigger] st.tylams.contains_key(id) ==> all_descs(st, st.tylams[id])
    &&& reps_ok(st)
    &&& forall|v: Var| #[trigger]
        st.binder_reps.contains_key(v) ==> (st.binder_reps[v] matches Rep::Var(d) ==> d == NO_DESC || st.descs.contains(
            d,
        ))
}

/// What walking does, and what it leaves alone.
pub open spec fn walked(a: St, b: St) -> bool {
    &&& a.defs == b.defs
    &&& a.globals == b.globals
    &&& a.joins == b.joins
    &&& a.letrecs == b.letrecs
    &&& a.workers == b.workers
    &&& a.worker_ev == b.worker_ev
    &&& a.next_label == b.next_label
    &&& a.opt == b.opt
    &&& a.ev == b.ev
    &&& a.tscope == b.tscope
    &&& a.next_name <= b.next_name
    &&& laid(a) ==> laid(b)
}

broadcast proof fn lemma_bound(st: St, v: Var, poly: PolyV)
    ensures
        walked(st, #[trigger] st.bind_poly(v, poly)),
{
    reveal(St::note_thread);
    reveal(laid);
    let b = st.bind_poly(v, poly);
    if laid(st) {
        let rep = rep_of(poly.ty);
        if let Rep::Var(x) = rep {
            lemma_among(st.tscope, x, st.tscope.len());
        }
        assert(all_descs(b, b.tscope));
        assert forall|id: u32| #[trigger] b.tylams.contains_key(id) implies all_descs(b, b.tylams[id]) by {
            assert(all_descs(st, st.tylams[id]));
        }
    }
}

broadcast proof fn lemma_abstraction(st: St, v: Var, vs: Seq<TyVar>)
    ensures
        walked(st, #[trigger] st.abstraction(v, vs)),
{
    reveal(laid);
    let b = st.abstraction(v, vs);
    if laid(st) {
        assert(all_descs(b, b.tscope));
        assert forall|id: u32| #[trigger] b.tylams.contains_key(id) implies all_descs(b, b.tylams[id]) by {
            assert(all_descs(st, st.tylams[id]));
        }
    }
}

proof fn lemma_as_ref(st: St, v: Var)
    requires
        laid(st),
    ensures
        laid(St { binder_reps: st.binder_reps.insert(v, Rep::Ref), ..st }),
{
    reveal(laid);
    let b = St { binder_reps: st.binder_reps.insert(v, Rep::Ref), ..st };
    assert(all_descs(b, b.tscope));
    assert forall|id: u32| #[trigger] b.tylams.contains_key(id) implies all_descs(b, b.tylams[id]) by {
        assert(all_descs(st, st.tylams[id]));
    }
}

proof fn lemma_poly(st: St, v: Var, poly: PolyV)
    requires
        laid(st),
    ensures
        laid(St { polys: st.polys.insert(v, poly), bound: st.bound.push(v), ..st }),
{
    reveal(laid);
    let b = St { polys: st.polys.insert(v, poly), bound: st.bound.push(v), ..st };
    assert(all_descs(b, b.tscope));
    assert forall|id: u32| #[trigger] b.tylams.contains_key(id) implies all_descs(b, b.tylams[id]) by {
        assert(all_descs(st, st.tylams[id]));
    }
}

proof fn lemma_known_scope(st: St, id: u32)
    requires
        laid(st),
    ensures
        st.tylams.contains_key(id) ==> laid(st.more_scope(st.tylams[id])),
{
    reveal(laid);
    if st.tylams.contains_key(id) {
        let b = st.more_scope(st.tylams[id]);
        assert(all_descs(st, st.tylams[id]));
        assert(all_descs(b, b.tscope)) by {
            assert forall|i: int| 0 <= i < b.tscope.len() implies b.descs.contains((#[trigger] b.tscope[i]).1) by {
                if i < st.tscope.len() {
                    assert(b.tscope[i] == st.tscope[i]);
                } else {
                    assert(b.tscope[i] == st.tylams[id][i - st.tscope.len()]);
                }
            }
        }
        assert forall|i: u32| #[trigger] b.tylams.contains_key(i) implies all_descs(b, b.tylams[i]) by {
            assert(all_descs(st, st.tylams[i]));
        }
    }
}

proof fn lemma_named_scope(st: St, id: u32, names: Seq<(u32, Name)>)
    requires
        laid(st),
        all_descs(st, names),
    ensures
        laid(St { tylams: st.tylams.insert(id, names), ..st }.more_scope(names)),
{
    reveal(laid);
    let b = St { tylams: st.tylams.insert(id, names), ..st }.more_scope(names);
    assert(all_descs(b, b.tscope)) by {
        assert forall|i: int| 0 <= i < b.tscope.len() implies b.descs.contains((#[trigger] b.tscope[i]).1) by {
            if i < st.tscope.len() {
                assert(b.tscope[i] == st.tscope[i]);
            } else {
                assert(b.tscope[i] == names[i - st.tscope.len()]);
            }
        }
    }
    assert forall|i: u32| #[trigger] b.tylams.contains_key(i) implies all_descs(b, b.tylams[i]) by {
        if i != id {
            assert(all_descs(st, st.tylams[i]));
        }
    }
}

proof fn lemma_cut(st: St, depth: nat)
    requires
        laid(st),
    ensures
        laid(st.cut_scope(depth)),
{
    reveal(laid);
    let b = st.cut_scope(depth);
    assert(all_descs(b, b.tscope)) by {
        assert forall|i: int| 0 <= i < b.tscope.len() implies b.descs.contains((#[trigger] b.tscope[i]).1) by {
            assert(b.tscope[i] == st.tscope[i]);
        }
    }
    assert forall|i: u32| #[trigger] b.tylams.contains_key(i) implies all_descs(b, b.tylams[i]) by {
        assert(all_descs(st, st.tylams[i]));
    }
}

proof fn lemma_name_descs(st: St, vs: Seq<TyVar>, n: nat)
    ensures
        walked(st, name_descs(st, vs, n).0),
        all_descs(name_descs(st, vs, n).0, name_descs(st, vs, n).1),
    decreases n,
{
    if n > 0 && n <= vs.len() {
        lemma_name_descs(st, vs, (n - 1) as nat);
        let (a, was) = name_descs(st, vs, (n - 1) as nat);
        let (b, now) = name_descs(st, vs, n);
        if vs[n - 1].kind == VarKind::Type {
            assert forall|i: int| 0 <= i < now.len() implies b.descs.contains((#[trigger] now[i]).1) by {
                if i < was.len() {
                    assert(now[i] == was[i]);
                }
            }
            if laid(a) {
                reveal(laid);
                assert(all_descs(b, b.tscope)) by {
                    assert forall|i: int| 0 <= i < b.tscope.len() implies b.descs.contains((#[trigger] b.tscope[i]).1) by {
                        assert(a.descs.contains(a.tscope[i].1));
                    }
                }
                assert forall|i: u32| #[trigger] b.tylams.contains_key(i) implies all_descs(b, b.tylams[i]) by {
                    assert(all_descs(a, a.tylams[i]));
                    assert forall|k: int| 0 <= k < b.tylams[i].len() implies b.descs.contains(
                        (#[trigger] b.tylams[i][k]).1,
                    ) by {
                        assert(a.descs.contains(a.tylams[i][k].1));
                    }
                }
            }
        }
    }
}

#[verifier::spinoff_prover]
#[verifier::rlimit(60)]
proof fn lemma_scan(st: St, t: Term)
    ensures
        walked(st, scan(st, t)),
    decreases t, 1nat,
{
    broadcast use {lemma_bound, lemma_abstraction};

    match t {
        Term::TyLam(_, _, _) => {
            lemma_scan_tylam(st, t);
        },
        Term::Loc(_, b) => {
            lemma_scan(st, *b);
        },
        Term::TyApp(b, _) => {
            lemma_scan(st, *b);
        },
        Term::Proj(b, _) => {
            lemma_scan(st, *b);
        },
        Term::Sel(b, _, _) => {
            lemma_scan(st, *b);
        },
        Term::Perform(_, _, b, _) => {
            lemma_scan(st, *b);
        },
        Term::Lam(v, ty, b) => {
            lemma_scan(st.bind_poly(v, PolyV::plain(ty)), *b);
        },
        Term::App(a, b) => {
            lemma_scan(st, *a);
            lemma_scan(scan(st, *a), *b);
        },
        Term::Extend(a, _, b) => {
            lemma_scan(st, *a);
            lemma_scan(scan(st, *a), *b);
        },
        Term::Let(v, poly, r, b) => {
            let st1 = st.bind_poly(v, poly@);
            let st2 = if abstracts(*r) {
                let st0 = st1.abstraction(v, abs_binders(*r));
                St { binder_reps: st0.binder_reps.insert(v, crate::seq::ir::Rep::Ref), ..st0 }
            } else {
                st1
            };
            if laid(st1) {
                lemma_as_ref(st1.abstraction(v, abs_binders(*r)), v);
            }
            lemma_scan(st2, *r);
            lemma_scan(scan(st2, *r), *b);
        },
        Term::Join { var, params, ty, rhs, body } => {
            lemma_scan_params(st, params@, params@.len());
            let st1 = scan_params(st, params@, params@.len()).bind_poly(var, PolyV::plain(ty));
            lemma_scan(st1, *rhs);
            lemma_scan(scan(st1, *rhs), *body);
        },
        Term::LetRec(binds, body) => {
            assert(decreases_to!(t => binds@));
            lemma_scan_binds(st, binds@, binds@.len());
            lemma_scan(scan_binds(st, binds@, binds@.len()), *body);
        },
        Term::If(a, b, c) => {
            lemma_scan(st, *a);
            lemma_scan(scan(st, *a), *b);
            lemma_scan(scan(scan(st, *a), *b), *c);
        },
        Term::Jump(_, xs, _) => {
            assert(decreases_to!(t => xs@));
            lemma_scan_list(st, xs@, xs@.len());
        },
        Term::Tuple(xs) => {
            assert(decreases_to!(t => xs@));
            lemma_scan_list(st, xs@, xs@.len());
        },
        Term::Array(xs, _) => {
            assert(decreases_to!(t => xs@));
            lemma_scan_list(st, xs@, xs@.len());
        },
        Term::Record(_, xs) => {
            assert(decreases_to!(t => xs@));
            lemma_scan_list(st, xs@, xs@.len());
        },
        Term::Ctor(_, _, xs) => {
            assert(decreases_to!(t => xs@));
            lemma_scan_list(st, xs@, xs@.len());
        },
        Term::Prim(_, xs, _) => {
            assert(decreases_to!(t => xs@));
            lemma_scan_list(st, xs@, xs@.len());
        },
        Term::Case(s, arms, _) => {
            lemma_scan(st, *s);
            assert(decreases_to!(t => arms@));
            lemma_scan_arms(scan(st, *s), arms@, arms@.len());
        },
        Term::Handle { body, clauses, ret, .. } => {
            lemma_scan(st, *body);
            assert(decreases_to!(t => clauses@));
            lemma_scan_clauses(scan(st, *body), clauses@, clauses@.len());
            let st1 = scan_clauses(scan(st, *body), clauses@, clauses@.len());
            if let Some(r) = ret {
                lemma_scan(st1.bind_poly(r.0, PolyV::plain(r.1)), *r.2);
            }
        },
        _ => {},
    }
}

#[verifier::spinoff_prover]
proof fn lemma_scan_tylam(st: St, t: Term)
    requires
        t is TyLam,
    ensures
        walked(st, scan(st, t)),
    decreases t, 0nat,
{
    if let Term::TyLam(id, vs, b) = t {
        lemma_name_descs(st, vs@, vs@.len());
        let (st0, names) = name_descs(st, vs@, vs@.len());
        let known = St { tylams: st0.tylams.insert(id, names), ..st0 };
        let st1 = if over_types(vs@) {
            if st.tylams.contains_key(id) {
                st.more_scope(st.tylams[id])
            } else {
                known.more_scope(names)
            }
        } else {
            st
        };
        if laid(st) {
            lemma_known_scope(st, id);
            lemma_named_scope(st0, id, names);
        }
        lemma_scan(st1, *b);
        let r = scan(st1, *b);
        if laid(r) {
            lemma_cut(r, st.tscope.len());
        }
        assert(st1.tscope.take(st.tscope.len() as int) =~= st.tscope);
    }
}

proof fn lemma_scan_list(st: St, xs: Seq<Term>, n: nat)
    ensures
        walked(st, scan_list(st, xs, n)),
    decreases xs, n,
{
    if n > 0 && n <= xs.len() {
        lemma_scan_list(st, xs, (n - 1) as nat);
        assert(decreases_to!(xs => xs[n - 1]));
        lemma_scan(scan_list(st, xs, (n - 1) as nat), xs[n - 1]);
    }
}

proof fn lemma_scan_params(st: St, params: Seq<(Var, Ty)>, n: nat)
    ensures
        walked(st, scan_params(st, params, n)),
    decreases n,
{
    broadcast use {lemma_bound, lemma_abstraction};

    if n > 0 && n <= params.len() {
        lemma_scan_params(st, params, (n - 1) as nat);
    }
}

proof fn lemma_scan_binds(st: St, binds: Seq<(Var, Poly, Term)>, n: nat)
    ensures
        walked(st, scan_binds(st, binds, n)),
    decreases binds, n,
{
    broadcast use {lemma_bound, lemma_abstraction};

    if n > 0 && n <= binds.len() {
        lemma_scan_binds(st, binds, (n - 1) as nat);
        let (v, poly, t) = binds[n - 1];
        let st1 = scan_binds(st, binds, (n - 1) as nat).bind_poly(v, poly@);
        let st2 = if abstracts(t) {
            st1.abstraction(v, abs_binders(t))
        } else {
            st1
        };
        assert(decreases_to!(binds => binds[n - 1]));
        lemma_scan(st2, binds[n - 1].2);
    }
}

proof fn lemma_scan_arms(st: St, arms: Seq<Arm>, n: nat)
    ensures
        walked(st, scan_arms(st, arms, n)),
    decreases arms, n,
{
    if n > 0 && n <= arms.len() {
        lemma_scan_arms(st, arms, (n - 1) as nat);
        lemma_scan_pat(scan_arms(st, arms, (n - 1) as nat), arms[n - 1].pat);
        let st1 = scan_pat(scan_arms(st, arms, (n - 1) as nat), arms[n - 1].pat);
        assert(decreases_to!(arms => arms[n - 1]));
        if let Some(g) = arms[n - 1].guard {
            lemma_scan(st1, g);
        }
        let st2 = match arms[n - 1].guard {
            Some(g) => scan(st1, g),
            None => st1,
        };
        lemma_scan(st2, arms[n - 1].body);
    }
}

proof fn lemma_scan_clauses(st: St, cs: Seq<HClause>, n: nat)
    ensures
        walked(st, scan_clauses(st, cs, n)),
    decreases cs, n,
{
    broadcast use {lemma_bound, lemma_abstraction};

    if n > 0 && n <= cs.len() {
        lemma_scan_clauses(st, cs, (n - 1) as nat);
        let c = cs[n - 1];
        let st1 = scan_clauses(st, cs, (n - 1) as nat).bind_poly(c.param, PolyV::plain(c.param_ty)).bind_poly(
            c.resume,
            PolyV::plain(super::scan::resume_type(c)),
        );
        assert(decreases_to!(cs => cs[n - 1]));
        lemma_scan(st1, cs[n - 1].body);
    }
}

proof fn lemma_scan_pat(st: St, p: Pat)
    ensures
        walked(st, scan_pat(st, p)),
    decreases p, 0nat,
{
    broadcast use {lemma_bound, lemma_abstraction};

    match p {
        Pat::As(v, ty, sub) => {
            lemma_scan_pat(st.bind_poly(v, PolyV::plain(ty)), *sub);
        },
        Pat::Tuple(ps) => {
            assert(decreases_to!(p => ps@));
            lemma_scan_pats(st, ps@, ps@.len());
        },
        Pat::Array(ps) => {
            assert(decreases_to!(p => ps@));
            lemma_scan_pats(st, ps@, ps@.len());
        },
        Pat::Ctor(_, ps) => {
            assert(decreases_to!(p => ps@));
            lemma_scan_pats(st, ps@, ps@.len());
        },
        Pat::Record(fs) => {
            assert(decreases_to!(p => fs@));
            lemma_scan_fields(st, fs@, fs@.len());
        },
        _ => {},
    }
}

proof fn lemma_scan_pats(st: St, ps: Seq<Pat>, n: nat)
    ensures
        walked(st, scan_pats(st, ps, n)),
    decreases ps, n,
{
    if n > 0 && n <= ps.len() {
        lemma_scan_pats(st, ps, (n - 1) as nat);
        assert(decreases_to!(ps => ps[n - 1]));
        lemma_scan_pat(scan_pats(st, ps, (n - 1) as nat), ps[n - 1]);
    }
}

proof fn lemma_scan_fields(st: St, fs: Seq<(Sym, Pat)>, n: nat)
    ensures
        walked(st, scan_fields(st, fs, n)),
    decreases fs, n,
{
    if n > 0 && n <= fs.len() {
        lemma_scan_fields(st, fs, (n - 1) as nat);
        assert(decreases_to!(fs => fs[n - 1]));
        lemma_scan_pat(scan_fields(st, fs, (n - 1) as nat), fs[n - 1].1);
    }
}

pub proof fn lemma_scan_defs(st: St, defs: Seq<CoreDef>, n: nat)
    ensures
        walked(st, scan_defs(st, defs, n)),
    decreases n,
{
    broadcast use lemma_abstraction;

    if n > 0 && n <= defs.len() {
        lemma_scan_defs(st, defs, (n - 1) as nat);
        let d = defs[n - 1];
        let st0 = scan_defs(st, defs, (n - 1) as nat);
        let st1 = St { polys: st0.polys.insert(d.var, d.poly@), bound: st0.bound.push(d.var), ..st0 };
        let st2 = if abstracts(d.term) {
            st1.abstraction(d.var, abs_binders(d.term))
        } else {
            st1
        };
        if laid(st0) {
            lemma_poly(st0, d.var, d.poly@);
        }
        lemma_scan(st2, d.term);
    }
}

} // verus!
