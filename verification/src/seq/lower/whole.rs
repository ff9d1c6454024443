//! Every block lowering writes names the whole environment it is entered in.

use super::effect::{dispatch, native, perform, resumption, search_arm, search_name};
use super::frame::{built, filled, made, plugged, produced, rename_v, FrameV, PreV};
use super::pattern::{
    arm_tests, match_all, match_labels, match_pat, paired, positional, read_fields, tried, MatchedV,
};
use super::scheme::{answered, begin, bind_vars, ended, started, take_fields, waiting, with_descs, BoundV};
use super::state::St;
use super::tree::{
    at_most, budget_for, build, build_cases, build_lits, ctors, lits, name_subs, name_tuple, plan, rows_for,
    rows_for_lit, settled, specialized_tuple, tested, untested, RowV,
};
use super::types::{field_names, field_type, label_type, name_fields, name_type};
use crate::seq::balance::{
    lemma_arranged, lemma_built_in, lemma_error, lemma_goto, lemma_invoke, lemma_mark, lemma_object, lemma_one,
    lemma_sub, lemma_switch, lemma_switch_one, lemma_two, scoped,
};
use crate::seq::ir::{Label, Name, Rep, Tag};
use crate::seq::view::{
    enter_v, invoke_v, new_v, one_v, ret_v, sub_v, switch_v, two_v, BlockV, DefV, ExternV, StmtV,
};
use crate::terms::desc;
use crate::terms::prim::{Lit, Prim};
use crate::terms::symbol::{self, Sym};
use crate::terms::term::{Arm, Pat, Term};
use crate::terms::ty::{desc_of, named, Ty};
use vstd::prelude::*;

verus! {

/// Every one of some definitions names the whole environment throughout.
#[verifier::opaque]
pub open spec fn all_scoped(defs: Seq<DefV>) -> bool {
    forall|i: int| 0 <= i < defs.len() ==> scoped((#[trigger] defs[i]).block.body, defs[i].block.params)
}

/// Every definition written so far does.
pub open spec fn sound(st: St) -> bool {
    all_scoped(st.defs)
}

pub proof fn lemma_wrote(st: St, label: u32, name: Sym, block: BlockV)
    requires
        sound(st),
        scoped(block.body, block.params),
    ensures
        sound(st.wrote(label, name, block)),
{
    reveal(all_scoped);
}

pub proof fn lemma_typed(st: St, ty: Option<Ty>)
    ensures
        st.fresh_typed(ty).defs == st.defs,
{
    reveal(St::fresh_typed);
    reveal(St::set_type);
    reveal(St::note_thread);
}

// --- frames ---

/// Does frame `f`, entered in `env`, name the whole of it?
pub open spec fn fits(f: FrameV, env: Seq<Name>) -> bool {
    match f {
        FrameV::Mark(_) => true,
        FrameV::Bind { op, params, .. } => !op.branches() && params.len() == env.len() + 1 && params.skip(1) == env,
        FrameV::Build { .. } => true,
        FrameV::Object { captures, method, .. } => captures.is_prefix_of(method.params) && scoped(
            method.body,
            method.params,
        ),
        FrameV::Rename { sel, params } => sel.len() == params.len(),
        FrameV::Test { op, env: e, .. } => op.branches() && e == env,
        FrameV::Only { arm_env, env: e, .. } => e == env && env.is_suffix_of(arm_env),
    }
}

/// The environment in a frame's hole.
pub open spec fn inside(f: FrameV, env: Seq<Name>) -> Seq<Name> {
    match f {
        FrameV::Mark(_) => env,
        FrameV::Bind { params, .. } => params,
        FrameV::Build { name, .. } => seq![name] + env,
        FrameV::Object { name, .. } => seq![name] + env,
        FrameV::Rename { params, .. } => params,
        FrameV::Test { .. } => env,
        FrameV::Only { arm_env, .. } => arm_env,
    }
}

/// The environment frames entered in `env` lead to, where each fits.
pub open spec fn carried(fs: Seq<FrameV>, env: Seq<Name>) -> Option<Seq<Name>>
    decreases fs.len(),
{
    if fs.len() == 0 {
        Some(env)
    } else {
        match carried(fs.drop_last(), env) {
            Some(m) => if fits(fs.last(), m) {
                Some(inside(fs.last(), m))
            } else {
                None
            },
            None => None,
        }
    }
}

/// The frames lead from `a` to `b`.
#[verifier::opaque]
pub open spec fn leads(fs: Seq<FrameV>, a: Seq<Name>, b: Seq<Name>) -> bool {
    carried(fs, a) == Some(b)
}

pub proof fn lemma_leads_nowhere(a: Seq<Name>)
    ensures
        leads(Seq::empty(), a, a),
{
    reveal(leads);
}

pub proof fn lemma_leads_on(fs: Seq<FrameV>, f: FrameV, a: Seq<Name>, b: Seq<Name>)
    requires
        leads(fs, a, b),
        fits(f, b),
    ensures
        leads(fs.push(f), a, inside(f, b)),
{
    reveal(leads);
    assert(fs.push(f).drop_last() =~= fs);
}

pub proof fn lemma_leads_one(f: FrameV, a: Seq<Name>)
    requires
        fits(f, a),
    ensures
        leads(seq![f], a, inside(f, a)),
{
    lemma_leads_nowhere(a);
    lemma_leads_on(Seq::empty(), f, a, a);
    assert(Seq::<FrameV>::empty().push(f) =~= seq![f]);
}

pub proof fn lemma_leads_both(fs: Seq<FrameV>, gs: Seq<FrameV>, a: Seq<Name>, b: Seq<Name>, c: Seq<Name>)
    requires
        leads(fs, a, b),
        leads(gs, b, c),
    ensures
        leads(fs + gs, a, c),
    decreases gs.len(),
{
    reveal(leads);
    if gs.len() == 0 {
        assert(fs + gs =~= fs);
    } else {
        assert((fs + gs).drop_last() =~= fs + gs.drop_last());
        let m = carried(gs.drop_last(), b)->0;
        lemma_leads_both(fs, gs.drop_last(), a, b, m);
    }
}

proof fn lemma_filled(f: FrameV, body: StmtV, env: Seq<Name>)
    requires
        fits(f, env),
        scoped(body, inside(f, env)),
    ensures
        scoped(filled(f, body), env),
{
    match f {
        FrameV::Bind { op, args, params } => {
            lemma_one(op, args, params, body, env);
        },
        FrameV::Object { name, captures, method } => {
            lemma_object(name, captures, method, body, env);
        },
        FrameV::Test { op, args, env: e, miss } => {
            lemma_invoke(seq![miss], miss, env);
            lemma_two(op, args, env, enter_v(miss), body);
        },
        FrameV::Only { subject, tag, arm_env, env: e, miss } => {
            lemma_invoke(seq![miss], miss, env);
            lemma_switch_one(subject, tag, arm_env, body, env, enter_v(miss));
        },
        FrameV::Mark(loc) => {
            lemma_mark(loc, body, env);
        },
        FrameV::Build { name, tag, ctor, fields } => {
            lemma_built_in(name, tag, ctor, fields, body, env);
        },
        FrameV::Rename { sel, params } => {
            lemma_sub(sel, params, body, env);
        },
    }
}

pub proof fn lemma_plugged(fs: Seq<FrameV>, body: StmtV, a: Seq<Name>, b: Seq<Name>)
    requires
        leads(fs, a, b),
        scoped(body, b),
    ensures
        scoped(plugged(fs, body), a),
    decreases fs.len(),
{
    reveal(leads);
    reveal(plugged);
    if fs.len() > 0 {
        let m = carried(fs.drop_last(), a)->0;
        lemma_filled(fs.last(), body, m);
        lemma_plugged(fs.drop_last(), filled(fs.last(), body), a, m);
    }
}

pub proof fn lemma_produced(
    st: St,
    frames: Seq<FrameV>,
    op: ExternV,
    args: Seq<Name>,
    env: Seq<Name>,
    ty: Option<Ty>,
    name: Option<Name>,
    a: Seq<Name>,
)
    requires
        leads(frames, a, env),
        !op.branches(),
    ensures
        produced(st, frames, op, args, env, ty, name).st.defs == st.defs,
        leads(
            produced(st, frames, op, args, env, ty, name).frames,
            a,
            produced(st, frames, op, args, env, ty, name).env,
        ),
{
    reveal(produced);
    lemma_typed(st, ty);
    let p = produced(st, frames, op, args, env, ty, name);
    assert(p.env.skip(1) =~= env);
    lemma_leads_on(frames, FrameV::Bind { op, args, params: p.env }, a, env);
}

pub proof fn lemma_built(
    st: St,
    frames: Seq<FrameV>,
    ctor: Sym,
    tag: Tag,
    fields: Seq<Name>,
    env: Seq<Name>,
    ty: Option<Ty>,
    name: Option<Name>,
    a: Seq<Name>,
)
    requires
        leads(frames, a, env),
    ensures
        built(st, frames, ctor, tag, fields, env, ty, name).st.defs == st.defs,
        leads(
            built(st, frames, ctor, tag, fields, env, ty, name).frames,
            a,
            built(st, frames, ctor, tag, fields, env, ty, name).env,
        ),
{
    reveal(built);
    lemma_typed(st, ty);
    let p = built(st, frames, ctor, tag, fields, env, ty, name);
    lemma_leads_on(frames, FrameV::Build { name: p.x, tag, ctor, fields }, a, env);
}

pub proof fn lemma_made(st: St, captures: Seq<Name>, method: BlockV, env: Seq<Name>, name: Option<Name>)
    requires
        captures.is_prefix_of(method.params),
        scoped(method.body, method.params),
    ensures
        made(st, captures, method, env, name).st.defs == st.defs,
        leads(made(st, captures, method, env, name).frames, env, made(st, captures, method, env, name).env),
{
    reveal(made);
    let p = made(st, captures, method, env, name);
    lemma_leads_one(FrameV::Object { name: p.x, captures, method }, env);
}

pub proof fn lemma_with_descs(st: St, tys: Seq<Ty>, n: nat, env: Seq<Name>)
    ensures
        with_descs(st, tys, n, env).st.defs == st.defs,
        leads(with_descs(st, tys, n, env).frames, env, with_descs(st, tys, n, env).env),
    decreases n,
{
    reveal_with_fuel(with_descs, 2);
    if n == 0 || n > tys.len() {
        lemma_leads_nowhere(env);
    } else {
        lemma_with_descs(st, tys, (n - 1) as nat, env);
        let a = with_descs(st, tys, (n - 1) as nat, env);
        let d: u8 = match desc_of(tys[n - 1]) {
            Some(d) => d,
            None => desc::ANY,
        };
        lemma_produced(
            a.st,
            a.frames,
            ExternV::Lit(Lit::Int(d as i64)),
            Seq::empty(),
            a.env,
            Some(named(symbol::INT)),
            None,
            env,
        );
    }
}

pub proof fn lemma_bind_vars(binds: Seq<(Name, Name)>, n: nat, env: Seq<Name>)
    ensures
        leads(bind_vars(binds, n, env).0, env, bind_vars(binds, n, env).1),
    decreases n,
{
    if n == 0 || n > binds.len() {
        lemma_leads_nowhere(env);
    } else {
        lemma_bind_vars(binds, (n - 1) as nat, env);
        let (fs, env1) = bind_vars(binds, (n - 1) as nat, env);
        lemma_leads_on(fs, rename_v(binds[n - 1].1, binds[n - 1].0, env1), env, env1);
    }
}

pub proof fn lemma_take_fields(occ: Name, fields: Seq<(usize, Name)>, n: nat, env: Seq<Name>)
    ensures
        leads(take_fields(occ, fields, n, env).0, env, take_fields(occ, fields, n, env).1),
    decreases n,
{
    if n == 0 || n > fields.len() {
        lemma_leads_nowhere(env);
    } else {
        lemma_take_fields(occ, fields, (n - 1) as nat, env);
        let (fs, env1) = take_fields(occ, fields, (n - 1) as nat, env);
        let (i, x) = fields[n - 1];
        assert((seq![x] + env1).skip(1) =~= env1);
        lemma_leads_on(
            fs,
            FrameV::Bind { op: ExternV::Field(i), args: seq![occ], params: seq![x] + env1 },
            env,
            env1,
        );
    }
}

// --- terms started and finished ---

/// Term `b` was started in `env`.
pub open spec fn from(b: BoundV, env: Seq<Name>) -> bool {
    &&& b.outer == env
    &&& b.simple ==> leads(b.frames, env, b.env)
    &&& !b.simple ==> b.keep.is_prefix_of(b.env)
}

pub proof fn lemma_begin(st: St, e: Term, env: Seq<Name>, keep: Seq<Name>, name: Option<Name>, p: PreV)
    requires
        sound(st),
        sound(p.st),
        leads(p.frames, env, p.env),
    ensures
        sound(begin(st, e, env, keep, name, p).0),
        from(begin(st, e, env, keep, name, p).1, env),
{
    reveal(begin);
    reveal(started);
    reveal(waiting);
    let st1 = st.fresh_ref().framed(st.next_name);
    lemma_typed(st1, super::types::type_of(st1, e));
}

pub proof fn lemma_ended(st: St, b: BoundV, body: StmtV, r: (St, StmtV), env: Seq<Name>)
    requires
        sound(st),
        from(b, env),
        scoped(body, b.env),
        sound(r.0),
        scoped(r.1, seq![b.kk] + b.outer),
    ensures
        sound(ended(st, b, body, r).0),
        scoped(ended(st, b, body, r).1, env),
{
    reveal(ended);
    reveal(answered);
    if b.simple {
        lemma_plugged(b.frames, body, env, b.env);
    } else {
        lemma_object(b.kk, b.keep, BlockV { params: b.env, body }, r.1, env);
    }
}

/// Terms started one behind the other lead from `a` to `b`.
pub open spec fn chained(bs: Seq<BoundV>, a: Seq<Name>, b: Seq<Name>) -> bool
    decreases bs.len(),
{
    if bs.len() == 0 {
        a == b
    } else {
        from(bs.last(), bs.last().outer) && bs.last().env == b && chained(bs.drop_last(), a, bs.last().outer)
    }
}

pub proof fn lemma_chained(bs: Seq<BoundV>, x: BoundV, a: Seq<Name>, b: Seq<Name>)
    requires
        chained(bs, a, b),
        from(x, b),
    ensures
        chained(bs.push(x), a, x.env),
{
    assert(bs.push(x).drop_last() =~= bs);
}

// --- patterns ---

/// A pattern matched in `env`, leaving no definition behind.
pub open spec fn matches(st: St, m: MatchedV, env: Seq<Name>) -> bool {
    m.st.defs == st.defs && leads(m.frames, env, m.env)
}

proof fn lemma_name_fields(st: St, types: Option<Seq<Ty>>, subs: Seq<Pat>, n: nat)
    ensures
        name_fields(st, types, subs, n).0.defs == st.defs,
    decreases n,
{
    if n > 0 && n <= subs.len() {
        lemma_name_fields(st, types, subs, (n - 1) as nat);
        let (st1, names) = name_fields(st, types, subs, (n - 1) as nat);
        lemma_typed(st1, name_type(st1, types, subs[n - 1], n - 1));
    }
}

proof fn lemma_field_names(st: St, c: Sym, subs: Seq<Pat>, of: Option<Ty>)
    ensures
        field_names(st, c, subs, of).0.defs == st.defs,
{
    lemma_name_fields(st, super::types::field_types(st, c, of), subs, subs.len());
}

proof fn lemma_name_subs(st: St, of: Option<Ty>, names: Seq<Option<Name>>, subs: Seq<Pat>, n: nat)
    ensures
        name_subs(st, of, names, subs, n).0.defs == st.defs,
    decreases n,
{
    if n > 0 && n <= subs.len() {
        lemma_name_subs(st, of, names, subs, (n - 1) as nat);
        let st1 = name_subs(st, of, names, subs, (n - 1) as nat).0;
        assert forall|ty: Option<Ty>| (#[trigger] st1.fresh_typed(ty)).defs == st1.defs by {
            lemma_typed(st1, ty);
        }
    }
}

proof fn lemma_name_tuple(st: St, of: Option<Ty>, names: Seq<Option<Name>>, rows: Seq<RowV>, occ: Name, n: nat)
    ensures
        name_tuple(st, of, names, rows, occ, n).0.defs == st.defs,
    decreases n,
{
    if n > 0 && n <= rows.len() {
        lemma_name_tuple(st, of, names, rows, occ, (n - 1) as nat);
        let (st1, ns) = name_tuple(st, of, names, rows, occ, (n - 1) as nat);
        match tested(rows[n - 1], occ) {
            Some(Pat::Tuple(subs)) => {
                lemma_name_subs(st1, of, ns, subs@, subs@.len());
            },
            _ => {},
        }
    }
}

proof fn lemma_build(st: St, rows: Seq<RowV>, arms: Seq<Arm>, budget: nat)
    ensures
        build(st, rows, arms, budget).st.defs == st.defs,
    decreases budget, 0nat, 0nat,
{
    if budget > 0 {
        let left = (budget - 1) as nat;
        let rows = Seq::new(rows.len(), |i: int| settled(rows[i]));
        if rows.len() > 0 {
            if rows[0].tests.len() == 0 {
                lemma_build(st, rows.skip(1), arms, left);
            } else {
                let (occ, pat) = rows[0].tests[0];
                let of = st.type_of_name(occ);
                match pat {
                    Pat::Ctor(_, _) => {
                        let cs = ctors(rows, occ, rows.len());
                        lemma_build_cases(st, rows, arms, occ, of, cs, cs.len(), left);
                        let a = build_cases(st, rows, arms, occ, of, cs, cs.len(), left);
                        lemma_build(a.st, untested(rows, occ, rows.len()), arms, at_most(a.left, left));
                    },
                    Pat::Lit(_) => {
                        let ls = lits(rows, occ, rows.len());
                        lemma_build_lits(st, rows, arms, occ, ls, ls.len(), left);
                        let a = build_lits(st, rows, arms, occ, ls, ls.len(), left);
                        lemma_build(a.st, untested(rows, occ, rows.len()), arms, at_most(a.left, left));
                    },
                    Pat::Tuple(subs) => {
                        let none = Seq::new(subs@.len(), |i: int| None::<Name>);
                        lemma_name_tuple(st, of, none, rows, occ, rows.len());
                        let (st1, names) = name_tuple(st, of, none, rows, occ, rows.len());
                        let rest = Seq::new(rows.len(), |i: int| specialized_tuple(rows[i], occ, names));
                        lemma_build(st1, rest, arms, left);
                    },
                    _ => {},
                }
            }
        }
    }
}

proof fn lemma_build_cases(
    st: St,
    rows: Seq<RowV>,
    arms: Seq<Arm>,
    occ: Name,
    of: Option<Ty>,
    cs: Seq<(Sym, Vec<Pat>)>,
    n: nat,
    budget: nat,
)
    ensures
        build_cases(st, rows, arms, occ, of, cs, n, budget).st.defs == st.defs,
    decreases budget, 1nat, n,
{
    if n > 0 && n <= cs.len() {
        lemma_build_cases(st, rows, arms, occ, of, cs, (n - 1) as nat, budget);
        let a = build_cases(st, rows, arms, occ, of, cs, (n - 1) as nat, budget);
        let (c, subs) = cs[n - 1];
        lemma_field_names(a.st, c, subs@, of);
        let (st1, fields) = field_names(a.st, c, subs@, of);
        lemma_build(st1, rows_for(rows, occ, c, fields, rows.len()), arms, at_most(a.left, budget));
    }
}

proof fn lemma_build_lits(
    st: St,
    rows: Seq<RowV>,
    arms: Seq<Arm>,
    occ: Name,
    ls: Seq<Lit>,
    n: nat,
    budget: nat,
)
    ensures
        build_lits(st, rows, arms, occ, ls, n, budget).st.defs == st.defs,
    decreases budget, 1nat, n,
{
    if n > 0 && n <= ls.len() {
        lemma_build_lits(st, rows, arms, occ, ls, (n - 1) as nat, budget);
        let a = build_lits(st, rows, arms, occ, ls, (n - 1) as nat, budget);
        lemma_build(a.st, rows_for_lit(rows, occ, ls[n - 1], rows.len()), arms, at_most(a.left, budget));
    }
}

pub proof fn lemma_plan(st: St, rows: Seq<RowV>, arms: Seq<Arm>, n: nat)
    ensures
        plan(st, rows, arms, n).st.defs == st.defs,
{
    reveal(plan);
    lemma_build(st, rows, arms, budget_for(n));
}

proof fn lemma_read_fields(st: St, subs: Seq<Pat>, subject: Name, n: nat, env: Seq<Name>)
    ensures
        matches(st, read_fields(st, subs, subject, n, env).0, env),
    decreases n,
{
    if n == 0 || n > subs.len() {
        lemma_leads_nowhere(env);
    } else {
        lemma_read_fields(st, subs, subject, (n - 1) as nat, env);
        let (m, got) = read_fields(st, subs, subject, (n - 1) as nat, env);
        let ty = field_type(positional(m.st.type_of_name(subject), (n - 1) as nat), subs[n - 1]);
        lemma_produced(
            m.st,
            m.frames,
            ExternV::Field((n - 1) as usize),
            seq![subject],
            m.env,
            ty,
            None,
            env,
        );
    }
}

proof fn lemma_match_pat(st: St, p: Pat, subject: Name, env: Seq<Name>, fail: Name)
    ensures
        matches(st, match_pat(st, p, subject, env, fail), env),
    decreases p, 0nat,
{
    match p {
        Pat::Wild => {
            lemma_leads_nowhere(env);
        },
        Pat::Var(v, _) => {
            lemma_leads_one(rename_v(subject, v, env), env);
        },
        Pat::As(v, _, sub) => {
            lemma_leads_one(rename_v(subject, v, env), env);
            lemma_match_pat(st, *sub, subject, env.push(v), fail);
            let m = match_pat(st, *sub, subject, env.push(v), fail);
            lemma_leads_both(seq![rename_v(subject, v, env)], m.frames, env, env.push(v), m.env);
        },
        Pat::Lit(l) => {
            lemma_leads_one(
                FrameV::Test { op: ExternV::BranchPrimK(Prim::Eq, l), args: seq![subject], env, miss: fail },
                env,
            );
        },
        Pat::Ctor(c, subs) => {
            let st1 = st.tagged(c);
            let of = st1.type_of_name(subject);
            lemma_field_names(st1, c, subs@, of);
            let (st2, names) = field_names(st1, c, subs@, of);
            assert(decreases_to!(p => subs@));
            lemma_match_all(st2, subs@, paired(names, subs@.len()), names.len(), names + env, fail);
            let m = match_all(st2, subs@, paired(names, subs@.len()), names.len(), names + env, fail);
            let f = FrameV::Only { subject, tag: st.tag(c), arm_env: names + env, env, miss: fail };
            lemma_suffix(names, env);
            lemma_leads_one(f, env);
            lemma_leads_both(seq![f], m.frames, env, names + env, m.env);
        },
        Pat::Tuple(subs) => {
            lemma_read_fields(st, subs@, subject, subs@.len(), env);
            let (r, got) = read_fields(st, subs@, subject, subs@.len(), env);
            assert(decreases_to!(p => subs@));
            lemma_match_all(r.st, subs@, got, got.len(), r.env, fail);
            let m = match_all(r.st, subs@, got, got.len(), r.env, fail);
            lemma_leads_both(r.frames, m.frames, env, r.env, m.env);
        },
        Pat::Array(subs) => {
            let op = ExternV::Prim(Prim::ArrayLen);
            lemma_leads_nowhere(env);
            lemma_produced(st, Seq::empty(), op, seq![subject], env, Some(named(symbol::INT)), None, env);
            let n = produced(st, Seq::empty(), op, seq![subject], env, Some(named(symbol::INT)), None);
            let test = FrameV::Test {
                op: ExternV::BranchPrimK(Prim::Eq, Lit::Int(subs@.len() as i64)),
                args: seq![n.x],
                env: n.env,
                miss: fail,
            };
            lemma_leads_on(n.frames, test, env, n.env);
            lemma_read_fields(n.st, subs@, subject, subs@.len(), n.env);
            let (r, got) = read_fields(n.st, subs@, subject, subs@.len(), n.env);
            assert(decreases_to!(p => subs@));
            lemma_match_all(r.st, subs@, got, got.len(), r.env, fail);
            let m = match_all(r.st, subs@, got, got.len(), r.env, fail);
            lemma_leads_both(n.frames.push(test), r.frames, env, n.env, r.env);
            lemma_leads_both(n.frames.push(test) + r.frames, m.frames, env, r.env, m.env);
        },
        Pat::Record(fs) => {
            assert(decreases_to!(p => fs@));
            lemma_match_labels(st, fs@, fs@.len(), subject, env, fail);
        },
    }
}

pub proof fn lemma_suffix(a: Seq<Name>, env: Seq<Name>)
    ensures
        env.is_suffix_of(a + env),
{
    assert((a + env).subrange(a.len() as int, (a + env).len() as int) =~= env);
}

proof fn lemma_match_all(st: St, subs: Seq<Pat>, got: Seq<(usize, Name)>, n: nat, env: Seq<Name>, fail: Name)
    ensures
        matches(st, match_all(st, subs, got, n, env, fail), env),
    decreases subs, n,
{
    if n == 0 || n > got.len() {
        lemma_leads_nowhere(env);
    } else {
        lemma_match_all(st, subs, got, (n - 1) as nat, env, fail);
        let a = match_all(st, subs, got, (n - 1) as nat, env, fail);
        let (j, x) = got[n - 1];
        if j < subs.len() {
            assert(decreases_to!(subs => subs[j as int]));
            lemma_match_pat(a.st, subs[j as int], x, a.env, fail);
            let m = match_pat(a.st, subs[j as int], x, a.env, fail);
            lemma_leads_both(a.frames, m.frames, env, a.env, m.env);
        }
    }
}

proof fn lemma_match_labels(st: St, fs: Seq<(Sym, Pat)>, n: nat, subject: Name, env: Seq<Name>, fail: Name)
    ensures
        matches(st, match_labels(st, fs, n, subject, env, fail), env),
    decreases fs, n,
{
    if n == 0 || n > fs.len() {
        lemma_leads_nowhere(env);
    } else {
        lemma_match_labels(st, fs, (n - 1) as nat, subject, env, fail);
        let a = match_labels(st, fs, (n - 1) as nat, subject, env, fail);
        let ty = field_type(label_type(a.st.type_of_name(subject), fs[n - 1].0), fs[n - 1].1);
        lemma_produced(a.st, a.frames, ExternV::Select(fs[n - 1].0), seq![subject], a.env, ty, None, env);
        let p = produced(a.st, a.frames, ExternV::Select(fs[n - 1].0), seq![subject], a.env, ty, None);
        assert(decreases_to!(fs => fs[n - 1]));
        lemma_match_pat(p.st, fs[n - 1].1, p.x, p.env, fail);
        let m = match_pat(p.st, fs[n - 1].1, p.x, p.env, fail);
        lemma_leads_both(p.frames, m.frames, env, p.env, m.env);
    }
}

pub proof fn lemma_tried(st: St, p: Pat, subject: Name, env: Seq<Name>, fail: Name)
    ensures
        matches(st, tried(st, p, subject, env, fail), env),
{
    reveal(tried);
    lemma_match_pat(st, p, subject, env, fail);
}

pub proof fn lemma_arm_tests(st: St, c: Sym, subs: Seq<Pat>, of: Option<Ty>, env: Seq<Name>, fail: Name)
    ensures
        matches(st, arm_tests(st, c, subs, of, env, fail).m, arm_tests(st, c, subs, of, env, fail).arm_env),
        env.is_suffix_of(arm_tests(st, c, subs, of, env, fail).arm_env),
{
    reveal(arm_tests);
    lemma_field_names(st.tagged(c), c, subs, of);
    let (st2, fields) = field_names(st.tagged(c), c, subs, of);
    lemma_suffix(fields, env);
    lemma_match_all(st2, subs, paired(fields, subs.len()), fields.len(), fields + env, fail);
}

// --- operations ---

pub proof fn lemma_native(st: St, effect: Sym, op: Sym, av: Name, k: Name, env: Seq<Name>, res_ty: Option<Ty>)
    ensures
        native(st, effect, op, av, k, env, res_ty).0.defs == st.defs,
        scoped(native(st, effect, op, av, k, env, res_ty).1, env),
{
    let x = ExternV::Native(effect, op);
    lemma_leads_nowhere(env);
    lemma_produced(st, Seq::empty(), x, seq![av], env, res_ty, None, env);
    let p = produced(st, Seq::empty(), x, seq![av], env, res_ty, None);
    lemma_invoke(seq![k, p.x], k, p.env);
    lemma_plugged(p.frames, ret_v(k, p.x), env, p.env);
}

pub proof fn lemma_front(x: Name, env: Seq<Name>)
    ensures
        (seq![x] + env).skip(1) == env,
        (seq![x] + env).len() == env.len() + 1,
{
    assert((seq![x] + env).skip(1) =~= env);
}

proof fn lemma_resumption(st: St, k: Name, target: Name, taken: Name, seg: Name, ty: Option<Ty>)
    ensures
        resumption(st, k, target, taken, seg, ty).0.defs == st.defs,
        seq![taken, k, target, seg].is_prefix_of(resumption(st, k, target, taken, seg, ty).1.params),
        scoped(
            resumption(st, k, target, taken, seg, ty).1.body,
            resumption(st, k, target, taken, seg, ty).1.params,
        ),
{
    lemma_typed(st, ty);
    let v = st.next_name;
    let st1 = st.fresh_typed(ty);
    let c = st1.next_name;
    let st2 = st1.fresh_ref();
    let ev = st2.next_name;
    let st3 = st2.fresh_ref();
    let st4 = St { returns: st3.returns.insert(c), ..st3 };
    let params = seq![taken, k, target, seg, v, c, ev];
    let first = st4.next_name;
    let st5 = st4.fresh_as(Rep::Bits(desc::BOOL));
    let at_first = seq![first] + params;
    let u = st5.next_name;
    let st6 = st5.fresh_as(Rep::Bits(desc::UNIT));
    let at_u = seq![u] + at_first;
    let back = st6.next_name;
    let at_back = seq![back] + at_u;
    let again = StmtV::Error("continuation resumed more than once"@);
    let inner = one_v(ExternV::Prim(Prim::Reattach), seq![seg], at_back, ret_v(k, v));
    let go = one_v(ExternV::Prim(Prim::SetRef), seq![target, c], at_u, inner);
    let test = two_v(ExternV::Branch, seq![first], at_first, again, go);
    lemma_front(back, at_u);
    lemma_front(u, at_first);
    lemma_front(first, params);
    lemma_invoke(seq![k, v], k, at_back);
    lemma_error(at_first);
    lemma_one(ExternV::Prim(Prim::Reattach), seq![seg], at_back, ret_v(k, v), at_u);
    lemma_one(ExternV::Prim(Prim::SetRef), seq![target, c], at_u, inner, at_first);
    lemma_two(ExternV::Branch, seq![first], at_first, again, go);
    lemma_one(ExternV::Prim(Prim::TakeOnce), seq![taken], at_first, test, params);
    assert(params.take(4) =~= seq![taken, k, target, seg]);
}

proof fn lemma_dispatch(
    st: St,
    tail: bool,
    clause: Name,
    target: Name,
    av: Name,
    k: Name,
    env: Seq<Name>,
    res_ty: Option<Ty>,
)
    ensures
        dispatch(st, tail, clause, target, av, k, env, res_ty).0.defs == st.defs,
        scoped(dispatch(st, tail, clause, target, av, k, env, res_ty).1, env),
{
    if tail {
        lemma_invoke(seq![clause, av, k], clause, env);
    } else {
        let flag = st.next_name;
        let st1 = st.fresh_as(Rep::Bits(desc::UNIT));
        let taken = st1.next_name;
        let st2 = st1.fresh_ref();
        let seg = st2.next_name;
        let st3 = st2.fresh_ref();
        let r = st3.next_name;
        let st4 = st3.fresh_ref();
        let kh = st4.next_name;
        let st5 = st4.fresh_ref();
        let env1 = seq![flag] + env;
        let env2 = seq![taken] + env1;
        let env3 = seq![seg] + env2;
        let env4 = seq![r] + env3;
        let env5 = seq![kh] + env4;
        let enter = invoke_v(seq![clause, av, r, kh], clause);
        lemma_resumption(st5, k, target, taken, seg, res_ty);
        let (st6, resume) = resumption(st5, k, target, taken, seg, res_ty);
        let get = one_v(ExternV::Prim(Prim::GetRef), seq![target], env5, enter);
        let object = new_v(r, seq![taken, k, target, seg], resume, get);
        let cut = one_v(ExternV::Prim(Prim::Detach), seq![target], env3, object);
        let once = one_v(ExternV::Prim(Prim::Once), seq![flag], env2, cut);
        lemma_front(flag, env);
        lemma_front(taken, env1);
        lemma_front(seg, env2);
        lemma_front(kh, env4);
        lemma_invoke(seq![clause, av, r, kh], clause, env5);
        lemma_one(ExternV::Prim(Prim::GetRef), seq![target], env5, enter, env4);
        lemma_object(r, seq![taken, k, target, seg], resume, get, env3);
        lemma_one(ExternV::Prim(Prim::Detach), seq![target], env3, object, env2);
        lemma_one(ExternV::Prim(Prim::Once), seq![flag], env2, cut, env1);
        lemma_one(ExternV::Lit(Lit::Unit), Seq::empty(), env1, once, env);
    }
}

pub proof fn lemma_search_arm(
    st: St,
    label: u32,
    ctor: Sym,
    tail: bool,
    key: Sym,
    params: Seq<Name>,
    res_ty: Option<Ty>,
)
    requires
        params.len() == 3,
    ensures
        search_arm(st, label, ctor, tail, key, params, res_ty).0.defs == st.defs,
        params.is_suffix_of(search_arm(st, label, ctor, tail, key, params, res_ty).1.1.params),
        scoped(
            search_arm(st, label, ctor, tail, key, params, res_ty).1.1.body,
            search_arm(st, label, ctor, tail, key, params, res_ty).1.1.params,
        ),
{
    let ekey = st.next_name;
    let st1 = st.fresh_as(Rep::Str);
    let clause = st1.next_name;
    let st2 = st1.fresh_ref();
    let target = st2.next_name;
    let st3 = st2.fresh_ref();
    let rest = st3.next_name;
    let st4 = st3.fresh_ref();
    let fields = seq![ekey, clause, target, rest] + params;
    lemma_suffix(seq![ekey, clause, target, rest], params);
    lemma_dispatch(st4, tail, clause, target, params[1], params[2], fields, res_ty);
    let (st5, hit) = dispatch(st4, tail, clause, target, params[1], params[2], fields, res_ty);
    let next = sub_v(seq![rest, params[1], params[2]], params, StmtV::Jump(Label(label)));
    lemma_arranged(seq![rest, params[1], params[2]], params, Label(label), fields);
    lemma_two(ExternV::BranchPrimK(Prim::Eq, Lit::Sym(key)), seq![ekey], fields, next, hit);
}

pub proof fn lemma_operation(
    st: St,
    effect: Sym,
    op: Sym,
    av: Name,
    k: Name,
    ev: Name,
    arg_ty: Option<Ty>,
    res_ty: Option<Ty>,
    env: Seq<Name>,
)
    requires
        sound(st),
    ensures
        sound(perform(st, effect, op, av, k, ev, arg_ty, res_ty).0),
        scoped(perform(st, effect, op, av, k, ev, arg_ty, res_ty).1, env),
{
    reveal(perform);
    let label = st.next_label;
    let st1 = st.fresh_label();
    let e = st1.next_name;
    let st2 = st1.fresh_ref();
    let a = st2.next_name;
    lemma_typed(st2, arg_ty);
    let st3 = st2.fresh_typed(arg_ty);
    let kk = st3.next_name;
    let st4 = st3.fresh_ref();
    let params = seq![e, a, kk];
    let key = st4.symbol(st4.key(effect, op));
    let st5 = st4.interned(st4.key(effect, op));
    lemma_search_arm(st5, label, symbol::EV, false, key, params, res_ty);
    let (st6, arm0) = search_arm(st5, label, symbol::EV, false, key, params, res_ty);
    lemma_search_arm(st6, label, symbol::EV_TAIL, true, key, params, res_ty);
    let (st7, arm1) = search_arm(st6, label, symbol::EV_TAIL, true, key, params, res_ty);
    lemma_native(st7, effect, op, a, kk, params, res_ty);
    let (st8, none) = native(st7, effect, op, a, kk, params, res_ty);
    lemma_switch(e, seq![arm0, arm1], params, none);
    let name = st8.symbol(search_name(st8, effect, op));
    let st9 = st8.interned(search_name(st8, effect, op));
    assert(st9.defs == st.defs);
    lemma_wrote(st9, label, name, BlockV { params, body: switch_v(e, seq![arm0, arm1], params, none) });
    lemma_goto(seq![ev, av, k], Label(label), env);
}

} // verus!
