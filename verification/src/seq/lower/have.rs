//! Every name lowering uses is in the environment where it uses it: the parts that
//! lower no term.

use super::effect::{dispatch, native, perform, resumption, search_arm, search_name};
use super::frame::{built, filled, made, plugged, produced, rename_v, FrameV, PreV};
use super::pattern::{
    arm_tests, match_all, match_labels, match_pat, paired, positional, read_fields, tried, MatchedV,
};
use super::scheme::{
    answered, begin, bind_vars, ended, simple, started, take_fields, waiting, with_descs, BoundV,
};
use super::shape::never_fails;
use super::state::{bump, St};
use super::stride::LAST;
use super::types::{field_names, field_type, label_type, name_fields};
use super::reach::Kinds;
use super::went::{all_descs, lemma_went, okay};
use super::whole::inside;
use crate::seq::cover::{lemma_both, lemma_front, lemma_push, within};
use crate::seq::draw::{
    drawn, found, lemma_draw_arranged, lemma_draw_enter, lemma_draw_error, lemma_draw_goto, lemma_draw_invoke,
    lemma_draw_let, lemma_draw_mark, lemma_draw_object, lemma_draw_one, lemma_draw_ret, lemma_draw_sub,
    lemma_draw_switch, lemma_draw_two,
};
use crate::seq::ir::{Label, Name, Rep, Tag};
use crate::seq::view::{
    enter_v, invoke_v, new_v, one_v, ret_v, sub_v, switch_v, two_v, BlockV, ExternV, StmtV,
};
use crate::terms::desc;
use crate::terms::prim::{Lit, Prim};
use crate::terms::symbol::{self, Sym};
use crate::terms::term::{Pat, Term, Var};
use crate::terms::ty::{desc_of, named, Ty};
use vstd::prelude::*;

verus! {

/// Every definition written so far uses names it has, where names have not run out.
#[verifier::opaque]
pub open spec fn brought(st: St) -> bool {
    st.next_name < LAST ==> forall|i: int|
        0 <= i < st.defs.len() ==> drawn((#[trigger] st.defs[i]).block.body, st.defs[i].block.params, st.descs)
}

pub proof fn lemma_brought(a: St, b: St)
    requires
        brought(a),
        a.next_name <= b.next_name,
        a.defs == b.defs,
        a.descs == b.descs,
    ensures
        brought(b),
{
    reveal(brought);
}

pub proof fn lemma_wrote(st: St, label: u32, name: Sym, block: BlockV)
    requires
        brought(st),
        st.next_name < LAST ==> drawn(block.body, block.params, st.descs),
    ensures
        brought(st.wrote(label, name, block)),
{
    reveal(brought);
}

// --- frames ---

/// Does frame `f`, entered in `env`, use only names it has, and leave those there are?
pub open spec fn fits(f: FrameV, env: Seq<Name>, also: Set<Name>) -> bool {
    &&& within(env, inside(f, env))
    &&& match f {
        FrameV::Mark(_) => true,
        FrameV::Bind { args, .. } => within(args, env),
        FrameV::Build { fields, .. } => within(fields, env),
        FrameV::Object { captures, method, .. } => within(captures, env) && drawn(method.body, method.params, also),
        FrameV::Rename { sel, .. } => found(sel, env, also),
        FrameV::Test { args, env: e, miss, .. } => e == env && within(args, env) && env.contains(miss),
        FrameV::Only { subject, env: e, miss, .. } => e == env && env.contains(subject) && env.contains(miss),
    }
}

/// The environment frames entered in `env` lead to, where each fits.
pub open spec fn carried(fs: Seq<FrameV>, env: Seq<Name>, also: Set<Name>) -> Option<Seq<Name>>
    decreases fs.len(),
{
    if fs.len() == 0 {
        Some(env)
    } else {
        match carried(fs.drop_last(), env, also) {
            Some(m) => if fits(fs.last(), m, also) {
                Some(inside(fs.last(), m))
            } else {
                None
            },
            None => None,
        }
    }
}

/// The frames lead from `a` to `b`.
#[verifier::opaque]
pub open spec fn leads(fs: Seq<FrameV>, a: Seq<Name>, b: Seq<Name>, also: Set<Name>) -> bool {
    carried(fs, a, also) == Some(b)
}

pub proof fn lemma_leads_nowhere(a: Seq<Name>, also: Set<Name>)
    ensures
        leads(Seq::empty(), a, a, also),
{
    reveal(leads);
}

pub proof fn lemma_leads_on(fs: Seq<FrameV>, f: FrameV, a: Seq<Name>, b: Seq<Name>, also: Set<Name>)
    requires
        leads(fs, a, b, also),
        fits(f, b, also),
    ensures
        leads(fs.push(f), a, inside(f, b), also),
{
    reveal(leads);
    assert(fs.push(f).drop_last() =~= fs);
}

pub proof fn lemma_leads_one(f: FrameV, a: Seq<Name>, also: Set<Name>)
    requires
        fits(f, a, also),
    ensures
        leads(seq![f], a, inside(f, a), also),
{
    lemma_leads_nowhere(a, also);
    lemma_leads_on(Seq::empty(), f, a, a, also);
    assert(Seq::<FrameV>::empty().push(f) =~= seq![f]);
}

pub proof fn lemma_leads_both(
    fs: Seq<FrameV>,
    gs: Seq<FrameV>,
    a: Seq<Name>,
    b: Seq<Name>,
    c: Seq<Name>,
    also: Set<Name>,
)
    requires
        leads(fs, a, b, also),
        leads(gs, b, c, also),
    ensures
        leads(fs + gs, a, c, also),
    decreases gs.len(),
{
    reveal(leads);
    if gs.len() == 0 {
        assert(fs + gs =~= fs);
    } else {
        assert((fs + gs).drop_last() =~= fs + gs.drop_last());
        let m = carried(gs.drop_last(), b, also)->0;
        lemma_leads_both(fs, gs.drop_last(), a, b, m, also);
    }
}

proof fn lemma_filled(f: FrameV, body: StmtV, env: Seq<Name>, also: Set<Name>)
    requires
        fits(f, env, also),
        drawn(body, inside(f, env), also),
    ensures
        drawn(filled(f, body), env, also),
{
    match f {
        FrameV::Bind { op, args, params } => {
            lemma_draw_one(op, args, params, body, env, also);
        },
        FrameV::Object { name, captures, method } => {
            lemma_draw_object(name, captures, method, body, env, also);
        },
        FrameV::Test { op, args, env: e, miss } => {
            lemma_draw_enter(miss, env, also);
            lemma_draw_two(op, args, env, enter_v(miss), body, also);
        },
        FrameV::Only { subject, tag, arm_env, env: e, miss } => {
            lemma_draw_enter(miss, env, also);
            lemma_draw_switch(subject, seq![(tag, BlockV { params: arm_env, body })], env, enter_v(miss), env, also);
        },
        FrameV::Mark(loc) => {
            lemma_draw_mark(loc, body, env, also);
        },
        FrameV::Build { name, tag, ctor, fields } => {
            lemma_draw_let(name, tag, ctor, fields, body, env, also);
        },
        FrameV::Rename { sel, params } => {
            lemma_draw_sub(sel, params, body, env, also);
        },
    }
}

pub proof fn lemma_plugged(fs: Seq<FrameV>, body: StmtV, a: Seq<Name>, b: Seq<Name>, also: Set<Name>)
    requires
        leads(fs, a, b, also),
        drawn(body, b, also),
    ensures
        drawn(plugged(fs, body), a, also),
    decreases fs.len(),
{
    reveal(leads);
    reveal(plugged);
    if fs.len() > 0 {
        let m = carried(fs.drop_last(), a, also)->0;
        lemma_filled(fs.last(), body, m, also);
        lemma_plugged(fs.drop_last(), filled(fs.last(), body), a, m, also);
    }
}

/// What is bound in front of an environment.
pub proof fn lemma_produced(
    st: St,
    frames: Seq<FrameV>,
    op: ExternV,
    args: Seq<Name>,
    env: Seq<Name>,
    ty: Option<Ty>,
    name: Option<Name>,
    a: Seq<Name>,
    also: Set<Name>,
)
    requires
        within(args, env),
    ensures
        ({
            let p = produced(st, frames, op, args, env, ty, name);
            &&& leads(frames, a, env, also) ==> leads(p.frames, a, p.env, also)
            &&& p.env == seq![p.x] + env
            &&& within(env, p.env)
            &&& p.env.contains(p.x)
            &&& p.x == (if name is Some {
                name->0
            } else {
                st.next_name
            })
            &&& name is None ==> p.st.next_name == bump(st.next_name)
            &&& name is Some ==> p.st.next_name == st.next_name
        }),
{
    reveal(produced);
    super::stride::lemma_typed(st, ty);
    let p = produced(st, frames, op, args, env, ty, name);
    lemma_front(p.x, env);
    if leads(frames, a, env, also) {
        lemma_leads_on(frames, FrameV::Bind { op, args, params: p.env }, a, env, also);
    }
}

pub proof fn lemma_built(
    st: St,
    frames: Seq<FrameV>,
    ctor: Sym,
    tag: Tag,
    fields: Seq<Name>,
    env: Seq<Name>,
    ty: Option<Ty>,
    name: Option<Name>,
    a: Seq<Name>,
    also: Set<Name>,
)
    requires
        within(fields, env),
    ensures
        ({
            let p = built(st, frames, ctor, tag, fields, env, ty, name);
            &&& leads(frames, a, env, also) ==> leads(p.frames, a, p.env, also)
            &&& p.env == seq![p.x] + env
            &&& within(env, p.env)
            &&& p.env.contains(p.x)
            &&& p.x == (if name is Some {
                name->0
            } else {
                st.next_name
            })
            &&& name is None ==> p.st.next_name == bump(st.next_name)
            &&& name is Some ==> p.st.next_name == st.next_name
        }),
{
    reveal(built);
    super::stride::lemma_typed(st, ty);
    let p = built(st, frames, ctor, tag, fields, env, ty, name);
    lemma_front(p.x, env);
    if leads(frames, a, env, also) {
        lemma_leads_on(frames, FrameV::Build { name: p.x, tag, ctor, fields }, a, env, also);
    }
}

pub proof fn lemma_made(
    st: St,
    captures: Seq<Name>,
    method: BlockV,
    env: Seq<Name>,
    name: Option<Name>,
    also: Set<Name>,
)
    requires
        within(captures, env),
    ensures
        ({
            let p = made(st, captures, method, env, name);
            &&& drawn(method.body, method.params, also) ==> leads(p.frames, env, p.env, also)
            &&& p.env == seq![p.x] + env
            &&& within(env, p.env)
            &&& p.env.contains(p.x)
            &&& p.x == (if name is Some {
                name->0
            } else {
                st.next_name
            })
            &&& name is None ==> p.st.next_name == bump(st.next_name)
            &&& name is Some ==> p.st.next_name == st.next_name
        }),
{
    reveal(made);
    let p = made(st, captures, method, env, name);
    lemma_front(p.x, env);
    if drawn(method.body, method.params, also) {
        lemma_leads_one(FrameV::Object { name: p.x, captures, method }, env, also);
    }
}

pub proof fn lemma_with_descs(st: St, tys: Seq<Ty>, n: nat, env: Seq<Name>)
    requires
        all_descs(st, st.tscope),
    ensures
        ({
            let d = with_descs(st, tys, n, env);
            &&& leads(d.frames, env, d.env, st.descs)
            &&& within(env, d.env)
            &&& found(d.done, d.env, st.descs)
            &&& d.st.tscope == st.tscope
            &&& d.st.descs == st.descs
        }),
    decreases n,
{
    reveal_with_fuel(with_descs, 2);
    if n == 0 || n > tys.len() {
        lemma_leads_nowhere(env, st.descs);
    } else {
        lemma_with_descs(st, tys, (n - 1) as nat, env);
        let a = with_descs(st, tys, (n - 1) as nat, env);
        let d: u8 = match desc_of(tys[n - 1]) {
            Some(d) => d,
            None => desc::ANY,
        };
        lemma_produced(
            a.st,
            a.frames,
            ExternV::Lit(Lit::Int(d as i64)),
            Seq::empty(),
            a.env,
            Some(named(symbol::INT)),
            None,
            env,
            st.descs,
        );
        super::stride::lemma_produced(
            a.st,
            a.frames,
            ExternV::Lit(Lit::Int(d as i64)),
            Seq::empty(),
            a.env,
            Some(named(symbol::INT)),
            None,
        );
        let r = with_descs(st, tys, n, env);
        lemma_push(a.done, r.done.last());
        if let Ty::Var(v) = tys[n - 1] {
            lemma_desc_name(st, v);
            lemma_desc_name(a.st, v);
        }
    }
}

proof fn lemma_desc_name(st: St, v: u32)
    requires
        all_descs(st, st.tscope),
    ensures
        st.desc_name(v) is Some ==> st.descs.contains(st.desc_name(v)->0),
{
    super::stride::lemma_among(st.tscope, v, st.tscope.len());
}

/// The second of each of the first `n` pairs is there.
pub open spec fn sources(binds: Seq<(Name, Name)>, env: Seq<Name>) -> bool {
    forall|i: int| 0 <= i < binds.len() ==> env.contains((#[trigger] binds[i]).1)
}

pub proof fn lemma_bind_vars(binds: Seq<(Name, Name)>, n: nat, env: Seq<Name>, also: Set<Name>)
    requires
        sources(binds, env),
        n <= binds.len(),
    ensures
        leads(bind_vars(binds, n, env).0, env, bind_vars(binds, n, env).1, also),
        within(env, bind_vars(binds, n, env).1),
        forall|i: int| 0 <= i < n ==> bind_vars(binds, n, env).1.contains((#[trigger] binds[i]).0),
    decreases n,
{
    if n == 0 {
        lemma_leads_nowhere(env, also);
    } else {
        lemma_bind_vars(binds, (n - 1) as nat, env, also);
        let (fs, env1) = bind_vars(binds, (n - 1) as nat, env);
        lemma_renamed(binds[n - 1].1, binds[n - 1].0, env1, also);
        lemma_leads_on(fs, rename_v(binds[n - 1].1, binds[n - 1].0, env1), env, env1, also);
    }
}

pub proof fn lemma_renamed(x: Name, v: Name, env: Seq<Name>, also: Set<Name>)
    requires
        env.contains(x),
    ensures
        fits(rename_v(x, v, env), env, also),
        within(env, env.push(v)),
        env.push(v).contains(v),
{
    lemma_push(env, x);
    lemma_push(env, v);
}

pub proof fn lemma_take_fields(occ: Name, fields: Seq<(usize, Name)>, n: nat, env: Seq<Name>, also: Set<Name>)
    requires
        env.contains(occ),
        n <= fields.len(),
    ensures
        leads(take_fields(occ, fields, n, env).0, env, take_fields(occ, fields, n, env).1, also),
        within(env, take_fields(occ, fields, n, env).1),
        forall|i: int| 0 <= i < n ==> take_fields(occ, fields, n, env).1.contains((#[trigger] fields[i]).1),
    decreases n,
{
    if n == 0 {
        lemma_leads_nowhere(env, also);
    } else {
        lemma_take_fields(occ, fields, (n - 1) as nat, env, also);
        let (fs, env1) = take_fields(occ, fields, (n - 1) as nat, env);
        let (i, x) = fields[n - 1];
        lemma_front(x, env1);
        lemma_leads_on(
            fs,
            FrameV::Bind { op: ExternV::Field(i), args: seq![occ], params: seq![x] + env1 },
            env,
            env1,
            also,
        );
    }
}

// --- terms started and finished ---

/// Term `b` was started in `env`.
pub open spec fn from(b: BoundV, env: Seq<Name>) -> bool {
    &&& b.outer == env
    &&& b.env.contains(b.x)
    &&& b.simple ==> within(env, b.env)
    &&& !b.simple ==> within(b.keep, env) && b.env == b.keep.push(b.x)
    &&& within(b.keep, b.env)
}

/// And what it does in place uses only names it has.
pub open spec fn placed(b: BoundV, also: Set<Name>) -> bool {
    b.simple ==> leads(b.frames, b.outer, b.env, also)
}

pub proof fn lemma_begin(
    st: St,
    e: Term,
    env: Seq<Name>,
    keep: Seq<Name>,
    name: Option<Name>,
    p: PreV,
    lo: u32,
)
    requires
        within(keep, env),
        simple(e, env) ==> within(env, p.env) && p.env.contains(p.x),
        simple(e, env) ==> p.st.next_name < LAST ==> leads(p.frames, env, p.env, p.st.descs),
        simple(e, env) ==> p.st.next_name < LAST ==> p.x < p.st.next_name,
        simple(e, env) ==> name is Some ==> p.x == name->0,
        brought(st),
        simple(e, env) ==> brought(p.st),
        name is Some ==> name->0 < lo && lo <= st.next_name,
    ensures
        ({
            let r = begin(st, e, env, keep, name, p);
            &&& from(r.1, env)
            &&& r.1.keep == keep
            &&& r.1.simple == simple(e, env)
            &&& r.0.next_name < LAST ==> placed(r.1, r.0.descs)
            &&& r.0.next_name < LAST ==> r.1.x < r.0.next_name
            &&& brought(r.0)
            &&& name is Some ==> r.1.x == name->0
        }),
{
    reveal(begin);
    reveal(started);
    reveal(waiting);
    let r = begin(st, e, env, keep, name, p);
    if !simple(e, env) {
        super::stride::lemma_begin(st, e, env, keep, name, p);
        lemma_brought(st, r.0);
        lemma_push(keep, r.1.x);
        let st1 = st.fresh_ref().framed(st.next_name);
        super::stride::lemma_typed(st1, super::types::type_of(st1, e));
    }
}

pub proof fn lemma_ended(st: St, b: BoundV, body: StmtV, r: (St, StmtV), env: Seq<Name>, also: Set<Name>)
    requires
        from(b, env),
        placed(b, also),
        drawn(body, b.env, also),
        !b.simple ==> drawn(r.1, seq![b.kk] + b.outer, also),
    ensures
        drawn(ended(st, b, body, r).1, env, also),
{
    reveal(ended);
    reveal(answered);
    if b.simple {
        lemma_plugged(b.frames, body, env, b.env, also);
    } else {
        lemma_draw_object(b.kk, b.keep, BlockV { params: b.env, body }, r.1, env, also);
    }
}

/// Terms started one behind the other lead from `a` to `b`.
pub open spec fn chained(bs: Seq<BoundV>, a: Seq<Name>, b: Seq<Name>) -> bool
    decreases bs.len(),
{
    if bs.len() == 0 {
        a == b
    } else {
        from(bs.last(), bs.last().outer) && bs.last().env == b && chained(bs.drop_last(), a, bs.last().outer)
    }
}

pub proof fn lemma_chained(bs: Seq<BoundV>, x: BoundV, a: Seq<Name>, b: Seq<Name>)
    requires
        chained(bs, a, b),
        from(x, b),
    ensures
        chained(bs.push(x), a, x.env),
{
    assert(bs.push(x).drop_last() =~= bs);
}

// --- patterns ---

/// A pattern matched in `env`.
pub open spec fn matches(m: MatchedV, env: Seq<Name>, also: Set<Name>) -> bool {
    leads(m.frames, env, m.env, also) && within(env, m.env)
}

pub proof fn lemma_through(a: Seq<Name>, b: Seq<Name>, c: Seq<Name>)
    requires
        within(a, b),
        within(b, c),
    ensures
        within(a, c),
{
}

pub proof fn lemma_args(x: Name, env: Seq<Name>)
    requires
        env.contains(x),
    ensures
        within(seq![x], env),
{
    let s = seq![x];
    assert forall|y: Name| #[trigger] s.contains(y) implies env.contains(y) by {}
}

pub proof fn lemma_args2(x: Name, y: Name, env: Seq<Name>)
    requires
        env.contains(x),
        env.contains(y),
    ensures
        within(seq![x, y], env),
{
    let s = seq![x, y];
    assert forall|z: Name| #[trigger] s.contains(z) implies env.contains(z) by {}
}

/// Each of some names is in the environment.
pub open spec fn placed_at(got: Seq<(usize, Name)>, env: Seq<Name>) -> bool {
    forall|i: int| 0 <= i < got.len() ==> env.contains((#[trigger] got[i]).1)
}

pub proof fn lemma_named(st: St, types: Option<Seq<Ty>>, subs: Seq<Pat>, n: nat)
    requires
        n <= subs.len(),
    ensures
        name_fields(st, types, subs, n).1.len() == n,
    decreases n,
{
    if n > 0 {
        lemma_named(st, types, subs, (n - 1) as nat);
    }
}

proof fn lemma_read_fields(st: St, subs: Seq<Pat>, subject: Name, n: nat, env: Seq<Name>, also: Set<Name>)
    requires
        env.contains(subject),
    ensures
        matches(read_fields(st, subs, subject, n, env).0, env, also),
        placed_at(read_fields(st, subs, subject, n, env).1, read_fields(st, subs, subject, n, env).0.env),
    decreases n,
{
    if n == 0 || n > subs.len() {
        lemma_leads_nowhere(env, also);
    } else {
        lemma_read_fields(st, subs, subject, (n - 1) as nat, env, also);
        let (m, got) = read_fields(st, subs, subject, (n - 1) as nat, env);
        let ty = field_type(positional(m.st.type_of_name(subject), (n - 1) as nat), subs[n - 1]);
        lemma_args(subject, m.env);
        lemma_produced(
            m.st,
            m.frames,
            ExternV::Field((n - 1) as usize),
            seq![subject],
            m.env,
            ty,
            None,
            env,
            also,
        );
    }
}

proof fn lemma_match_pat(st: St, p: Pat, subject: Name, env: Seq<Name>, fail: Name, also: Set<Name>)
    requires
        env.contains(subject),
        env.contains(fail) || never_fails(p),
    ensures
        matches(match_pat(st, p, subject, env, fail), env, also),
    decreases p, 0nat,
{
    match p {
        Pat::Wild => {
            lemma_leads_nowhere(env, also);
        },
        Pat::Var(v, _) => {
            lemma_renamed(subject, v, env, also);
            lemma_leads_one(rename_v(subject, v, env), env, also);
        },
        Pat::As(v, _, sub) => {
            lemma_renamed(subject, v, env, also);
            lemma_leads_one(rename_v(subject, v, env), env, also);
            lemma_match_pat(st, *sub, subject, env.push(v), fail, also);
            let m = match_pat(st, *sub, subject, env.push(v), fail);
            lemma_leads_both(seq![rename_v(subject, v, env)], m.frames, env, env.push(v), m.env, also);
        },
        Pat::Lit(l) => {
            lemma_args(subject, env);
            lemma_leads_one(
                FrameV::Test { op: ExternV::BranchPrimK(Prim::Eq, l), args: seq![subject], env, miss: fail },
                env,
                also,
            );
        },
        Pat::Ctor(c, subs) => {
            let st1 = st.tagged(c);
            let of = st1.type_of_name(subject);
            let (st2, names) = field_names(st1, c, subs@, of);
            assert(decreases_to!(p => subs@));
            lemma_both(names, env);
            assert(names.len() == paired(names, subs@.len()).len()) by {
                lemma_named(st1, super::types::field_types(st1, c, of), subs@, subs@.len());
            }
            assert forall|i: int| 0 <= i < paired(names, subs@.len()).len() implies (names + env).contains(
                (#[trigger] paired(names, subs@.len())[i]).1,
            ) by {
                assert(names.contains(names[i]));
            }
            lemma_match_all(st2, subs@, paired(names, subs@.len()), names.len(), names + env, fail, also);
            let m = match_all(st2, subs@, paired(names, subs@.len()), names.len(), names + env, fail);
            let f = FrameV::Only { subject, tag: st.tag(c), arm_env: names + env, env, miss: fail };
            lemma_leads_one(f, env, also);
            lemma_leads_both(seq![f], m.frames, env, names + env, m.env, also);
            lemma_through(env, names + env, m.env);
        },
        Pat::Tuple(subs) => {
            lemma_read_fields(st, subs@, subject, subs@.len(), env, also);
            let (r, got) = read_fields(st, subs@, subject, subs@.len(), env);
            assert(decreases_to!(p => subs@));
            lemma_match_all(r.st, subs@, got, got.len(), r.env, fail, also);
            let m = match_all(r.st, subs@, got, got.len(), r.env, fail);
            lemma_leads_both(r.frames, m.frames, env, r.env, m.env, also);
        },
        Pat::Array(subs) => {
            let op = ExternV::Prim(Prim::ArrayLen);
            lemma_args(subject, env);
            lemma_leads_nowhere(env, also);
            lemma_produced(st, Seq::empty(), op, seq![subject], env, Some(named(symbol::INT)), None, env, also);
            let n = produced(st, Seq::empty(), op, seq![subject], env, Some(named(symbol::INT)), None);
            let test = FrameV::Test {
                op: ExternV::BranchPrimK(Prim::Eq, Lit::Int(subs@.len() as i64)),
                args: seq![n.x],
                env: n.env,
                miss: fail,
            };
            lemma_args(n.x, n.env);
            lemma_leads_on(n.frames, test, env, n.env, also);
            lemma_read_fields(n.st, subs@, subject, subs@.len(), n.env, also);
            let (r, got) = read_fields(n.st, subs@, subject, subs@.len(), n.env);
            assert(decreases_to!(p => subs@));
            lemma_match_all(r.st, subs@, got, got.len(), r.env, fail, also);
            let m = match_all(r.st, subs@, got, got.len(), r.env, fail);
            lemma_leads_both(n.frames.push(test), r.frames, env, n.env, r.env, also);
            lemma_leads_both(n.frames.push(test) + r.frames, m.frames, env, r.env, m.env, also);
        },
        Pat::Record(fs) => {
            assert(decreases_to!(p => fs@));
            lemma_match_labels(st, fs@, fs@.len(), subject, env, fail, also);
        },
    }
}

proof fn lemma_match_all(st: St, subs: Seq<Pat>, got: Seq<(usize, Name)>, n: nat, env: Seq<Name>, fail: Name, also: Set<Name>)
    requires
        placed_at(got, env),
        env.contains(fail) || forall|j: int| 0 <= j < subs.len() ==> never_fails(#[trigger] subs[j]),
    ensures
        matches(match_all(st, subs, got, n, env, fail), env, also),
    decreases subs, n,
{
    if n == 0 || n > got.len() {
        lemma_leads_nowhere(env, also);
    } else {
        lemma_match_all(st, subs, got, (n - 1) as nat, env, fail, also);
        let a = match_all(st, subs, got, (n - 1) as nat, env, fail);
        let (j, x) = got[n - 1];
        if j < subs.len() {
            assert(decreases_to!(subs => subs[j as int]));
            lemma_match_pat(a.st, subs[j as int], x, a.env, fail, also);
            let m = match_pat(a.st, subs[j as int], x, a.env, fail);
            lemma_leads_both(a.frames, m.frames, env, a.env, m.env, also);
        }
    }
}

proof fn lemma_match_labels(st: St, fs: Seq<(Sym, Pat)>, n: nat, subject: Name, env: Seq<Name>, fail: Name, also: Set<Name>)
    requires
        env.contains(subject),
        env.contains(fail) || forall|j: int| 0 <= j < fs.len() ==> never_fails((#[trigger] fs[j]).1),
    ensures
        matches(match_labels(st, fs, n, subject, env, fail), env, also),
    decreases fs, n,
{
    if n == 0 || n > fs.len() {
        lemma_leads_nowhere(env, also);
    } else {
        lemma_match_labels(st, fs, (n - 1) as nat, subject, env, fail, also);
        let a = match_labels(st, fs, (n - 1) as nat, subject, env, fail);
        let ty = field_type(label_type(a.st.type_of_name(subject), fs[n - 1].0), fs[n - 1].1);
        lemma_args(subject, a.env);
        lemma_produced(a.st, a.frames, ExternV::Select(fs[n - 1].0), seq![subject], a.env, ty, None, env, also);
        let p = produced(a.st, a.frames, ExternV::Select(fs[n - 1].0), seq![subject], a.env, ty, None);
        assert(decreases_to!(fs => fs[n - 1]));
        lemma_match_pat(p.st, fs[n - 1].1, p.x, p.env, fail, also);
        let m = match_pat(p.st, fs[n - 1].1, p.x, p.env, fail);
        lemma_leads_both(p.frames, m.frames, env, p.env, m.env, also);
    }
}

pub proof fn lemma_tried(st: St, p: Pat, subject: Name, env: Seq<Name>, fail: Name, also: Set<Name>)
    requires
        env.contains(subject),
        env.contains(fail) || never_fails(p),
    ensures
        matches(tried(st, p, subject, env, fail), env, also),
{
    reveal(tried);
    lemma_match_pat(st, p, subject, env, fail, also);
}

pub proof fn lemma_arm_tests(st: St, c: Sym, subs: Seq<Pat>, of: Option<Ty>, env: Seq<Name>, fail: Name, also: Set<Name>)
    requires
        env.contains(fail) || forall|j: int| 0 <= j < subs.len() ==> never_fails(#[trigger] subs[j]),
    ensures
        matches(arm_tests(st, c, subs, of, env, fail).m, arm_tests(st, c, subs, of, env, fail).arm_env, also),
        within(env, arm_tests(st, c, subs, of, env, fail).arm_env),
{
    reveal(arm_tests);
    let (st2, fields) = field_names(st.tagged(c), c, subs, of);
    lemma_both(fields, env);
    assert forall|i: int| 0 <= i < paired(fields, subs.len()).len() implies (fields + env).contains(
        (#[trigger] paired(fields, subs.len())[i]).1,
    ) by {
        assert(fields.contains(fields[i]));
    }
    lemma_match_all(st2, subs, paired(fields, subs.len()), fields.len(), fields + env, fail, also);
}

// --- operations ---

proof fn lemma_native(
    st: St,
    effect: Sym,
    op: Sym,
    av: Name,
    k: Name,
    env: Seq<Name>,
    res_ty: Option<Ty>,
    also: Set<Name>,
)
    requires
        env.contains(av),
        env.contains(k),
    ensures
        drawn(native(st, effect, op, av, k, env, res_ty).1, env, also),
{
    let x = ExternV::Native(effect, op);
    lemma_leads_nowhere(env, also);
    lemma_args(av, env);
    lemma_produced(st, Seq::empty(), x, seq![av], env, res_ty, None, env, also);
    let p = produced(st, Seq::empty(), x, seq![av], env, res_ty, None);
    lemma_draw_ret(k, p.x, p.env, also);
    lemma_plugged(p.frames, ret_v(k, p.x), env, p.env, also);
}

proof fn lemma_resumption(
    st: St,
    k: Name,
    target: Name,
    taken: Name,
    seg: Name,
    ty: Option<Ty>,
    also: Set<Name>,
)
    ensures
        drawn(
            resumption(st, k, target, taken, seg, ty).1.body,
            resumption(st, k, target, taken, seg, ty).1.params,
            also,
        ),
{
    let v = st.next_name;
    let st1 = st.fresh_typed(ty);
    let c = st1.next_name;
    let st2 = st1.fresh_ref();
    let ev = st2.next_name;
    let st3 = st2.fresh_ref();
    let st4 = St { returns: st3.returns.insert(c), ..st3 };
    let params = seq![taken, k, target, seg, v, c, ev];
    let first = st4.next_name;
    let st5 = st4.fresh_as(Rep::Bits(desc::BOOL));
    let at_first = seq![first] + params;
    let u = st5.next_name;
    let st6 = st5.fresh_as(Rep::Bits(desc::UNIT));
    let at_u = seq![u] + at_first;
    let back = st6.next_name;
    let at_back = seq![back] + at_u;
    let again = StmtV::Error("continuation resumed more than once"@);
    let inner = one_v(ExternV::Prim(Prim::Reattach), seq![seg], at_back, ret_v(k, v));
    let go = one_v(ExternV::Prim(Prim::SetRef), seq![target, c], at_u, inner);
    let test = two_v(ExternV::Branch, seq![first], at_first, again, go);
    assert(params[0] == taken && params[1] == k && params[2] == target && params[3] == seg && params[4] == v
        && params[5] == c);
    lemma_front(back, at_u);
    lemma_front(u, at_first);
    lemma_front(first, params);
    lemma_draw_ret(k, v, at_back, also);
    lemma_draw_error(at_first, also);
    lemma_args(seg, at_u);
    lemma_draw_one(ExternV::Prim(Prim::Reattach), seq![seg], at_back, ret_v(k, v), at_u, also);
    lemma_args2(target, c, at_first);
    lemma_draw_one(ExternV::Prim(Prim::SetRef), seq![target, c], at_u, inner, at_first, also);
    lemma_args(first, at_first);
    lemma_draw_two(ExternV::Branch, seq![first], at_first, again, go, also);
    lemma_args(taken, params);
    lemma_draw_one(ExternV::Prim(Prim::TakeOnce), seq![taken], at_first, test, params, also);
}

proof fn lemma_dispatch(
    st: St,
    tail: bool,
    clause: Name,
    target: Name,
    av: Name,
    k: Name,
    env: Seq<Name>,
    res_ty: Option<Ty>,
    also: Set<Name>,
)
    requires
        env.contains(clause),
        env.contains(target),
        env.contains(av),
        env.contains(k),
    ensures
        drawn(dispatch(st, tail, clause, target, av, k, env, res_ty).1, env, also),
{
    if tail {
        lemma_draw_invoke(seq![clause, av, k], clause, env, also);
    } else {
        let flag = st.next_name;
        let st1 = st.fresh_as(Rep::Bits(desc::UNIT));
        let taken = st1.next_name;
        let st2 = st1.fresh_ref();
        let seg = st2.next_name;
        let st3 = st2.fresh_ref();
        let r = st3.next_name;
        let st4 = st3.fresh_ref();
        let kh = st4.next_name;
        let st5 = st4.fresh_ref();
        let env1 = seq![flag] + env;
        let env2 = seq![taken] + env1;
        let env3 = seq![seg] + env2;
        let env4 = seq![r] + env3;
        let env5 = seq![kh] + env4;
        let enter = invoke_v(seq![clause, av, r, kh], clause);
        lemma_resumption(st5, k, target, taken, seg, res_ty, also);
        let (st6, resume) = resumption(st5, k, target, taken, seg, res_ty);
        let get = one_v(ExternV::Prim(Prim::GetRef), seq![target], env5, enter);
        let object = new_v(r, seq![taken, k, target, seg], resume, get);
        let cut = one_v(ExternV::Prim(Prim::Detach), seq![target], env3, object);
        let once = one_v(ExternV::Prim(Prim::Once), seq![flag], env2, cut);
        lemma_front(flag, env);
        lemma_front(taken, env1);
        lemma_front(seg, env2);
        lemma_front(r, env3);
        lemma_front(kh, env4);
        lemma_draw_invoke(seq![clause, av, r, kh], clause, env5, also);
        lemma_args(target, env4);
        lemma_draw_one(ExternV::Prim(Prim::GetRef), seq![target], env5, enter, env4, also);
        assert(within(seq![taken, k, target, seg], env3));
        lemma_draw_object(r, seq![taken, k, target, seg], resume, get, env3, also);
        lemma_args(target, env2);
        lemma_draw_one(ExternV::Prim(Prim::Detach), seq![target], env3, object, env2, also);
        lemma_args(flag, env1);
        lemma_draw_one(ExternV::Prim(Prim::Once), seq![flag], env2, cut, env1, also);
        lemma_draw_one(ExternV::Lit(Lit::Unit), Seq::empty(), env1, once, env, also);
    }
}

proof fn lemma_search_arm(
    st: St,
    label: u32,
    ctor: Sym,
    tail: bool,
    key: Sym,
    params: Seq<Name>,
    res_ty: Option<Ty>,
    also: Set<Name>,
)
    requires
        params.len() == 3,
    ensures
        drawn(
            search_arm(st, label, ctor, tail, key, params, res_ty).1.1.body,
            search_arm(st, label, ctor, tail, key, params, res_ty).1.1.params,
            also,
        ),
{
    let ekey = st.next_name;
    let st1 = st.fresh_as(Rep::Str);
    let clause = st1.next_name;
    let st2 = st1.fresh_ref();
    let target = st2.next_name;
    let st3 = st2.fresh_ref();
    let rest = st3.next_name;
    let st4 = st3.fresh_ref();
    let front = seq![ekey, clause, target, rest];
    let fields = front + params;
    lemma_both(front, params);
    assert(front[0] == ekey && front[1] == clause && front[2] == target && front[3] == rest);
    assert(params.contains(params[1]) && params.contains(params[2]));
    lemma_dispatch(st4, tail, clause, target, params[1], params[2], fields, res_ty, also);
    let (st5, hit) = dispatch(st4, tail, clause, target, params[1], params[2], fields, res_ty);
    let next = sub_v(seq![rest, params[1], params[2]], params, StmtV::Jump(Label(label)));
    lemma_draw_arranged(seq![rest, params[1], params[2]], params, Label(label), fields, also);
    lemma_args(ekey, fields);
    lemma_draw_two(ExternV::BranchPrimK(Prim::Eq, Lit::Sym(key)), seq![ekey], fields, next, hit, also);
}

pub proof fn lemma_operation(
    kd: Kinds,
    st: St,
    effect: Sym,
    op: Sym,
    av: Name,
    k: Name,
    ev: Name,
    arg_ty: Option<Ty>,
    res_ty: Option<Ty>,
    env: Seq<Name>,
    ls: Set<Var>,
)
    requires
        okay(kd, st),
        brought(st),
        env.contains(ev),
        env.contains(av),
        env.contains(k),
    ensures
        brought(perform(st, effect, op, av, k, ev, arg_ty, res_ty).0),
        drawn(perform(st, effect, op, av, k, ev, arg_ty, res_ty).1, env, st.descs),
{
    super::went::lemma_operation(kd, st, effect, op, av, k, ev, arg_ty, res_ty, ls);
    let out = perform(st, effect, op, av, k, ev, arg_ty, res_ty).0;
    lemma_went(kd, st, out, ls);
    reveal(perform);
    let also = st.descs;
    let label = st.next_label;
    let st1 = st.fresh_label();
    let e = st1.next_name;
    let st2 = st1.fresh_ref();
    let a = st2.next_name;
    super::stride::lemma_typed(st2, arg_ty);
    let st3 = st2.fresh_typed(arg_ty);
    let kk = st3.next_name;
    let st4 = st3.fresh_ref();
    let params = seq![e, a, kk];
    assert(params[0] == e && params[1] == a && params[2] == kk);
    let key = st4.symbol(st4.key(effect, op));
    let st5 = st4.interned(st4.key(effect, op));
    lemma_search_arm(st5, label, symbol::EV, false, key, params, res_ty, also);
    let (st6, arm0) = search_arm(st5, label, symbol::EV, false, key, params, res_ty);
    lemma_search_arm(st6, label, symbol::EV_TAIL, true, key, params, res_ty, also);
    let (st7, arm1) = search_arm(st6, label, symbol::EV_TAIL, true, key, params, res_ty);
    lemma_native(st7, effect, op, a, kk, params, res_ty, also);
    let (st8, none) = native(st7, effect, op, a, kk, params, res_ty);
    lemma_draw_switch(e, seq![arm0, arm1], params, none, params, also);
    let name = st8.symbol(search_name(st8, effect, op));
    let st9 = st8.interned(search_name(st8, effect, op));
    let block = BlockV { params, body: switch_v(e, seq![arm0, arm1], params, none) };
    assert(out == st9.wrote(label, name, block));
    super::whole::lemma_search_arm(st5, label, symbol::EV, false, key, params, res_ty);
    super::whole::lemma_search_arm(st6, label, symbol::EV_TAIL, true, key, params, res_ty);
    super::whole::lemma_native(st7, effect, op, a, kk, params, res_ty);
    assert(st9.defs == st.defs);
    reveal(brought);
    assert(within(seq![ev, av, k], env));
    lemma_draw_goto(seq![ev, av, k], Label(label), env, also);
}

} // verus!
