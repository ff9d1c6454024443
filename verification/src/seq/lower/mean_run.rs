//! Running what lowering writes: the steps the machine takes through it.

use super::frame::{filled, plugged, FrameV};
use super::mean::{prim_value, World};
use crate::seq::ir::{Block, Extern, Name, Statement, Tag};
use crate::seq::machine::laws::{a_value_in_front_is_what_its_name_holds, all_hold, lemma_looked};
use crate::seq::machine::run::runs;
use crate::seq::machine::state::{holds, literal, name_at, OutV, Stepped, S};
use crate::seq::machine::trans::stepped;
use crate::seq::machine::value::ValueV;
use crate::seq::view::{let_v, new_v, one_v, ret_v, stmt_view, sub_v, two_v, BlockV, ExternV, StmtV};
use crate::terms::prim::{Lit, Prim};
use crate::terms::symbol::Sym;
use vstd::prelude::*;

verus! {

/// The machine is at a statement, where `env` names the environment.
pub open spec fn at(w: World, s: S, stmt: StmtV, env: Seq<Name>) -> bool {
    &&& stmt_view(s.stmt) == stmt
    &&& s.names == env
    &&& s.env.len() == env.len()
    &&& s.heap == w.heap
}

/// The machine goes on from `s` to `t`.
pub open spec fn reach(w: World, s: S, t: S) -> bool {
    exists|n: nat| #[trigger] runs(w.p, s, n) == Stepped::Ok((t, OutV::Next))
}

/// The program declares no representations, so that no value is refused.
pub open spec fn unchecked(w: World) -> bool {
    w.p.reps@.len() == 0
}

/// The names of `ns` hold what they did.
pub open spec fn keeps(s: S, t: S, ns: Seq<Name>) -> bool {
    forall|n: Name| #[trigger] ns.contains(n) ==> holds(t, n) == holds(s, n)
}

pub proof fn lemma_reach_now(w: World, s: S)
    ensures
        reach(w, s, s),
{
    assert(runs(w.p, s, 0) == Stepped::Ok((s, OutV::Next)));
}

pub proof fn lemma_reach_step(w: World, s: S, t: S)
    requires
        stepped(w.p, s) == Stepped::Ok((t, OutV::Next)),
    ensures
        reach(w, s, t),
{
    assert(runs(w.p, t, 0) == Stepped::Ok((t, OutV::Next)));
    assert(runs(w.p, s, 1) == Stepped::Ok((t, OutV::Next)));
}

proof fn lemma_runs(w: World, s: S, i: nat, n: nat, t: S)
    requires
        runs(w.p, s, i) == Stepped::Ok((t, OutV::Next)),
    ensures
        runs(w.p, s, i + n) == runs(w.p, t, n),
    decreases i,
{
    if i > 0 {
        if let Ok((u, OutV::Next)) = stepped(w.p, s) {
            lemma_runs(w, u, (i - 1) as nat, n, t);
        }
    }
}

pub proof fn lemma_reach_then(w: World, s: S, t: S, u: S)
    requires
        reach(w, s, t),
        reach(w, t, u),
    ensures
        reach(w, s, u),
{
    let i = choose|i: nat| #[trigger] runs(w.p, s, i) == Stepped::Ok((t, OutV::Next));
    let n = choose|n: nat| #[trigger] runs(w.p, t, n) == Stepped::Ok((u, OutV::Next));
    lemma_runs(w, s, i, n, t);
    assert(runs(w.p, s, i + n) == Stepped::Ok((u, OutV::Next)));
}

// --- names ---

proof fn lemma_name_at(ns: Seq<Name>, n: Name, i: nat)
    requires
        i <= ns.len(),
    ensures
        i <= name_at(ns, n, i) <= ns.len(),
        name_at(ns, n, i) < ns.len() ==> ns[name_at(ns, n, i) as int] == n,
        forall|j: int| i <= j < name_at(ns, n, i) ==> #[trigger] ns[j] != n,
    decreases ns.len() - i,
{
    if i < ns.len() && ns[i as int] != n {
        lemma_name_at(ns, n, i + 1);
    }
}

proof fn lemma_first(ns: Seq<Name>, n: Name, from: nat, i: int)
    requires
        from <= i < ns.len(),
        ns[i] == n,
        forall|j: int| from <= j < i ==> #[trigger] ns[j] != n,
    ensures
        name_at(ns, n, from) == i,
    decreases i - from,
{
    if from < i {
        lemma_first(ns, n, from + 1, i);
    }
}

/// A name holds something exactly where the environment has it.
pub proof fn lemma_has(s: S, n: Name)
    requires
        s.names.len() == s.env.len(),
    ensures
        holds(s, n) is Some <==> s.names.contains(n),
{
    lemma_name_at(s.names, n, 0);
    if s.names.contains(n) {
        let i = choose|i: int| 0 <= i < s.names.len() && s.names[i] == n;
        assert(name_at(s.names, n, 0) <= i);
    }
}

/// A value put in front.
pub proof fn lemma_in_front(s: S, t: S, x: Name, v: ValueV)
    requires
        s.names.len() == s.env.len(),
        t.names == seq![x] + s.names,
        t.env == seq![v] + s.env,
        !s.names.contains(x),
    ensures
        holds(t, x) == Some(v),
        keeps(s, t, s.names),
{
    a_value_in_front_is_what_its_name_holds(s, t, x, v, x);
    assert forall|n: Name| #[trigger] s.names.contains(n) implies holds(t, n) == holds(s, n) by {
        a_value_in_front_is_what_its_name_holds(s, t, x, v, n);
    }
}

/// Values taken by their names, and one more behind them.
pub proof fn lemma_picked(s: S, t: S, keep: Seq<Name>, vs: Seq<ValueV>, x: Name, v: ValueV)
    requires
        all_hold(s, keep, vs),
        t.names == keep.push(x),
        t.env == vs.push(v),
        !keep.contains(x),
    ensures
        holds(t, x) == Some(v),
        keeps(s, t, keep),
{
    let n = keep.len() as int;
    assert(t.names[n] == x);
    assert forall|j: int| 0 <= j < n implies #[trigger] t.names[j] != x by {
        assert(keep[j] == t.names[j]);
        assert(keep.contains(keep[j]));
    }
    lemma_first(t.names, x, 0, n);
    assert(t.env[n] == v);
    assert forall|m: Name| #[trigger] keep.contains(m) implies holds(t, m) == holds(s, m) by {
        lemma_name_at(keep, m, 0);
        let i = name_at(keep, m, 0) as int;
        let k = choose|k: int| 0 <= k < keep.len() && keep[k] == m;
        assert(i <= k);
        assert(t.names[i] == m);
        assert forall|j: int| 0 <= j < i implies #[trigger] t.names[j] != m by {
            assert(t.names[j] == keep[j]);
        }
        lemma_first(t.names, m, 0, i);
        assert(holds(s, keep[i]) == Some(vs[i]));
        assert(t.env[i] == vs[i]);
    }
}

/// Names that are all there hold some values.
pub proof fn lemma_values(s: S, ns: Seq<Name>) -> (vs: Seq<ValueV>)
    requires
        s.names.len() == s.env.len(),
        forall|n: Name| #[trigger] ns.contains(n) ==> s.names.contains(n),
    ensures
        all_hold(s, ns, vs),
{
    let vs = Seq::new(ns.len(), |i: int| holds(s, ns[i])->0);
    assert forall|i: int| 0 <= i < ns.len() implies holds(s, #[trigger] ns[i]) == Some(vs[i]) by {
        assert(ns.contains(ns[i]));
        lemma_has(s, ns[i]);
    }
    vs
}

// --- statements ---

/// What an operation makes of its operands.
pub open spec fn op_value(w: World, op: ExternV, vs: Seq<ValueV>) -> Option<ValueV> {
    match op {
        ExternV::Lit(l) => Some(literal(l, w.p.symbols@)),
        ExternV::Prim(f) => prim_value(w, f, vs),
        ExternV::PrimK(f, l) => prim_value(w, f, vs.push(literal(l, w.p.symbols@))),
        ExternV::Array => Some(ValueV::Array(vs)),
        ExternV::Field(i) => if vs.len() == 1 {
            match vs[0] {
                ValueV::Data(_, _, fs) => if i < fs.len() {
                    Some(fs[i as int])
                } else {
                    None
                },
                _ => None,
            }
        } else {
            None
        },
        _ => None,
    }
}

proof fn lemma_fits(w: World, t: S, strict: bool, i: nat)
    requires
        unchecked(w),
    ensures
        crate::seq::machine::state::first_misfit(w.p, t, strict, i) is None,
    decreases t.names.len() - i,
{
    if i < t.names.len() && i < t.env.len() {
        lemma_fits(w, t, strict, i + 1);
    }
}

proof fn lemma_entered(w: World, s: S, b: Block, vals: Seq<ValueV>) -> (t: S)
    requires
        unchecked(w),
        b.params@.len() == vals.len(),
    ensures
        crate::seq::machine::state::entered(w.p, s, b, vals) == Stepped::Ok((t, OutV::Next)),
        t == (S { stmt: b.body, names: b.params@, env: vals, ..s }),
{
    let t = S { stmt: b.body, names: b.params@, env: vals, ..s };
    lemma_fits(w, t, crate::seq::describe::transfer(stmt_view(b.body)) is None, 0);
    t
}

/// An operation runs, and binds what it makes.
pub proof fn lemma_run_one(
    w: World,
    s: S,
    op: ExternV,
    args: Seq<Name>,
    x: Name,
    env: Seq<Name>,
    body: StmtV,
    vs: Seq<ValueV>,
    v: ValueV,
) -> (t: S)
    requires
        unchecked(w),
        at(w, s, one_v(op, args, seq![x] + env, body), env),
        all_hold(s, args, vs),
        op_value(w, op, vs) == Some(v),
        !env.contains(x),
    ensures
        reach(w, s, t),
        at(w, t, body, seq![x] + env),
        holds(t, x) == Some(v),
        keeps(s, t, env),
{
    reveal_with_fuel(stmt_view, 2);
    reveal(prim_value);
    reveal(stepped);
    let want = one_v(op, args, seq![x] + env, body);
    match s.stmt {
        Statement::Extern { op: o, args: names, blocks } => {
            let have = stmt_view(s.stmt)->Extern_blocks;
            assert(have.len() == 1);
            assert(have[0] == BlockV { params: seq![x] + env, body });
            let b = blocks@[0];
            assert(b.params@ == seq![x] + env && stmt_view(b.body) == body);
            lemma_looked(w.p, s, args, vs);
            let t = lemma_entered(w, s, b, seq![v] + s.env);
            assert(S { heap: s.heap, ..s } == s);
            lemma_reach_step(w, s, t);
            lemma_in_front(s, t, x, v);
            t
        },
        _ => s,
    }
}

/// Data is built and bound.
pub proof fn lemma_run_let(
    w: World,
    s: S,
    x: Name,
    tag: Tag,
    ctor: Sym,
    fields: Seq<Name>,
    env: Seq<Name>,
    body: StmtV,
    vs: Seq<ValueV>,
) -> (t: S)
    requires
        unchecked(w),
        at(w, s, let_v(x, tag, ctor, fields, body), env),
        all_hold(s, fields, vs),
        !env.contains(x),
    ensures
        reach(w, s, t),
        at(w, t, body, seq![x] + env),
        holds(t, x) == Some(ValueV::Data(ctor, tag, vs)),
        keeps(s, t, env),
{
    reveal_with_fuel(stmt_view, 2);
    reveal(stepped);
    match s.stmt {
        Statement::Let { name, tag: g, ctor: c, fields: fs, rest } => {
            let v = ValueV::Data(ctor, tag, vs);
            let t = S { stmt: *rest, names: seq![x] + s.names, env: seq![v] + s.env, ..s };
            lemma_looked(w.p, s, fields, vs);
            lemma_reach_step(w, s, t);
            lemma_in_front(s, t, x, v);
            t
        },
        _ => s,
    }
}

/// A value given another name, behind everything else.
pub proof fn lemma_run_rename(w: World, s: S, x: Name, y: Name, env: Seq<Name>, body: StmtV, v: ValueV) -> (t: S)
    requires
        unchecked(w),
        at(w, s, sub_v(env.push(x), env.push(y), body), env),
        holds(s, x) == Some(v),
        !env.contains(y),
    ensures
        reach(w, s, t),
        at(w, t, body, env.push(y)),
        holds(t, y) == Some(v),
        keeps(s, t, env),
{
    reveal_with_fuel(stmt_view, 2);
    reveal(stepped);
    match s.stmt {
        Statement::Substitute(sel, b) => {
            let vs = lemma_values(s, env);
            let all = vs.push(v);
            let names = env.push(x);
            assert forall|i: int| 0 <= i < names.len() implies holds(s, #[trigger] names[i]) == Some(all[i]) by {
                if i < env.len() {
                    assert(names[i] == env[i]);
                    assert(holds(s, env[i]) == Some(vs[i]));
                }
            }
            lemma_looked(w.p, s, names, all);
            let t = lemma_entered(w, s, *b, all);
            lemma_reach_step(w, s, t);
            lemma_picked(s, t, env, vs, y, v);
            t
        },
        _ => s,
    }
}

/// An object is made and bound.
pub proof fn lemma_run_new(
    w: World,
    s: S,
    x: Name,
    captures: Seq<Name>,
    method: BlockV,
    env: Seq<Name>,
    body: StmtV,
    vs: Seq<ValueV>,
) -> (r: (S, Vec<Block>))
    requires
        unchecked(w),
        at(w, s, new_v(x, captures, method, body), env),
        all_hold(s, captures, vs),
        !env.contains(x),
    ensures
        reach(w, s, r.0),
        at(w, r.0, body, seq![x] + env),
        holds(r.0, x) == Some(ValueV::Obj(vs, r.1)),
        keeps(s, r.0, env),
        r.1@.len() == 1,
        r.1@[0].params@ == method.params,
        stmt_view(r.1@[0].body) == method.body,
{
    reveal_with_fuel(stmt_view, 2);
    reveal(stepped);
    match s.stmt {
        Statement::New { name, captures: cs, methods, rest } => {
            let have = stmt_view(s.stmt)->New_methods;
            assert(have.len() == 1);
            assert(have[0] == method);
            let v = ValueV::Obj(vs, methods);
            let t = S { stmt: *rest, names: seq![x] + s.names, env: seq![v] + s.env, ..s };
            lemma_looked(w.p, s, captures, vs);
            lemma_reach_step(w, s, t);
            lemma_in_front(s, t, x, v);
            (t, methods)
        },
        _ => arbitrary(),
    }
}

/// The machine answers the continuation `kv` with `v`: it is about to enter `kv`, and all
/// there is besides is `v`.
pub open spec fn answering(w: World, t: S, kv: ValueV, v: ValueV) -> bool {
    &&& t.stmt is Invoke
    &&& t.stmt->Invoke_1 == 0
    &&& t.names.len() == 2
    &&& t.names[0] == t.stmt->Invoke_0
    &&& t.env == seq![kv, v]
    &&& t.heap == w.heap
}

/// The machine comes to answer `kv` with `v`.
pub open spec fn answers(w: World, s: S, kv: ValueV, v: ValueV) -> bool {
    exists|t: S| #[trigger] reach(w, s, t) && answering(w, t, kv, v)
}

/// A value is answered.
pub proof fn lemma_run_ret(w: World, s: S, k: Name, x: Name, env: Seq<Name>, kv: ValueV, v: ValueV)
    requires
        unchecked(w),
        at(w, s, ret_v(k, x), env),
        holds(s, k) == Some(kv),
        holds(s, x) == Some(v),
    ensures
        answers(w, s, kv, v),
{
    reveal_with_fuel(stmt_view, 3);
    reveal(stepped);
    match s.stmt {
        Statement::Substitute(sel, b) => {
            let names = seq![k, x];
            let all = seq![kv, v];
            assert forall|i: int| 0 <= i < names.len() implies holds(s, #[trigger] names[i]) == Some(all[i]) by {}
            lemma_looked(w.p, s, names, all);
            let t = lemma_entered(w, s, *b, all);
            lemma_reach_step(w, s, t);
            assert(answering(w, t, kv, v));
        },
        _ => {},
    }
}

/// An object that was answered is entered.
pub proof fn lemma_run_answered(w: World, t: S, captures: Seq<ValueV>, methods: Vec<Block>, v: ValueV) -> (u: S)
    requires
        unchecked(w),
        answering(w, t, ValueV::Obj(captures, methods), v),
        methods@.len() == 1,
        methods@[0].params@.len() == captures.len() + 1,
    ensures
        reach(w, t, u),
        u.stmt == methods@[0].body,
        u.names == methods@[0].params@,
        u.env == captures.push(v),
        u.heap == w.heap,
{
    reveal(stepped);
    let n = t.stmt->Invoke_0;
    lemma_first(t.names, n, 0, 0);
    assert(t.env.remove(0) =~= seq![v]);
    assert(captures + seq![v] =~= captures.push(v));
    let u = lemma_entered(w, t, methods@[0], captures.push(v));
    lemma_reach_step(w, t, u);
    u
}

/// A branch goes where it says.
pub proof fn lemma_run_two(
    w: World,
    s: S,
    op: ExternV,
    args: Seq<Name>,
    env: Seq<Name>,
    no: StmtV,
    yes: StmtV,
    vs: Seq<ValueV>,
    b: bool,
) -> (t: S)
    requires
        unchecked(w),
        at(w, s, two_v(op, args, env, no, yes), env),
        all_hold(s, args, vs),
        match op {
            ExternV::Branch => args.len() == 1 && vs[0] == ValueV::Bool(b),
            ExternV::BranchPrim(f) => prim_value(w, f, vs) == Some(ValueV::Bool(b)),
            ExternV::BranchPrimK(f, l) => prim_value(w, f, vs.push(literal(l, w.p.symbols@))) == Some(ValueV::Bool(b)),
            _ => false,
        },
    ensures
        reach(w, s, t),
        at(
            w,
            t,
            if b {
                yes
            } else {
                no
            },
            env,
        ),
        keeps(s, t, env),
{
    reveal_with_fuel(stmt_view, 2);
    reveal(prim_value);
    reveal(stepped);
    match s.stmt {
        Statement::Extern { op: o, args: names, blocks } => {
            let have = stmt_view(s.stmt)->Extern_blocks;
            assert(have.len() == 2);
            assert(have[0] == BlockV { params: env, body: no });
            assert(have[1] == BlockV { params: env, body: yes });
            let to = if b {
                blocks@[1]
            } else {
                blocks@[0]
            };
            lemma_looked(w.p, s, args, vs);
            let t = lemma_entered(w, s, to, s.env);
            assert(S { heap: s.heap, ..s } == s);
            if op is Branch {
                assert(holds(s, args[0]) == Some(vs[0]));
            }
            lemma_reach_step(w, s, t);
            assert forall|n: Name| #[trigger] env.contains(n) implies holds(t, n) == holds(s, n) by {}
            t
        },
        _ => s,
    }
}

/// A mark does nothing.
pub proof fn lemma_run_mark(w: World, s: S, loc: crate::seq::ir::Loc, body: StmtV, env: Seq<Name>) -> (t: S)
    requires
        at(w, s, StmtV::Mark(loc, Box::new(body)), env),
    ensures
        reach(w, s, t),
        at(w, t, body, env),
        keeps(s, t, env),
{
    reveal_with_fuel(stmt_view, 2);
    reveal(stepped);
    match s.stmt {
        Statement::Mark(_, inner) => {
            let t = S { stmt: *inner, ..s };
            lemma_reach_step(w, s, t);
            t
        },
        _ => s,
    }
}

// --- frames ---

pub proof fn lemma_plugged_none(body: StmtV)
    ensures
        plugged(Seq::empty(), body) == body,
{
    reveal(plugged);
}

pub proof fn lemma_plugged_push(fs: Seq<FrameV>, f: FrameV, body: StmtV)
    ensures
        plugged(fs.push(f), body) == plugged(fs, filled(f, body)),
{
    reveal(plugged);
    assert(fs.push(f).drop_last() =~= fs);
}

pub proof fn lemma_plugged_one(f: FrameV, body: StmtV)
    ensures
        plugged(seq![f], body) == filled(f, body),
{
    reveal_with_fuel(plugged, 3);
    assert(seq![f].drop_last() =~= Seq::empty());
}

pub proof fn lemma_plugged_both(fs: Seq<FrameV>, gs: Seq<FrameV>, body: StmtV)
    ensures
        plugged(fs + gs, body) == plugged(fs, plugged(gs, body)),
    decreases gs.len(),
{
    reveal_with_fuel(plugged, 2);
    if gs.len() == 0 {
        assert(fs + gs =~= fs);
    } else {
        assert((fs + gs).drop_last() =~= fs + gs.drop_last());
        lemma_plugged_both(fs, gs.drop_last(), filled(gs.last(), body));
    }
}

} // verus!
