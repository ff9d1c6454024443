//! Substitutions that give as many values as their blocks take.

use super::describe::{
    arms_of, closed, continuation, continuations, continued, methods_of, missing, need_blocks, rewrite, rewritten,
    transfer, Known,
};
use super::ir::{Label, Loc, Name, Tag};
use super::view::{
    invoke_v, jump_v, let_v, new_v, one_v, sub_v, switch_v, two_v, BlockV, DefV, ExternV, StmtV,
};
use crate::terms::symbol::Sym;
use vstd::prelude::*;

verus! {

/// Every substitution in a statement gives as many values as its block takes.
pub open spec fn balanced(s: StmtV) -> bool
    decreases s,
{
    match s {
        StmtV::Substitute(sel, b) => sel.len() == b.params.len() && balanced(b.body),
        StmtV::Jump(_) | StmtV::Invoke(_, _) | StmtV::Error(_) => true,
        StmtV::Let { rest, .. } => balanced(*rest),
        StmtV::Switch { arms, default, .. } => balanced(default.body) && forall|i: int|
            0 <= i < arms.len() ==> balanced((#[trigger] arms[i]).1.body),
        StmtV::New { methods, rest, .. } => balanced(*rest) && forall|i: int|
            0 <= i < methods.len() ==> balanced((#[trigger] methods[i]).body),
        StmtV::Extern { blocks, .. } => forall|i: int|
            0 <= i < blocks.len() ==> balanced((#[trigger] blocks[i]).body),
        StmtV::Mark(_, inner) => balanced(*inner),
    }
}

impl ExternV {
    /// Does the operation choose between two blocks, rather than hand one a value?
    pub open spec fn branches(self) -> bool {
        self is Branch || self is BranchPrim || self is BranchPrimK
    }
}

/// Every block of a statement entered in `env` names the whole environment it is
/// entered in. The block of an operation that produces a value takes one name more,
/// and each block of one that chooses takes it as it is, as a switch's default does;
/// an arm takes the fields in front of it. An object's method starts with what the
/// object captures. A substitution gives as many values as its block takes, and control
/// is handed over right behind one that built the environment for it, with the object
/// that is entered in front. Which names it selects is not said: a descriptor among them
/// is in the environment only once the descriptor pass has passed it there.
#[verifier::opaque]
pub open spec fn scoped(s: StmtV, env: Seq<Name>) -> bool
    decreases s,
{
    match s {
        StmtV::Substitute(sel, b) => sel.len() == b.params.len() && match b.body {
            StmtV::Jump(_) => true,
            StmtV::Invoke(f, _) => b.params.len() > 0 && b.params[0] == f,
            _ => scoped(b.body, b.params),
        },
        StmtV::Jump(_) | StmtV::Invoke(_, _) => false,
        StmtV::Error(_) => true,
        StmtV::Let { name, rest, .. } => scoped(*rest, seq![name] + env),
        StmtV::Switch { arms, default, .. } => {
            &&& default.params == env
            &&& scoped(default.body, env)
            &&& forall|i: int|
                0 <= i < arms.len() ==> env.is_suffix_of((#[trigger] arms[i]).1.params) && scoped(
                    arms[i].1.body,
                    arms[i].1.params,
                )
        },
        StmtV::New { name, captures, methods, rest } => {
            &&& scoped(*rest, seq![name] + env)
            &&& forall|i: int|
                0 <= i < methods.len() ==> captures.is_prefix_of((#[trigger] methods[i]).params) && scoped(
                    methods[i].body,
                    methods[i].params,
                )
        },
        StmtV::Extern { op, blocks, .. } => forall|i: int|
            0 <= i < blocks.len() ==> (if op.branches() {
                (#[trigger] blocks[i]).params == env
            } else {
                blocks[i].params.len() == env.len() + 1 && blocks[i].params.skip(1) == env
            }) && scoped(blocks[i].body, blocks[i].params),
        StmtV::Mark(_, inner) => scoped(*inner, env),
    }
}

pub proof fn lemma_invoke(sel: Seq<Name>, f: Name, env: Seq<Name>)
    requires
        sel.len() > 0,
        sel[0] == f,
    ensures
        scoped(invoke_v(sel, f), env),
{
    reveal_with_fuel(scoped, 2);
}

pub proof fn lemma_goto(sel: Seq<Name>, label: Label, env: Seq<Name>)
    ensures
        scoped(jump_v(sel, label), env),
{
    reveal_with_fuel(scoped, 2);
}

/// A jump right behind a substitution.
pub proof fn lemma_arranged(sel: Seq<Name>, params: Seq<Name>, label: Label, env: Seq<Name>)
    requires
        sel.len() == params.len(),
    ensures
        scoped(sub_v(sel, params, StmtV::Jump(label)), env),
{
    reveal_with_fuel(scoped, 2);
}

pub proof fn lemma_sub(sel: Seq<Name>, params: Seq<Name>, body: StmtV, env: Seq<Name>)
    requires
        sel.len() == params.len(),
        scoped(body, params),
    ensures
        scoped(sub_v(sel, params, body), env),
{
    reveal_with_fuel(scoped, 2);
}

pub proof fn lemma_built_in(name: Name, tag: Tag, ctor: Sym, fields: Seq<Name>, rest: StmtV, env: Seq<Name>)
    requires
        scoped(rest, seq![name] + env),
    ensures
        scoped(let_v(name, tag, ctor, fields, rest), env),
{
    reveal_with_fuel(scoped, 2);
}

pub proof fn lemma_mark(loc: Loc, body: StmtV, env: Seq<Name>)
    requires
        scoped(body, env),
    ensures
        scoped(StmtV::Mark(loc, Box::new(body)), env),
{
    reveal_with_fuel(scoped, 2);
}

pub proof fn lemma_error(env: Seq<Name>)
    ensures
        forall|msg: Seq<char>| #[trigger] scoped(StmtV::Error(msg), env),
{
    reveal_with_fuel(scoped, 2);
}

pub proof fn lemma_switch(s: Name, cs: Seq<(Tag, BlockV)>, env: Seq<Name>, otherwise: StmtV)
    requires
        forall|i: int|
            0 <= i < cs.len() ==> env.is_suffix_of((#[trigger] cs[i]).1.params) && scoped(
                cs[i].1.body,
                cs[i].1.params,
            ),
        scoped(otherwise, env),
    ensures
        scoped(switch_v(s, cs, env, otherwise), env),
{
    reveal_with_fuel(scoped, 2);
}

pub proof fn lemma_one(op: ExternV, args: Seq<Name>, params: Seq<Name>, body: StmtV, env: Seq<Name>)
    requires
        !op.branches(),
        params.len() == env.len() + 1,
        params.skip(1) == env,
        scoped(body, params),
    ensures
        scoped(one_v(op, args, params, body), env),
{
    reveal_with_fuel(scoped, 2);
}

pub proof fn lemma_two(op: ExternV, args: Seq<Name>, env: Seq<Name>, no: StmtV, yes: StmtV)
    requires
        op.branches(),
        scoped(no, env),
        scoped(yes, env),
    ensures
        scoped(two_v(op, args, env, no, yes), env),
{
    reveal_with_fuel(scoped, 2);
}

pub proof fn lemma_object(name: Name, captures: Seq<Name>, method: BlockV, rest: StmtV, env: Seq<Name>)
    requires
        captures.is_prefix_of(method.params),
        scoped(method.body, method.params),
        scoped(rest, seq![name] + env),
    ensures
        scoped(new_v(name, captures, method, rest), env),
{
    reveal_with_fuel(scoped, 2);
}

pub proof fn lemma_switch_one(
    subject: Name,
    tag: Tag,
    arm_env: Seq<Name>,
    body: StmtV,
    env: Seq<Name>,
    otherwise: StmtV,
)
    requires
        env.is_suffix_of(arm_env),
        scoped(body, arm_env),
        scoped(otherwise, env),
    ensures
        scoped(switch_v(subject, seq![(tag, BlockV { params: arm_env, body })], env, otherwise), env),
{
    reveal_with_fuel(scoped, 2);
}

/// Where every block names the whole environment, every substitution is balanced.
pub proof fn lemma_scoped_is_balanced(s: StmtV, env: Seq<Name>)
    requires
        scoped(s, env),
    ensures
        balanced(s),
    decreases s,
{
    reveal_with_fuel(scoped, 2);
    match s {
        StmtV::Substitute(_, b) => {
            reveal_with_fuel(balanced, 2);
            if !(b.body is Jump) && !(b.body is Invoke) {
                lemma_scoped_is_balanced(b.body, b.params);
            }
        },
        StmtV::Let { name, rest, .. } => {
            lemma_scoped_is_balanced(*rest, seq![name] + env);
        },
        StmtV::Switch { arms, default, .. } => {
            lemma_scoped_is_balanced(default.body, env);
            assert forall|i: int| 0 <= i < arms.len() implies balanced((#[trigger] arms[i]).1.body) by {
                assert(decreases_to!(arms => arms[i]));
                lemma_scoped_is_balanced(arms[i].1.body, arms[i].1.params);
            }
        },
        StmtV::New { name, methods, rest, .. } => {
            lemma_scoped_is_balanced(*rest, seq![name] + env);
            assert forall|i: int| 0 <= i < methods.len() implies balanced((#[trigger] methods[i]).body) by {
                assert(decreases_to!(methods => methods[i]));
                lemma_scoped_is_balanced(methods[i].body, methods[i].params);
            }
        },
        StmtV::Extern { blocks, .. } => {
            assert forall|i: int| 0 <= i < blocks.len() implies balanced((#[trigger] blocks[i]).body) by {
                assert(decreases_to!(blocks => blocks[i]));
                lemma_scoped_is_balanced(blocks[i].body, blocks[i].params);
            }
        },
        StmtV::Mark(_, inner) => {
            lemma_scoped_is_balanced(*inner, env);
        },
        _ => {},
    }
}

proof fn lemma_rewrite(cx: Known, s: StmtV, old_env: Seq<Name>, new_env: Seq<Name>)
    requires
        balanced(s),
    ensures
        balanced(rewrite(cx, s, old_env, new_env)),
    decreases s, 0nat,
{
    match s {
        StmtV::Substitute(sel, b) => {
            assert(balanced(b.body));
            match transfer(b.body) {
                None => {
                    let add = missing(cx, *b);
                    lemma_rewrite(cx, b.body, b.params, b.params + add);
                    let c = BlockV { params: b.params + add, body: rewrite(cx, b.body, b.params, b.params + add) };
                    assert(balanced(StmtV::Substitute(sel + add, Box::new(c))));
                },
                Some(Some(l)) => {
                    let c = BlockV { params: b.params + cx.gained(l), body: b.body };
                    assert(balanced(StmtV::Substitute(sel + cx.gained(l), Box::new(c))));
                },
                Some(None) => {},
            }
        },
        StmtV::Let { name, rest, .. } => {
            lemma_rewrite(cx, *rest, seq![name] + old_env, seq![name] + new_env);
        },
        StmtV::New { name, captures, methods, rest } => {
            lemma_rewrite(cx, *rest, seq![name] + old_env, seq![name] + new_env);
            let add = need_blocks(cx, methods, methods.len());
            lemma_methods(cx, methods, methods.len(), captures.len(), add);
        },
        StmtV::Extern { blocks, .. } => {
            lemma_blocks(cx, blocks, blocks.len(), old_env, new_env);
        },
        StmtV::Switch { arms, default, .. } => {
            lemma_arms(cx, arms, arms.len(), old_env, new_env);
            let params = continued(default.params, old_env, new_env);
            lemma_rewrite(cx, default.body, default.params, params);
            assert(continuation(cx, *default, old_env, new_env).body == rewrite(
                cx,
                default.body,
                default.params,
                params,
            ));
        },
        StmtV::Mark(_, inner) => {
            lemma_rewrite(cx, *inner, old_env, new_env);
        },
        _ => {},
    }
}

proof fn lemma_methods(cx: Known, ms: Seq<BlockV>, n: nat, c: nat, add: Seq<Name>)
    requires
        n <= ms.len(),
        forall|i: int| 0 <= i < ms.len() ==> balanced((#[trigger] ms[i]).body),
    ensures
        methods_of(cx, ms, n, c, add).len() == n,
        forall|i: int| 0 <= i < n ==> balanced((#[trigger] methods_of(cx, ms, n, c, add)[i]).body),
    decreases ms, n,
{
    if n > 0 {
        lemma_methods(cx, ms, (n - 1) as nat, c, add);
        let params = super::describe::widened(ms[n - 1].params, c, add);
        assert(decreases_to!(ms => ms[n - 1]));
        lemma_rewrite(cx, ms[n - 1].body, ms[n - 1].params, params);
    }
}

proof fn lemma_blocks(cx: Known, bs: Seq<BlockV>, n: nat, old_env: Seq<Name>, new_env: Seq<Name>)
    requires
        n <= bs.len(),
        forall|i: int| 0 <= i < bs.len() ==> balanced((#[trigger] bs[i]).body),
    ensures
        continuations(cx, bs, n, old_env, new_env).len() == n,
        forall|i: int| 0 <= i < n ==> balanced((#[trigger] continuations(cx, bs, n, old_env, new_env)[i]).body),
    decreases bs, n,
{
    if n > 0 {
        lemma_blocks(cx, bs, (n - 1) as nat, old_env, new_env);
        let params = continued(bs[n - 1].params, old_env, new_env);
        assert(decreases_to!(bs => bs[n - 1]));
        lemma_rewrite(cx, bs[n - 1].body, bs[n - 1].params, params);
        let before = continuations(cx, bs, (n - 1) as nat, old_env, new_env);
        let last = continuation(cx, bs[n - 1], old_env, new_env);
        assert(last.body == rewrite(cx, bs[n - 1].body, bs[n - 1].params, params));
        assert(continuations(cx, bs, n, old_env, new_env) == before.push(last));
    }
}

proof fn lemma_arms(cx: Known, arms: Seq<(Tag, BlockV)>, n: nat, old_env: Seq<Name>, new_env: Seq<Name>)
    requires
        n <= arms.len(),
        forall|i: int| 0 <= i < arms.len() ==> balanced((#[trigger] arms[i]).1.body),
    ensures
        arms_of(cx, arms, n, old_env, new_env).len() == n,
        forall|i: int| 0 <= i < n ==> balanced((#[trigger] arms_of(cx, arms, n, old_env, new_env)[i]).1.body),
    decreases arms, n,
{
    if n > 0 {
        lemma_arms(cx, arms, (n - 1) as nat, old_env, new_env);
        let b = arms[n - 1].1;
        let params = continued(b.params, old_env, new_env);
        assert(decreases_to!(arms => arms[n - 1]));
        lemma_rewrite(cx, b.body, b.params, params);
        let before = arms_of(cx, arms, (n - 1) as nat, old_env, new_env);
        let last = continuation(cx, b, old_env, new_env);
        assert(last.body == rewrite(cx, b.body, b.params, params));
        assert(arms_of(cx, arms, n, old_env, new_env) == before.push((arms[n - 1].0, last)));
    }
}

/// Adding descriptors keeps every substitution balanced: what its block gains, it is given.
pub proof fn closing_keeps_substitutions_balanced(cx: Known, defs: Seq<DefV>)
    requires
        forall|i: int| 0 <= i < defs.len() ==> balanced((#[trigger] defs[i]).block.body),
    ensures
        forall|i: int| 0 <= i < defs.len() ==> balanced((#[trigger] closed(cx, defs)[i]).block.body),
{
    assert forall|i: int| 0 <= i < defs.len() implies balanced((#[trigger] closed(cx, defs)[i]).block.body) by {
        let d = defs[i];
        let params = d.block.params + cx.gained(d.label);
        lemma_rewrite(cx, d.block.body, d.block.params, params);
        assert(closed(cx, defs)[i] == rewritten(cx, d));
    }
}

// --- and name the whole environment ---

/// What hands control over is not marked.
pub proof fn lemma_transfer_unmarked(s: StmtV, env: Seq<Name>)
    requires
        transfer(s) is Some,
        !(s is Jump),
        !(s is Invoke),
    ensures
        !scoped(s, env),
    decreases s,
{
    reveal_with_fuel(scoped, 2);
    if let StmtV::Mark(_, inner) = s {
        if !(*inner is Jump) && !(*inner is Invoke) {
            lemma_transfer_unmarked(*inner, env);
        }
    }
}

proof fn lemma_continued(params: Seq<Name>, front: Seq<Name>, old: Seq<Name>, new: Seq<Name>)
    requires
        params == front + old,
    ensures
        continued(params, old, new) == front + new,
        (front + new).skip(front.len() as int) == new,
        new.is_suffix_of(front + new),
{
    assert(params.take(params.len() - old.len()) =~= front);
    assert((front + new).skip(front.len() as int) =~= new);
    assert((front + new).subrange(front.len() as int, (front + new).len() as int) =~= new);
}

proof fn lemma_scoped_rewrite(cx: Known, s: StmtV, old: Seq<Name>, new: Seq<Name>)
    requires
        scoped(s, old),
    ensures
        scoped(rewrite(cx, s, old, new), new),
    decreases s, 0nat,
{
    reveal_with_fuel(scoped, 2);
    let r = rewrite(cx, s, old, new);
    match s {
        StmtV::Substitute(sel, b) => {
            if transfer(b.body) is Some && !(b.body is Jump) && !(b.body is Invoke) {
                lemma_transfer_unmarked(b.body, b.params);
            }
            match transfer(b.body) {
                Some(_) => {},
                None => {
                    let add = missing(cx, *b);
                    lemma_scoped_rewrite(cx, b.body, b.params, b.params + add);
                },
            }
        },
        StmtV::Let { name, rest, .. } => {
            lemma_scoped_rewrite(cx, *rest, seq![name] + old, seq![name] + new);
        },
        StmtV::New { name, captures, methods, rest } => {
            lemma_scoped_rewrite(cx, *rest, seq![name] + old, seq![name] + new);
            let add = need_blocks(cx, methods, methods.len());
            assert(decreases_to!(s => methods));
            lemma_scoped_methods(cx, methods, methods.len(), captures, add);
        },
        StmtV::Extern { op, blocks, .. } => {
            let more: nat = if op.branches() {
                0
            } else {
                1
            };
            assert forall|i: int| 0 <= i < blocks.len() implies (#[trigger] blocks[i]).params.len() == old.len() + more
                && blocks[i].params.skip(more as int) == old by {
                assert(blocks[i].params.skip(0) =~= blocks[i].params);
            }
            assert(decreases_to!(s => blocks));
            lemma_scoped_blocks(cx, blocks, blocks.len(), more, old, new);
            let done = continuations(cx, blocks, blocks.len(), old, new);
            assert forall|i: int| 0 <= i < done.len() implies (if op.branches() {
                (#[trigger] done[i]).params == new
            } else {
                done[i].params.len() == new.len() + 1 && done[i].params.skip(1) == new
            }) && scoped(done[i].body, done[i].params) by {
                assert(done[i].params.skip(0) =~= done[i].params);
            }
        },
        StmtV::Switch { arms, default, .. } => {
            assert(decreases_to!(s => arms));
            lemma_scoped_arms(cx, arms, arms.len(), old, new);
            let none = Seq::<Name>::empty();
            assert(default.params =~= none + old);
            lemma_continued(default.params, none, old, new);
            assert(none + new =~= new);
            lemma_scoped_rewrite(cx, default.body, default.params, new);
            let otherwise = continuation(cx, *default, old, new);
            assert(otherwise.params == new);
            assert(otherwise.body == rewrite(cx, default.body, default.params, new));
        },
        StmtV::Mark(loc, inner) => {
            lemma_scoped_rewrite(cx, *inner, old, new);
        },
        _ => {},
    }
}

proof fn lemma_scoped_methods(cx: Known, ms: Seq<BlockV>, n: nat, captures: Seq<Name>, add: Seq<Name>)
    requires
        n <= ms.len(),
        forall|i: int|
            0 <= i < ms.len() ==> captures.is_prefix_of((#[trigger] ms[i]).params) && scoped(ms[i].body, ms[i].params),
    ensures
        methods_of(cx, ms, n, captures.len(), add).len() == n,
        forall|i: int|
            0 <= i < n ==> (captures + add).is_prefix_of(
                (#[trigger] methods_of(cx, ms, n, captures.len(), add)[i]).params,
            ) && scoped(
                methods_of(cx, ms, n, captures.len(), add)[i].body,
                methods_of(cx, ms, n, captures.len(), add)[i].params,
            ),
    decreases ms, n,
{
    if n > 0 {
        lemma_scoped_methods(cx, ms, (n - 1) as nat, captures, add);
        let m = ms[n - 1];
        let params = super::describe::widened(m.params, captures.len(), add);
        assert(m.params.take(captures.len() as int) =~= captures);
        assert(params.take((captures + add).len() as int) =~= captures + add);
        assert(decreases_to!(ms => ms[n - 1]));
        lemma_scoped_rewrite(cx, m.body, m.params, params);
    }
}

proof fn lemma_scoped_blocks(cx: Known, bs: Seq<BlockV>, n: nat, more: nat, old: Seq<Name>, new: Seq<Name>)
    requires
        n <= bs.len(),
        forall|i: int|
            0 <= i < bs.len() ==> (#[trigger] bs[i]).params.len() == old.len() + more && bs[i].params.skip(
                more as int,
            ) == old && scoped(bs[i].body, bs[i].params),
    ensures
        continuations(cx, bs, n, old, new).len() == n,
        forall|i: int|
            0 <= i < n ==> (#[trigger] continuations(cx, bs, n, old, new)[i]).params.len() == new.len() + more
                && continuations(cx, bs, n, old, new)[i].params.skip(more as int) == new && scoped(
                continuations(cx, bs, n, old, new)[i].body,
                continuations(cx, bs, n, old, new)[i].params,
            ),
    decreases bs, n,
{
    if n > 0 {
        lemma_scoped_blocks(cx, bs, (n - 1) as nat, more, old, new);
        let b = bs[n - 1];
        let front = b.params.take(more as int);
        assert(b.params =~= front + old);
        lemma_continued(b.params, front, old, new);
        assert(decreases_to!(bs => bs[n - 1]));
        lemma_scoped_rewrite(cx, b.body, b.params, front + new);
        let before = continuations(cx, bs, (n - 1) as nat, old, new);
        assert(continuations(cx, bs, n, old, new) == before.push(continuation(cx, b, old, new)));
    }
}

proof fn lemma_scoped_arms(cx: Known, arms: Seq<(Tag, BlockV)>, n: nat, old: Seq<Name>, new: Seq<Name>)
    requires
        n <= arms.len(),
        forall|i: int|
            0 <= i < arms.len() ==> old.is_suffix_of((#[trigger] arms[i]).1.params) && scoped(
                arms[i].1.body,
                arms[i].1.params,
            ),
    ensures
        arms_of(cx, arms, n, old, new).len() == n,
        forall|i: int|
            0 <= i < n ==> new.is_suffix_of((#[trigger] arms_of(cx, arms, n, old, new)[i]).1.params) && scoped(
                arms_of(cx, arms, n, old, new)[i].1.body,
                arms_of(cx, arms, n, old, new)[i].1.params,
            ),
    decreases arms, n,
{
    if n > 0 {
        lemma_scoped_arms(cx, arms, (n - 1) as nat, old, new);
        let b = arms[n - 1].1;
        assert(old.is_suffix_of(arms[n - 1].1.params));
        let front = b.params.take(b.params.len() - old.len());
        assert(b.params =~= front + old);
        lemma_continued(b.params, front, old, new);
        assert(decreases_to!(arms => arms[n - 1]));
        lemma_scoped_rewrite(cx, b.body, b.params, front + new);
        let before = arms_of(cx, arms, (n - 1) as nat, old, new);
        assert(arms_of(cx, arms, n, old, new) == before.push((arms[n - 1].0, continuation(cx, b, old, new))));
    }
}

/// Adding descriptors keeps every block naming the whole environment it is entered in.
pub proof fn closing_keeps_naming_the_environment(cx: Known, defs: Seq<DefV>)
    requires
        forall|i: int| 0 <= i < defs.len() ==> scoped((#[trigger] defs[i]).block.body, defs[i].block.params),
    ensures
        forall|i: int|
            0 <= i < defs.len() ==> scoped(
                (#[trigger] closed(cx, defs)[i]).block.body,
                closed(cx, defs)[i].block.params,
            ),
{
    assert forall|i: int| 0 <= i < defs.len() implies scoped(
        (#[trigger] closed(cx, defs)[i]).block.body,
        closed(cx, defs)[i].block.params,
    ) by {
        let d = defs[i];
        assert(scoped(defs[i].block.body, defs[i].block.params));
        lemma_scoped_rewrite(cx, d.block.body, d.block.params, d.block.params + cx.gained(d.label));
        assert(closed(cx, defs)[i] == rewritten(cx, d));
    }
}

} // verus!
