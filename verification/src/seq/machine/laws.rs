//! What statements do, as laws of the machine's transitions.
//!
//! A transition that would give a name a value its representation does not allow is a
//! fault. A program that declares no representations has no such fault, and there each of
//! these says what happens without exception.

use super::equal::equals;
use super::norm::norm;
use super::prim::{AnswerV, Cx};
use super::run_prim::{prim_op, Done};
use super::state::{holds, look_all, name_at, Fault, OutV, Stepped, S};
use super::trans::{answered, stepped};
use super::value::ValueV;
use crate::seq::ir::{defined, Block, Extern, Label, Name, Program, Statement, Tag};
use crate::terms::prim::{Lit, Prim};
use crate::terms::symbol::Sym;
use vstd::prelude::*;

verus! {

// --- names ---

proof fn lemma_name_at(ns: Seq<Name>, n: Name, from: nat, i: int)
    requires
        from <= i < ns.len(),
        ns[i] == n,
        forall|j: int| from <= j < i ==> #[trigger] ns[j] != n,
    ensures
        name_at(ns, n, from) == i,
    decreases i - from,
{
    if from < i {
        lemma_name_at(ns, n, from + 1, i);
    }
}

proof fn lemma_name_found(ns: Seq<Name>, n: Name, from: nat)
    requires
        from <= ns.len(),
    ensures
        from <= name_at(ns, n, from) <= ns.len(),
        name_at(ns, n, from) < ns.len() ==> ns[name_at(ns, n, from) as int] == n,
        forall|j: int| from <= j < name_at(ns, n, from) ==> #[trigger] ns[j] != n,
    decreases ns.len() - from,
{
    if from < ns.len() && ns[from as int] != n {
        lemma_name_found(ns, n, from + 1);
    }
}

/// A name holds the value of the first slot it names.
pub proof fn a_name_holds_the_first_slot_it_names(s: S, n: Name, i: int)
    requires
        0 <= i < s.names.len(),
        i < s.env.len(),
        s.names[i] == n,
        forall|j: int| 0 <= j < i ==> #[trigger] s.names[j] != n,
    ensures
        holds(s, n) == Some(s.env[i]),
{
    lemma_name_at(s.names, n, 0, i);
}

/// A value bound in front hides what had its name, and nothing else.
pub proof fn a_value_in_front_is_what_its_name_holds(s: S, t: S, n: Name, v: ValueV, other: Name)
    requires
        s.names.len() == s.env.len(),
        t.names == seq![n] + s.names,
        t.env == seq![v] + s.env,
    ensures
        holds(t, n) == Some(v),
        other != n ==> holds(t, other) == holds(s, other),
{
    assert(t.names[0] == n && t.env[0] == v);
    lemma_name_at(t.names, n, 0, 0);
    if other != n {
        lemma_name_found(s.names, other, 0);
        lemma_name_found(t.names, other, 0);
        let i = name_at(s.names, other, 0) as int;
        if i < s.names.len() {
            assert(t.names[i + 1] == other);
            assert forall|j: int| 0 <= j < i + 1 implies #[trigger] t.names[j] != other by {
                if j > 0 {
                    assert(t.names[j] == s.names[j - 1]);
                }
            }
            lemma_name_at(t.names, other, 0, i + 1);
            assert(t.env[i + 1] == s.env[i]);
        } else {
            let k = name_at(t.names, other, 0);
            if k < t.names.len() {
                assert(k > 0);
                assert(s.names[k - 1] == other);
            }
        }
    }
}

/// The values of some names, each what the name holds.
pub open spec fn all_hold(s: S, ns: Seq<Name>, vs: Seq<ValueV>) -> bool {
    vs.len() == ns.len() && forall|i: int| 0 <= i < ns.len() ==> holds(s, #[trigger] ns[i]) == Some(vs[i])
}

pub proof fn lemma_all_hold(p: Program, s: S, ns: Seq<Name>, vs: Seq<ValueV>, n: nat)
    requires
        all_hold(s, ns, vs),
        n <= ns.len(),
    ensures
        look_all(p, s, ns, n) == Ok::<Seq<ValueV>, Fault>(vs.take(n as int)),
    decreases n,
{
    if n == 0 {
        assert(vs.take(0) =~= Seq::empty());
    } else {
        lemma_all_hold(p, s, ns, vs, (n - 1) as nat);
        assert(holds(s, ns[n - 1]) == Some(vs[n - 1]));
        assert(vs.take(n - 1).push(vs[n - 1]) =~= vs.take(n as int));
    }
}

/// What names hold is what they are looked up as.
pub proof fn lemma_looked(p: Program, s: S, ns: Seq<Name>, vs: Seq<ValueV>)
    requires
        all_hold(s, ns, vs),
    ensures
        look_all(p, s, ns, ns.len()) == Ok::<Seq<ValueV>, Fault>(vs),
{
    lemma_all_hold(p, s, ns, vs, ns.len());
    assert(vs.take(vs.len() as int) =~= vs);
}

/// The machine goes on to `stmt`, where `names` name `env`; or, where representations are
/// declared, one of them is not kept.
pub open spec fn goes_to(p: Program, s: S, r: Stepped, stmt: Statement, names: Seq<Name>, env: Seq<ValueV>) -> bool {
    match r {
        Ok((t, o)) => {
            &&& o is Next
            &&& t.stmt == stmt
            &&& t.names == names
            &&& t.env == env
            &&& t.globals == s.globals
            &&& t.heap == s.heap
        },
        Err(_) => p.reps@.len() > 0,
    }
}

proof fn lemma_fits(p: Program, t: S, strict: bool, i: nat)
    requires
        p.reps@.len() == 0,
    ensures
        super::state::first_misfit(p, t, strict, i) is None,
    decreases t.names.len() - i,
{
    if i < t.names.len() && i < t.env.len() {
        lemma_fits(p, t, strict, i + 1);
    }
}

pub proof fn lemma_entered(p: Program, s: S, b: Block, vals: Seq<ValueV>)
    requires
        b.params@.len() == vals.len(),
    ensures
        goes_to(p, s, super::state::entered(p, s, b, vals), b.body, b.params@, vals),
{
    if p.reps@.len() == 0 {
        let t = S { stmt: b.body, names: b.params@, env: vals, ..s };
        lemma_fits(p, t, crate::seq::describe::transfer(crate::seq::view::stmt_view(b.body)) is None, 0);
    }
}

// --- branches ---

/// A branch on true goes on to the second of its two blocks, and a branch on false to the
/// first, with the environment as it was.
pub proof fn a_branch_goes_to_the_block_its_condition_says(
    p: Program,
    s: S,
    op: Extern,
    args: Vec<Name>,
    blocks: Vec<Block>,
    b: bool,
)
    requires
        s.stmt == (Statement::Extern { op, args, blocks }),
        op is Branch,
        args@.len() == 1,
        holds(s, args@[0]) == Some(ValueV::Bool(b)),
        blocks@.len() == 2,
        blocks@[0].params@.len() == s.env.len(),
        blocks@[1].params@.len() == s.env.len(),
    ensures
        b ==> goes_to(p, s, stepped(p, s), blocks@[1].body, blocks@[1].params@, s.env),
        !b ==> goes_to(p, s, stepped(p, s), blocks@[0].body, blocks@[0].params@, s.env),
{
    reveal(stepped);
    lemma_entered(p, s, blocks@[0], s.env);
    lemma_entered(p, s, blocks@[1], s.env);
}

/// A branch on a primitive goes to the second block where the primitive answers true, and to
/// the first where it answers false. A literal operand comes behind the others.
pub proof fn a_fused_branch_goes_where_its_primitive_says(
    p: Program,
    s: S,
    op: Extern,
    args: Vec<Name>,
    blocks: Vec<Block>,
    vs: Seq<ValueV>,
    f: Prim,
    b: bool,
)
    requires
        s.stmt == (Statement::Extern { op, args, blocks }),
        blocks@.len() == 2,
        blocks@[0].params@.len() == s.env.len(),
        blocks@[1].params@.len() == s.env.len(),
        all_hold(s, args@, vs),
        match op {
            Extern::BranchPrim(g) => g == f && prim_op(f, vs, super::state::cx_of(p, s)) == Done::Ok(
                (s.heap, AnswerV::Value(ValueV::Bool(b))),
            ),
            Extern::BranchPrimK(g, l) => g == f && prim_op(
                f,
                vs.push(super::state::literal(l, p.symbols@)),
                super::state::cx_of(p, s),
            ) == Done::Ok((s.heap, AnswerV::Value(ValueV::Bool(b)))),
            _ => false,
        },
    ensures
        b ==> goes_to(p, s, stepped(p, s), blocks@[1].body, blocks@[1].params@, s.env),
        !b ==> goes_to(p, s, stepped(p, s), blocks@[0].body, blocks@[0].params@, s.env),
{
    reveal(stepped);
    lemma_looked(p, s, args@, vs);
    assert(S { heap: s.heap, ..s } == s);
    lemma_entered(p, s, blocks@[0], s.env);
    lemma_entered(p, s, blocks@[1], s.env);
}

/// What was waited for at a branch takes it as the value it comes to does.
pub proof fn an_answer_takes_the_branch_it_says(p: Program, s: S, op: Extern, args: Vec<Name>, blocks: Vec<Block>, b: bool)
    requires
        s.stmt == (Statement::Extern { op, args, blocks }),
        op is Branch || op is BranchPrim || op is BranchPrimK,
        blocks@.len() == 2,
        blocks@[0].params@.len() == s.env.len(),
        blocks@[1].params@.len() == s.env.len(),
    ensures
        b ==> goes_to(p, s, answered(p, s, ValueV::Bool(b)), blocks@[1].body, blocks@[1].params@, s.env),
        !b ==> goes_to(p, s, answered(p, s, ValueV::Bool(b)), blocks@[0].body, blocks@[0].params@, s.env),
{
    lemma_entered(p, s, blocks@[0], s.env);
    lemma_entered(p, s, blocks@[1], s.env);
}

/// Whether a comparison of two integers holds.
pub open spec fn compares(f: Prim, x: int, y: int) -> Option<bool> {
    match f {
        Prim::Eq | Prim::IntEq => Some(x == y),
        Prim::Ne | Prim::IntNe => Some(x != y),
        Prim::Lt | Prim::IntLt => Some(x < y),
        Prim::Le | Prim::IntLe => Some(x <= y),
        Prim::Gt | Prim::IntGt => Some(x > y),
        Prim::Ge | Prim::IntGe => Some(x >= y),
        _ => None,
    }
}

/// A comparison of two integers answers whether it holds of them, the first on its left.
pub proof fn a_comparison_answers_whether_it_holds(f: Prim, x: i64, y: i64, cx: Cx)
    requires
        compares(f, x as int, y as int) is Some,
    ensures
        prim_op(f, seq![ValueV::Int(x), ValueV::Int(y)], cx) == Done::Ok(
            (cx.heap, AnswerV::Value(ValueV::Bool(compares(f, x as int, y as int)->0))),
        ),
{
    let (a, b) = (ValueV::Int(x), ValueV::Int(y));
    let args = seq![a, b];
    assert(args[0] == a && args[1] == b);
    assert(norm(a) == super::norm::Plain::Int(x));
    assert(norm(b) == super::norm::Plain::Int(y));
    assert(equals(a, b) == (x == y));
}

/// Arithmetic on two integers answers the sum, the difference or the product, wrapped to 64
/// bits.
pub proof fn arithmetic_answers_what_it_says(x: i64, y: i64, cx: Cx)
    ensures
        prim_op(Prim::Add, seq![ValueV::Int(x), ValueV::Int(y)], cx) matches Ok((h, AnswerV::Value(ValueV::Int(r)))) && h
            == cx.heap && (r - (x + y)) % 0x1_0000_0000_0000_0000 == 0,
        prim_op(Prim::Sub, seq![ValueV::Int(x), ValueV::Int(y)], cx) matches Ok((h, AnswerV::Value(ValueV::Int(r)))) && h
            == cx.heap && (r - (x - y)) % 0x1_0000_0000_0000_0000 == 0,
{
    let args = seq![ValueV::Int(x), ValueV::Int(y)];
    assert(args[0] == ValueV::Int(x) && args[1] == ValueV::Int(y));
}

// --- values ---

/// A value is bound in front of the environment by the block that takes it.
pub open spec fn produces(p: Program, s: S, r: Stepped, b: Block, v: ValueV) -> bool {
    goes_to(p, s, r, b.body, b.params@, seq![v] + s.env)
}

/// An operation that makes a value hands it to its block, in front of the environment.
pub proof fn an_operation_hands_its_block_the_value(
    p: Program,
    s: S,
    op: Extern,
    args: Vec<Name>,
    blocks: Vec<Block>,
    vs: Seq<ValueV>,
)
    requires
        s.stmt == (Statement::Extern { op, args, blocks }),
        blocks@.len() == 1,
        blocks@[0].params@.len() == s.env.len() + 1,
        all_hold(s, args@, vs),
    ensures
        match op {
            Extern::Lit(Lit::Int(n)) => produces(p, s, stepped(p, s), blocks@[0], ValueV::Int(n)),
            Extern::Lit(Lit::Bool(x)) => produces(p, s, stepped(p, s), blocks@[0], ValueV::Bool(x)),
            Extern::Lit(Lit::Unit) => produces(p, s, stepped(p, s), blocks@[0], ValueV::Unit),
            Extern::Lit(Lit::Char(c)) => produces(p, s, stepped(p, s), blocks@[0], ValueV::Char(c)),
            Extern::Lit(Lit::Float(x)) => produces(p, s, stepped(p, s), blocks@[0], ValueV::Float(x)),
            Extern::Array => produces(p, s, stepped(p, s), blocks@[0], ValueV::Array(vs)),
            Extern::Field(i) => vs.len() == 1 ==> match vs[0] {
                ValueV::Data(_, _, fs) => i < fs.len() ==> produces(p, s, stepped(p, s), blocks@[0], fs[i as int]),
                ValueV::Array(xs) => i < xs.len() ==> produces(p, s, stepped(p, s), blocks@[0], xs[i as int]),
                _ => true,
            },
            _ => true,
        },
{
    reveal(stepped);
    lemma_looked(p, s, args@, vs);
    assert forall|v: ValueV| #[trigger]
        goes_to(
            p,
            s,
            super::state::entered(p, s, blocks@[0], seq![v] + s.env),
            blocks@[0].body,
            blocks@[0].params@,
            seq![v] + s.env,
        ) by {
        lemma_entered(p, s, blocks@[0], seq![v] + s.env);
    }
}

/// A primitive that answers a value hands it to its block; a literal operand comes behind
/// the others.
pub proof fn a_primitive_hands_its_block_the_answer(
    p: Program,
    s: S,
    op: Extern,
    args: Vec<Name>,
    blocks: Vec<Block>,
    vs: Seq<ValueV>,
    f: Prim,
    v: ValueV,
)
    requires
        s.stmt == (Statement::Extern { op, args, blocks }),
        blocks@.len() == 1,
        blocks@[0].params@.len() == s.env.len() + 1,
        all_hold(s, args@, vs),
        f != Prim::Once && f != Prim::Detach && f != Prim::Enter && f != Prim::Reattach && f != Prim::GlobalReady && f
            != Prim::GlobalGet && f != Prim::GlobalSet && f != Prim::TakeOnce,
        match op {
            Extern::Prim(g) => g == f && prim_op(f, vs, super::state::cx_of(p, s)) == Done::Ok(
                (s.heap, AnswerV::Value(v)),
            ),
            Extern::PrimK(g, l) => g == f && prim_op(
                f,
                vs.push(super::state::literal(l, p.symbols@)),
                super::state::cx_of(p, s),
            ) == Done::Ok((s.heap, AnswerV::Value(v))),
            _ => false,
        },
    ensures
        produces(p, s, stepped(p, s), blocks@[0], v),
{
    reveal(stepped);
    lemma_looked(p, s, args@, vs);
    assert(S { heap: s.heap, ..s } == s);
    lemma_entered(p, s, blocks@[0], seq![v] + s.env);
}

/// A binding goes on to what follows it, with a value in front of the environment; or, where
/// representations are declared, the name's is not kept.
proof fn lemma_bound(p: Program, s: S, n: Name, v: ValueV, rest: Statement)
    ensures
        goes_to(p, s, super::state::bound(p, s, n, v, rest), rest, seq![n] + s.names, seq![v] + s.env),
{
}

/// Data is built of what its fields' names hold, in order, and bound.
pub proof fn data_is_built_of_its_fields(
    p: Program,
    s: S,
    name: Name,
    tag: Tag,
    ctor: Sym,
    fields: Vec<Name>,
    rest: Box<Statement>,
    vs: Seq<ValueV>,
)
    requires
        s.stmt == (Statement::Let { name, tag, ctor, fields, rest }),
        all_hold(s, fields@, vs),
    ensures
        goes_to(
            p,
            s,
            stepped(p, s),
            *rest,
            seq![name] + s.names,
            seq![ValueV::Data(ctor, tag, vs)] + s.env,
        ),
{
    reveal(stepped);
    lemma_looked(p, s, fields@, vs);
    lemma_bound(p, s, name, ValueV::Data(ctor, tag, vs), *rest);
}

/// An object is made of what its captures hold, in order, and bound.
pub proof fn an_object_is_made_of_its_captures(
    p: Program,
    s: S,
    name: Name,
    captures: Vec<Name>,
    methods: Vec<Block>,
    rest: Box<Statement>,
    vs: Seq<ValueV>,
)
    requires
        s.stmt == (Statement::New { name, captures, methods, rest }),
        all_hold(s, captures@, vs),
    ensures
        goes_to(p, s, stepped(p, s), *rest, seq![name] + s.names, seq![ValueV::Obj(vs, methods)] + s.env),
{
    reveal(stepped);
    lemma_looked(p, s, captures@, vs);
    lemma_bound(p, s, name, ValueV::Obj(vs, methods), *rest);
}

/// An object that is first in the environment is entered with its captures and behind them
/// what stands behind it; the continuation a program starts with ends it with that value.
pub proof fn entering_an_object_gives_it_what_is_behind_it(p: Program, s: S, n: Name, tag: Tag, rest: Seq<ValueV>)
    requires
        s.stmt == Statement::Invoke(n, tag),
        s.names.len() > 0,
        s.names[0] == n,
        s.env.len() > 0,
        s.env.skip(1) == rest,
    ensures
        match s.env[0] {
            ValueV::Obj(captures, methods) => tag < methods@.len() && methods@[tag as int].params@.len() == captures.len()
                + rest.len() ==> goes_to(
                p,
                s,
                stepped(p, s),
                methods@[tag as int].body,
                methods@[tag as int].params@,
                captures + rest,
            ),
            ValueV::Halt => rest.len() == 1 ==> stepped(p, s) == Stepped::Ok((s, OutV::Done(rest[0]))),
            _ => true,
        },
{
    reveal(stepped);
    lemma_name_at(s.names, n, 0, 0);
    assert(s.env.remove(0) =~= s.env.skip(1));
    if let ValueV::Obj(captures, methods) = s.env[0] {
        if tag < methods@.len() && methods@[tag as int].params@.len() == captures.len() + rest.len() {
            lemma_entered(p, s, methods@[tag as int], captures + rest);
        }
    }
}

/// A switch goes to the first arm for the tag of what it is on, with the fields in front of
/// the environment, and to its default where there is none.
pub proof fn a_switch_goes_to_the_arm_of_the_tag(
    p: Program,
    s: S,
    scrutinee: Name,
    arms: Vec<(Tag, Block)>,
    default: Box<Block>,
    c: Sym,
    tag: Tag,
    fields: Seq<ValueV>,
    i: int,
)
    requires
        s.stmt == (Statement::Switch { scrutinee, arms, default }),
        holds(s, scrutinee) == Some(ValueV::Data(c, tag, fields)),
        0 <= i <= arms@.len(),
        i < arms@.len() ==> arms@[i].0 == tag && arms@[i].1.params@.len() == fields.len() + s.env.len(),
        forall|j: int| 0 <= j < i ==> (#[trigger] arms@[j]).0 != tag,
        default.params@.len() == s.env.len(),
    ensures
        i < arms@.len() ==> goes_to(
            p,
            s,
            stepped(p, s),
            arms@[i].1.body,
            arms@[i].1.params@,
            fields + s.env,
        ),
        i == arms@.len() ==> goes_to(p, s, stepped(p, s), default.body, default.params@, s.env),
{
    reveal(stepped);
    lemma_arm_at(arms@, tag, 0, i);
    if i < arms@.len() {
        lemma_entered(p, s, arms@[i].1, fields + s.env);
    }
    lemma_entered(p, s, *default, s.env);
}

proof fn lemma_arm_at(arms: Seq<(Tag, Block)>, tag: Tag, from: nat, i: int)
    requires
        from <= i <= arms.len(),
        i < arms.len() ==> arms[i].0 == tag,
        forall|j: int| from <= j < i ==> (#[trigger] arms[j]).0 != tag,
    ensures
        super::state::arm_at(arms, tag, from) == i,
    decreases i - from,
{
    if from < i {
        lemma_arm_at(arms, tag, from + 1, i);
    }
}

/// A substitution goes to its block with what it names, in that order.
pub proof fn a_substitution_gives_its_block_what_it_names(
    p: Program,
    s: S,
    sel: Vec<Name>,
    b: Box<Block>,
    vs: Seq<ValueV>,
)
    requires
        s.stmt == Statement::Substitute(sel, b),
        all_hold(s, sel@, vs),
        b.params@.len() == sel@.len(),
    ensures
        goes_to(p, s, stepped(p, s), b.body, b.params@, vs),
{
    reveal(stepped);
    lemma_looked(p, s, sel@, vs);
    lemma_entered(p, s, *b, vs);
}

/// A jump goes to the block that is defined by its label, with the environment as it is.
pub proof fn a_jump_goes_to_the_block_of_its_label(p: Program, s: S, l: Label, i: int)
    requires
        s.stmt == Statement::Jump(l),
        0 <= i < p.defs@.len(),
        p.defs@[i].label == l,
        forall|j: int| 0 <= j < i ==> (#[trigger] p.defs@[j]).label != l,
        p.defs@[i].block.params@.len() == s.env.len(),
    ensures
        goes_to(p, s, stepped(p, s), p.defs@[i].block.body, p.defs@[i].block.params@, s.env),
{
    reveal(stepped);
    lemma_defined(p, l, 0, i);
    lemma_entered(p, s, p.defs@[i].block, s.env);
}

proof fn lemma_defined(p: Program, l: Label, from: nat, i: int)
    requires
        from <= i < p.defs@.len(),
        p.defs@[i].label == l,
        forall|j: int| from <= j < i ==> (#[trigger] p.defs@[j]).label != l,
    ensures
        defined(p.defs@, l, from) == i,
    decreases i - from,
{
    if from < i {
        lemma_defined(p, l, from + 1, i);
    }
}

} // verus!
