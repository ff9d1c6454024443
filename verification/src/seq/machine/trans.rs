//! The transitions.

use super::equal::field_of;
use super::prim::AnswerV;
use super::run_prim::prim_op;
use super::shown::{shown, HeapV};
use super::state::{
    behind_colons, bound, cx_of, entered, falsey, invoked, kind, literal, look, look_all, switched, Fault, OutV,
    Stepped, S,
};
use super::value::ValueV;
use crate::eval::machine::{ctor_at, label_at};
use crate::eval::shown::said;
use crate::seq::ir::{defined, Block, Extern, Label, Name, Program, Statement};
use crate::terms::prim::{Lit, Prim};
use crate::terms::symbol::{text_at, Sym};
use crate::text::digits;
use vstd::prelude::*;

verus! {

/// What a primitive of the machine comes to: the state it leaves, and the answer.
pub type Answered = Result<(S, AnswerV), Fault>;

/// The definition an argument names.
pub open spec fn def_index(p: Program, s: S, v: ValueV) -> Result<usize, Fault> {
    match v {
        ValueV::Int(i) => if i >= 0 {
            Ok(i as usize)
        } else {
            Err(said("a definition index is "@) + shown(v, p.symbols@, s.heap))
        },
        _ => Err(said("a definition index is "@) + shown(v, p.symbols@, s.heap)),
    }
}

/// What definition `i` was evaluated to.
pub open spec fn global(s: S, i: usize) -> Option<ValueV> {
    if i < s.globals.len() {
        s.globals[i as int]
    } else {
        None
    }
}

/// With room for definition `i`.
pub open spec fn room_for(g: Seq<Option<ValueV>>, i: usize) -> Seq<Option<ValueV>> {
    if i < g.len() {
        g
    } else {
        g + Seq::new((i + 1 - g.len()) as nat, |k: int| None)
    }
}

pub open spec fn with_cell(s: S, v: ValueV) -> Answered {
    let h = s.heap;
    Ok((
        S { heap: HeapV { cells: h.cells.push(v), ..h }, ..s },
        AnswerV::Value(ValueV::Ref(h.cells.len() as usize)),
    ))
}

/// A flag taken: whether it was not yet.
pub open spec fn take_once(s: S, v: ValueV) -> Answered {
    match v {
        ValueV::Ref(k) => {
            let h = s.heap;
            if k < h.cells.len() {
                Ok((
                    S { heap: HeapV { cells: h.cells.update(k as int, ValueV::Bool(true)), ..h }, ..s },
                    AnswerV::Value(ValueV::Bool(h.cells[k as int] != ValueV::Bool(true))),
                ))
            } else {
                Ok((s, AnswerV::Value(ValueV::Bool(true))))
            }
        },
        other => Err(said("takeOnce: expected a flag, got "@) + said(kind(other))),
    }
}

/// A primitive, with the few that need the machine answered here. This machine keeps every
/// continuation on the heap, so the stack primitives have nothing to cut or rejoin.
pub open spec fn machine_prim(p: Program, s: S, op: Prim, args: Seq<ValueV>) -> Answered {
    match op {
        Prim::Once => with_cell(s, ValueV::Bool(false)),
        Prim::Detach => with_cell(s, ValueV::Unit),
        Prim::Enter | Prim::Reattach => Ok((s, AnswerV::Value(ValueV::Unit))),
        Prim::GlobalReady | Prim::GlobalGet | Prim::GlobalSet | Prim::TakeOnce => if args.len() < 1 || (op
            == Prim::GlobalSet && args.len() < 2) {
            Err(said("too few arguments"@))
        } else if op == Prim::TakeOnce {
            take_once(s, args[0])
        } else {
            match def_index(p, s, args[0]) {
                Err(e) => Err(e),
                Ok(i) => if op == Prim::GlobalReady {
                    Ok((s, AnswerV::Value(ValueV::Bool(global(s, i) is Some))))
                } else if op == Prim::GlobalGet {
                    match global(s, i) {
                        Some(v) => Ok((s, AnswerV::Value(v))),
                        None => Err(said("a definition read before it was evaluated"@)),
                    }
                } else {
                    Ok((
                        S { globals: room_for(s.globals, i).update(i as int, Some(args[1])), ..s },
                        AnswerV::Value(ValueV::Unit),
                    ))
                },
            }
        },
        _ => match prim_op(op, args, cx_of(p, s)) {
            Ok((h, a)) => Ok((S { heap: h, ..s }, a)),
            Err(e) => Err(e),
        },
    }
}

/// A primitive without the machine.
pub open spec fn bare_prim(p: Program, s: S, op: Prim, args: Seq<ValueV>) -> Answered {
    match prim_op(op, args, cx_of(p, s)) {
        Ok((h, a)) => Ok((S { heap: h, ..s }, a)),
        Err(e) => Err(e),
    }
}

/// Where a value goes that an operation comes to: in front of the environment.
pub open spec fn produced(p: Program, s: S, b: Block, v: ValueV) -> Stepped {
    entered(p, s, b, seq![v] + s.env)
}

/// On to one of a branch's continuations, neither of which changes the environment.
pub open spec fn branched(p: Program, s: S, blocks: Seq<Block>, v: ValueV) -> Stepped {
    entered(
        p,
        s,
        if falsey(v) {
            blocks[0]
        } else {
            blocks[1]
        },
        s.env,
    )
}

/// A primitive's answer taken to a branch, or waited for.
pub open spec fn branch_on(p: Program, blocks: Seq<Block>, a: Answered) -> Stepped {
    match a {
        Err(e) => Err(e),
        Ok((s, AnswerV::Value(v))) => branched(p, s, blocks, v),
        Ok((s, AnswerV::Ask(op, args))) => Ok((s, OutV::Ask(op, args))),
    }
}

/// A primitive's answer put in front of the environment, or waited for.
pub open spec fn produce_answer(p: Program, b: Block, a: Answered) -> Stepped {
    match a {
        Err(e) => Err(e),
        Ok((s, AnswerV::Value(v))) => produced(p, s, b, v),
        Ok((s, AnswerV::Ask(op, args))) => Ok((s, OutV::Ask(op, args))),
    }
}

pub open spec fn branch_op(p: Program, s: S, op: Extern, args: Seq<Name>, blocks: Seq<Block>) -> Stepped {
    if blocks.len() != 2 {
        Err(said("a branch needs 2 continuations, got "@) + said(digits(blocks.len())))
    } else {
        match op {
            Extern::BranchPrim(f) => match look_all(p, s, args, args.len()) {
                Err(e) => Err(e),
                Ok(vs) => branch_on(p, blocks, bare_prim(p, s, f, vs)),
            },
            Extern::BranchPrimK(f, l) => match look_all(p, s, args, args.len()) {
                Err(e) => Err(e),
                Ok(vs) => branch_on(p, blocks, bare_prim(p, s, f, vs.push(literal(l, p.symbols@)))),
            },
            _ => if args.len() != 1 {
                Err(said("a branch needs 1 argument, got "@) + said(digits(args.len())))
            } else {
                match look(p, s, args[0]) {
                    Err(e) => Err(e),
                    Ok(v) => branched(p, s, blocks, v),
                }
            },
        }
    }
}

/// A record of labels and as many values: the last of a label is the one that counts.
pub open spec fn labelled(ls: Seq<Sym>, vs: Seq<ValueV>, n: nat) -> Seq<(Sym, ValueV)>
    decreases n,
{
    if n == 0 || n > ls.len() || n > vs.len() {
        Seq::empty()
    } else {
        put_label(labelled(ls, vs, (n - 1) as nat), ls[n - 1], vs[n - 1])
    }
}

/// A record with a field put in its place, over what it was.
pub open spec fn put_label(fs: Seq<(Sym, ValueV)>, l: Sym, v: ValueV) -> Seq<(Sym, ValueV)>
    decreases fs.len(),
{
    if fs.len() == 0 || fs.last().0 < l {
        fs.push((l, v))
    } else if fs.last().0 == l {
        fs.drop_last().push((l, v))
    } else {
        put_label(fs.drop_last(), l, v).push(fs.last())
    }
}

/// A constructor's field, by its label.
pub open spec fn data_field(p: Program, c: Sym, l: Sym, vs: Seq<ValueV>) -> Option<ValueV> {
    let fs = p.ctor_fields@;
    let i = ctor_at(fs, c, 0);
    if i < fs.len() {
        let ls = fs[i as int].1@;
        let k = label_at(ls, l, 0);
        if k < ls.len() && k < vs.len() {
            Some(vs[k as int])
        } else {
            None
        }
    } else {
        None
    }
}

pub open spec fn tail_name(p: Program, c: Sym) -> Seq<char> {
    let t = text_at(p.symbols@, c);
    behind_colons(t, t.len())
}

pub open spec fn select(p: Program, l: Sym, v: ValueV) -> Result<ValueV, Fault> {
    match v {
        ValueV::Record(fs) => match field_of(fs, l) {
            Some(x) => Ok(x),
            None => Err(said("no field `"@) + said(text_at(p.symbols@, l)) + said("` on this record"@)),
        },
        ValueV::Data(c, _, vs) => match data_field(p, c, l, vs) {
            Some(x) => Ok(x),
            None => Err(
                said("`"@) + said(tail_name(p, c)) + said("` has no field `"@) + said(text_at(p.symbols@, l)) + said(
                    "`"@,
                ),
            ),
        },
        other => Err(
            said("selected `."@) + said(text_at(p.symbols@, l)) + said("` from "@) + said(kind(other)),
        ),
    }
}

pub open spec fn element(p: Program, i: usize, v: ValueV) -> Result<ValueV, Fault> {
    match v {
        ValueV::Data(c, _, fs) => if i < fs.len() {
            Ok(fs[i as int])
        } else {
            Err(said("`"@) + said(text_at(p.symbols@, c)) + said("` has no field "@) + said(digits(i as nat)))
        },
        ValueV::Array(xs) => if i < xs.len() {
            Ok(xs[i as int])
        } else {
            Err(said("array of "@) + said(digits(xs.len())) + said(" has no element "@) + said(digits(i as nat)))
        },
        other => Err(said("took field "@) + said(digits(i as nat)) + said(" of "@) + said(kind(other))),
    }
}

/// An effect no handler in the program answers. A failed assertion is an error with its own
/// message, and output is printed; nothing else is done here.
pub open spec fn native(p: Program, s: S, effect: Sym, op: Sym, vs: Seq<ValueV>) -> Stepped {
    let (e, o) = (text_at(p.symbols@, effect), text_at(p.symbols@, op));
    if e == "Test"@ && o == "fail"@ && vs.len() == 1 {
        Err(shown(vs[0], p.symbols@, s.heap))
    } else if e == "Console"@ && o == "writeOutput"@ && vs.len() == 1 {
        Ok((
            s,
            OutV::Print(
                match vs[0] {
                    ValueV::Str(t) => said(t),
                    v => shown(v, p.symbols@, s.heap),
                },
            ),
        ))
    } else {
        Err(said("unhandled effect "@) + said(tail_name(p, effect)) + said("."@) + said(o))
    }
}

pub open spec fn produce_or(p: Program, s: S, b: Block, r: Result<ValueV, Fault>) -> Stepped {
    match r {
        Ok(v) => produced(p, s, b, v),
        Err(e) => Err(e),
    }
}

pub open spec fn value_op(p: Program, s: S, op: Extern, vs: Seq<ValueV>, b: Block) -> Stepped {
    match op {
        Extern::Lit(l) => produced(p, s, b, literal(l, p.symbols@)),
        Extern::Native(e, o) => native(p, s, e, o, vs),
        Extern::Prim(f) => produce_answer(p, b, machine_prim(p, s, f, vs)),
        Extern::PrimK(f, l) => produce_answer(p, b, machine_prim(p, s, f, vs.push(literal(l, p.symbols@)))),
        Extern::Array => produced(p, s, b, ValueV::Array(vs)),
        Extern::Record(ls) => if ls@.len() != vs.len() {
            Err(
                said("a record of "@) + said(digits(ls@.len())) + said(" labels given "@) + said(digits(vs.len())) + said(
                    " values"@,
                ),
            )
        } else {
            produced(p, s, b, ValueV::Record(labelled(ls@, vs, ls@.len())))
        },
        Extern::Select(l) => if vs.len() < 1 {
            Err(said("too few arguments"@))
        } else {
            produce_or(p, s, b, select(p, l, vs[0]))
        },
        Extern::Extend(l) => if vs.len() < 2 {
            Err(said("too few arguments"@))
        } else {
            match vs[0] {
                ValueV::Record(fs) => produced(p, s, b, ValueV::Record(put_label(fs, l, vs[1]))),
                other => Err(
                    said("extended "@) + said(kind(other)) + said(" with `."@) + said(text_at(p.symbols@, l)) + said(
                        "`"@,
                    ),
                ),
            }
        },
        Extern::Field(i) => if vs.len() < 1 {
            Err(said("too few arguments"@))
        } else {
            produce_or(p, s, b, element(p, i, vs[0]))
        },
        _ => Err(said("too few arguments"@)),
    }
}

/// An operation.
pub open spec fn extern_op(p: Program, s: S, op: Extern, args: Seq<Name>, blocks: Seq<Block>) -> Stepped {
    if op.branches() {
        branch_op(p, s, op, args, blocks)
    } else if blocks.len() != 1 {
        Err(said("a value-producing extern needs 1 continuation, got "@) + said(digits(blocks.len())))
    } else {
        match look_all(p, s, args, args.len()) {
            Err(e) => Err(e),
            Ok(vs) => value_op(p, s, op, vs, blocks[0]),
        }
    }
}

pub open spec fn substituted(p: Program, s: S, sel: Seq<Name>, b: Block) -> Stepped {
    if sel.len() != b.params@.len() {
        Err(
            said("substitute of "@) + said(digits(sel.len())) + said(" values into a block of "@) + said(
                digits(b.params@.len()),
            ) + said(" parameters"@),
        )
    } else {
        match look_all(p, s, sel, sel.len()) {
            Err(e) => Err(e),
            Ok(vs) => entered(p, s, b, vs),
        }
    }
}

pub open spec fn jumped(p: Program, s: S, l: Label) -> Stepped {
    let i = defined(p.defs@, l, 0);
    if i < p.defs@.len() {
        entered(p, s, p.defs@[i as int].block, s.env)
    } else {
        Err(said("jump to undefined label Label("@) + said(digits(l.0 as nat)) + said(")"@))
    }
}

/// One transition.
#[verifier::opaque]
pub open spec fn stepped(p: Program, s: S) -> Stepped {
    match s.stmt {
        Statement::Substitute(sel, b) => substituted(p, s, sel@, *b),
        Statement::Jump(l) => jumped(p, s, l),
        Statement::Let { name, tag, ctor, fields, rest } => match look_all(p, s, fields@, fields@.len()) {
            Err(e) => Err(e),
            Ok(vs) => bound(p, s, name, ValueV::Data(ctor, tag, vs), *rest),
        },
        Statement::Switch { scrutinee, arms, default } => switched(p, s, scrutinee, arms@, *default),
        Statement::New { name, captures, methods, rest } => match look_all(p, s, captures@, captures@.len()) {
            Err(e) => Err(e),
            Ok(vs) => bound(p, s, name, ValueV::Obj(vs, methods), *rest),
        },
        Statement::Invoke(n, tag) => invoked(p, s, n, tag),
        Statement::Extern { op, args, blocks } => extern_op(p, s, op, args@, blocks@),
        Statement::Error(msg) => Err(said(msg@)),
        Statement::Mark(_, inner) => Ok((S { stmt: *inner, ..s }, OutV::Next)),
    }
}

/// What was waited for has come to `v`.
pub open spec fn answered(p: Program, s: S, v: ValueV) -> Stepped {
    match s.stmt {
        Statement::Extern { op, args, blocks } => if op.branches() && blocks@.len() == 2 {
            branched(p, s, blocks@, v)
        } else if !op.branches() && blocks@.len() == 1 {
            produced(p, s, blocks@[0], v)
        } else {
            Err(said("nothing was asked for"@))
        },
        _ => Err(said("nothing was asked for"@)),
    }
}

} // verus!
