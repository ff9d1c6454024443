//! What every primitive comes to.

use super::compact::{compactable, goes_in, Uncompactable};
use super::equal::{equals, value_eq};
use super::hash::{fed, feed, Unhashable};
use super::norm::norm;
use super::prim::{
    array, array_op, as_index, as_string, ask, cx, fail, fail_with, index_of, is_array_op, is_one, is_outcome,
    is_two, one_number, out_of_bounds, past_end, run_array, run_one, run_show, run_two, takes, two_numbers, value,
    value_answer, Answer, AnswerV, Cx, Outcome, Table,
};
use super::shown::{all_vals, Heap, HeapV};
use super::text::{is_look, is_text, look_op, run_look, run_text, text_op};
use super::value::{copies, val, vals, value_facts, Value, ValueV};
use crate::eval::prim::RuntimeError;
use crate::eval::show::say;
use crate::eval::shown::{pieces, said, PieceV};
use crate::terms::prim::Prim;
use crate::terms::symbol::{text_at, Symbols};
use crate::terms::ty::share;
use std::rc::Rc;
use vstd::prelude::*;

verus! {

broadcast use value_facts;

/// What a primitive comes to, and the heap it leaves.
pub type Done = Result<(HeapV, AnswerV), Seq<PieceV>>;

/// A primitive that leaves the heap alone.
pub open spec fn kept(h: HeapV, o: Outcome) -> Done {
    match o {
        Ok(a) => Ok((h, a)),
        Err(e) => Err(e),
    }
}

pub open spec fn is_done(r: Result<Answer, RuntimeError>, h: HeapV, want: Done) -> bool {
    match (r, want) {
        (Ok(a), Ok((w, b))) => h == w && a@ == b,
        (Err(e), Err(w)) => pieces(e.msg@) == w,
        _ => false,
    }
}

/// The mutable array an argument is.
pub open spec fn array_at(v: ValueV, cx: Cx) -> Result<usize, Seq<PieceV>> {
    match v {
        ValueV::MutArray(k) => Ok(k),
        _ => Err(said("expected a mutable array, got "@) + cx.shown(v)),
    }
}

/// What a mutable array holds.
pub open spec fn held(h: HeapV, k: usize) -> Seq<ValueV> {
    if k < h.arrays.len() {
        h.arrays[k as int]
    } else {
        Seq::empty()
    }
}

/// A primitive on mutable cells.
pub open spec fn cell_op(op: Prim, args: Seq<ValueV>, cx: Cx) -> Done {
    let h = cx.heap;
    match op {
        Prim::NewRef => Ok(
            (
                HeapV { cells: h.cells.push(args[0]), ..h },
                AnswerV::Value(ValueV::Ref(h.cells.len() as usize)),
            ),
        ),
        Prim::GetRef => match args[0] {
            ValueV::Ref(k) => Ok(
                (
                    h,
                    AnswerV::Value(
                        if k < h.cells.len() {
                            h.cells[k as int]
                        } else {
                            ValueV::Unit
                        },
                    ),
                ),
            ),
            v => Err(said("getRef: expected a Ref, got "@) + cx.shown(v)),
        },
        _ => match args[0] {
            ValueV::Ref(k) => Ok(
                (
                    if k < h.cells.len() {
                        HeapV { cells: h.cells.update(k as int, args[1]), ..h }
                    } else {
                        h
                    },
                    AnswerV::Value(ValueV::Unit),
                ),
            ),
            v => Err(said("setRef: expected a Ref, got "@) + cx.shown(v)),
        },
    }
}

pub open spec fn is_cell(op: Prim) -> bool {
    op == Prim::NewRef || op == Prim::GetRef || op == Prim::SetRef
}

fn run_cell<'p>(op: Prim, args: &Vec<Value<'p>>, t: &Table<'_>, h: &mut Heap<'p>) -> (r: Result<Answer<'p>, RuntimeError>)
    requires
        is_cell(op),
        args@.len() >= takes(op),
    ensures
        is_done(r, final(h)@, cell_op(op, vals(args@), cx(*t, old(h)@))),
{
    let ghost was = h@;
    proof {
        assert forall|k: int| 0 <= k < args@.len() implies #[trigger] vals(args@)[k] == val(args@[k]) by {}
    }
    match op {
        Prim::NewRef => {
            let k: usize = h.cells.len();
            h.cells.push(args[0].copy());
            Ok(Answer::Value(Value::Ref(k)))
        },
        Prim::GetRef => match &args[0] {
            Value::Ref(k) => if *k < h.cells.len() {
                proof {
                    assert(was.cells[*k as int] == val(h.cells@[*k as int]));
                }
                Ok(Answer::Value(h.cells[*k].copy()))
            } else {
                Ok(Answer::Value(Value::Unit))
            },
            v => Err(fail_with("getRef: expected a Ref, got ", v, t, h)),
        },
        _ => match &args[0] {
            Value::Ref(k) => {
                if *k < h.cells.len() {
                    let ghost cells = h.cells@;
                    h.cells.set(*k, args[1].copy());
                    proof {
                        assert(vals(h.cells@) =~= vals(cells).update(*k as int, val(args@[1])));
                    }
                }
                Ok(Answer::Value(Value::Unit))
            },
            v => Err(fail_with("setRef: expected a Ref, got ", v, t, h)),
        },
    }
}

pub open spec fn with_array(h: HeapV, xs: Seq<ValueV>) -> Done {
    Ok((HeapV { arrays: h.arrays.push(xs), ..h }, AnswerV::Value(ValueV::MutArray(h.arrays.len() as usize))))
}

/// A primitive on mutable arrays.
pub open spec fn st_op(op: Prim, args: Seq<ValueV>, cx: Cx) -> Done {
    let h = cx.heap;
    match op {
        Prim::StNewArray => match args[0] {
            ValueV::Int(n) => if n >= 0 {
                with_array(h, Seq::new(n as usize as nat, |i: int| args[1]))
            } else {
                Err(said("stNewArray: expected a length of zero or more, got "@) + cx.shown(args[0]))
            },
            v => Err(said("stNewArray: expected a length of zero or more, got "@) + cx.shown(v)),
        },
        Prim::StThaw => match args[0] {
            ValueV::Array(xs) => with_array(h, xs),
            v => Err(said("stThaw: expected an Array, got "@) + cx.shown(v)),
        },
        _ => match array_at(args[0], cx) {
            Err(e) => Err(e),
            Ok(k) => match op {
                Prim::StArrayLen => Ok((h, AnswerV::Value(ValueV::Int(held(h, k).len() as i64)))),
                Prim::StFreeze => Ok((h, AnswerV::Value(ValueV::Array(held(h, k))))),
                Prim::StGetArray => match index_of(args[1], cx) {
                    Err(e) => Err(e),
                    Ok(i) => if i < held(h, k).len() {
                        Ok((h, AnswerV::Value(held(h, k)[i as int])))
                    } else {
                        Err(past_end("stGetArray: index "@, i, held(h, k).len()))
                    },
                },
                _ => match index_of(args[1], cx) {
                    Err(e) => Err(e),
                    Ok(i) => if i < held(h, k).len() {
                        Ok(
                            (
                                HeapV {
                                    arrays: h.arrays.update(k as int, held(h, k).update(i as int, args[2])),
                                    ..h
                                },
                                AnswerV::Value(ValueV::Unit),
                            ),
                        )
                    } else {
                        Err(past_end("stSetArray: index "@, i, held(h, k).len()))
                    },
                },
            },
        },
    }
}

pub open spec fn is_st(op: Prim) -> bool {
    match op {
        Prim::StNewArray | Prim::StGetArray | Prim::StSetArray => true,
        Prim::StArrayLen | Prim::StFreeze | Prim::StThaw => true,
        _ => false,
    }
}

fn filled<'p>(v: &Value<'p>, n: usize) -> (r: Vec<Value<'p>>)
    ensures
        vals(r@) == Seq::new(n as nat, |i: int| val(*v)),
{
    let mut r: Vec<Value<'p>> = Vec::new();
    let mut i: usize = 0;
    while i < n
        invariant
            i <= n,
            r@.len() == i,
            forall|k: int| 0 <= k < i ==> #[trigger] r@[k] == *v,
        decreases n - i,
    {
        r.push(v.copy());
        i = i + 1;
    }
    proof {
        assert(vals(r@) =~= Seq::new(n as nat, |i: int| val(*v)));
    }
    r
}

fn keep_array<'p>(h: &mut Heap<'p>, xs: Vec<Value<'p>>) -> (r: Result<Answer<'p>, RuntimeError>)
    ensures
        is_done(r, final(h)@, with_array(old(h)@, vals(xs@))),
{
    let ghost was = h.arrays@;
    let k: usize = h.arrays.len();
    h.arrays.push(xs);
    proof {
        assert(all_vals(h.arrays@) =~= all_vals(was).push(vals(xs@)));
    }
    Ok(Answer::Value(Value::MutArray(k)))
}

fn held_len(h: &Heap<'_>, k: usize) -> (n: usize)
    ensures
        n == held(h@, k).len(),
        k < h.arrays@.len() ==> h@.arrays[k as int] == vals(h.arrays@[k as int]@),
{
    if k < h.arrays.len() {
        proof {
            assert(h@.arrays[k as int] == vals(h.arrays@[k as int]@));
        }
        h.arrays[k].len()
    } else {
        0
    }
}

fn run_st<'p>(op: Prim, args: &Vec<Value<'p>>, t: &Table<'_>, h: &mut Heap<'p>) -> (r: Result<Answer<'p>, RuntimeError>)
    requires
        is_st(op),
        args@.len() >= takes(op),
    ensures
        is_done(r, final(h)@, st_op(op, vals(args@), cx(*t, old(h)@))),
{
    let ghost was = h@;
    proof {
        assert forall|k: int| 0 <= k < args@.len() implies #[trigger] vals(args@)[k] == val(args@[k]) by {}
    }
    match op {
        Prim::StNewArray => match &args[0] {
            Value::Int(n) if *n >= 0 => {
                let n: usize = *n as usize;
                let xs: Vec<Value<'p>> = filled(&args[1], n);
                proof {
                    assert(vals(xs@) =~= Seq::new(n as nat, |i: int| vals(args@)[1]));
                }
                keep_array(h, xs)
            },
            v => Err(fail_with("stNewArray: expected a length of zero or more, got ", v, t, h)),
        },
        Prim::StThaw => match &args[0] {
            Value::Array(xs) => {
                let all: Vec<Value<'p>> = copies(xs, 0, xs.len());
                proof {
                    assert(all@ =~= xs@);
                }
                keep_array(h, all)
            },
            v => Err(fail_with("stThaw: expected an Array, got ", v, t, h)),
        },
        _ => match &args[0] {
            Value::MutArray(k) => {
                let k: usize = *k;
                let n: usize = held_len(h, k);
                match op {
                    Prim::StArrayLen => Ok(Answer::Value(Value::Int(n as i64))),
                    Prim::StFreeze => {
                        let all: Vec<Value<'p>> = if k < h.arrays.len() {
                            copies(&h.arrays[k], 0, n)
                        } else {
                            Vec::new()
                        };
                        proof {
                            assert(vals(all@) =~= held(was, k));
                        }
                        Ok(Answer::Value(Value::Array(Rc::new(all))))
                    },
                    Prim::StGetArray => match as_index(&args[1], t, h) {
                        Err(e) => Err(e),
                        Ok(i) => if i < n {
                            Ok(Answer::Value(h.arrays[k][i].copy()))
                        } else {
                            Err(out_of_bounds("stGetArray: index ", i, n))
                        },
                    },
                    _ => match as_index(&args[1], t, h) {
                        Err(e) => Err(e),
                        Ok(i) => if i < n {
                            let ghost arrays = h.arrays@;
                            let mut xs: Vec<Value<'p>> = Vec::new();
                            h.arrays.set_and_swap(k, &mut xs);
                            xs.set(i, args[2].copy());
                            proof {
                                assert(vals(xs@) =~= held(was, k).update(i as int, val(args@[2])));
                            }
                            h.arrays.set(k, xs);
                            proof {
                                assert(all_vals(h.arrays@) =~= all_vals(arrays).update(k as int, vals(xs@)));
                            }
                            Ok(Answer::Value(Value::Unit))
                        } else {
                            Err(out_of_bounds("stSetArray: index ", i, n))
                        },
                    },
                }
            },
            v => Err(fail_with("expected a mutable array, got ", v, t, h)),
        },
    }
}

pub open spec fn is_thread(op: Prim) -> bool {
    match op {
        Prim::ThreadSpawn | Prim::ThreadAwait | Prim::ThreadYield => true,
        Prim::ChannelNew | Prim::ChannelSend | Prim::ChannelReceive => true,
        _ => false,
    }
}

pub open spec fn is_stm(op: Prim) -> bool {
    match op {
        Prim::StmNew | Prim::StmRead | Prim::StmWrite | Prim::StmBegin | Prim::StmCommit => true,
        Prim::StmWait | Prim::StmNest | Prim::StmMerge | Prim::StmRollback => true,
        _ => false,
    }
}

/// What is said of a primitive this machine does not have.
pub open spec fn refusal(op: Prim) -> Option<Seq<char>> {
    if op == Prim::RunSt {
        Some("runSt reached the machine; lowering applies its body"@)
    } else if is_thread(op) {
        Some("green threads are not supported by the sequent machine"@)
    } else if is_stm(op) {
        Some("transactions are not supported by the sequent machine"@)
    } else if op == Prim::GlobalReady || op == Prim::GlobalGet || op == Prim::GlobalSet {
        Some("a definition cache reached a primitive with no machine"@)
    } else if op == Prim::Once || op == Prim::TakeOnce {
        Some("a resumption's flag reached a primitive with no machine"@)
    } else if op == Prim::Enter || op == Prim::Detach || op == Prim::Reattach {
        Some("the frame stack reached a primitive with no machine"@)
    } else {
        None
    }
}

fn refuse(op: Prim) -> (r: Option<&'static str>)
    ensures
        match (r, refusal(op)) {
            (Some(s), Some(w)) => s@ == w,
            (None, None) => true,
            _ => false,
        },
{
    match op {
        Prim::RunSt => Some("runSt reached the machine; lowering applies its body"),
        Prim::ThreadSpawn
        | Prim::ThreadAwait
        | Prim::ThreadYield
        | Prim::ChannelNew
        | Prim::ChannelSend
        | Prim::ChannelReceive => Some("green threads are not supported by the sequent machine"),
        Prim::StmNew
        | Prim::StmRead
        | Prim::StmWrite
        | Prim::StmBegin
        | Prim::StmCommit
        | Prim::StmWait
        | Prim::StmNest
        | Prim::StmMerge
        | Prim::StmRollback => Some("transactions are not supported by the sequent machine"),
        Prim::GlobalReady | Prim::GlobalGet | Prim::GlobalSet => Some(
            "a definition cache reached a primitive with no machine",
        ),
        Prim::Once | Prim::TakeOnce => Some("a resumption's flag reached a primitive with no machine"),
        Prim::Enter | Prim::Detach | Prim::Reattach => Some("the frame stack reached a primitive with no machine"),
        _ => None,
    }
}

pub open spec fn not_compact(v: ValueV, cx: Cx) -> Seq<PieceV> {
    said("expected a Compact, got "@) + cx.shown(v)
}

/// Why a value has no hash, in words.
pub open spec fn no_hash(e: Unhashable, names: Seq<Seq<char>>) -> Seq<PieceV> {
    match e {
        Unhashable::Ref => said("hash: a Ref has no hash"@),
        Unhashable::MutArray => said("hash: a mutable array has no hash"@),
        Unhashable::Function => said("hash: a function has no hash"@),
        Unhashable::Vector(c) => said("hash: a malformed vector ("@) + said(text_at(names, c)) + said(")"@),
    }
}

fn say_no_hash(e: Unhashable, names: &Symbols) -> (r: RuntimeError)
    ensures
        pieces(r.msg@) == no_hash(e, names@),
{
    match e {
        Unhashable::Ref => fail("hash: a Ref has no hash"),
        Unhashable::MutArray => fail("hash: a mutable array has no hash"),
        Unhashable::Function => fail("hash: a function has no hash"),
        Unhashable::Vector(c) => {
            let mut r: RuntimeError = fail("hash: a malformed vector (");
            say(&mut r.msg, names.text(c).as_str());
            say(&mut r.msg, ")");
            r
        },
    }
}

/// Why a value cannot go in a compact region, in words.
pub open spec fn no_compact(e: Uncompactable) -> Seq<PieceV> {
    match e {
        Uncompactable::Ref => said("compact: a Ref cannot go in a region"@),
        Uncompactable::MutArray => said("compact: a mutable array cannot go in a region"@),
        Uncompactable::Function => said("compact: a function cannot go in a region"@),
    }
}

fn say_no_compact(e: Uncompactable) -> (r: RuntimeError)
    ensures
        pieces(r.msg@) == no_compact(e),
{
    match e {
        Uncompactable::Ref => fail("compact: a Ref cannot go in a region"),
        Uncompactable::MutArray => fail("compact: a mutable array cannot go in a region"),
        Uncompactable::Function => fail("compact: a function cannot go in a region"),
    }
}

/// `v` put in a region: asked for of a value that can go in one.
pub open spec fn put_in(op: Prim, args: Seq<ValueV>, v: ValueV) -> Outcome {
    match goes_in(v) {
        Ok(_) => Ok(AnswerV::Ask(op, args)),
        Err(e) => Err(no_compact(e)),
    }
}

fn run_put_in<'p>(op: Prim, args: &Vec<Value<'p>>, v: &Value<'p>) -> (r: Result<Answer<'p>, RuntimeError>)
    ensures
        is_outcome(r, put_in(op, vals(args@), val(*v))),
{
    match compactable(v) {
        Ok(()) => ask(op, args),
        Err(e) => Err(say_no_compact(e)),
    }
}

/// A primitive on values as they are: equality, what is shown, regions, whose sizes are
/// asked for, and a hash, asked for of a value that has one.
pub open spec fn value_op(op: Prim, args: Seq<ValueV>, cx: Cx) -> Outcome {
    match op {
        Prim::Eq => value(ValueV::Bool(equals(args[0], args[1]))),
        Prim::Ne => value(ValueV::Bool(!equals(args[0], args[1]))),
        Prim::Display => match args[0] {
            ValueV::Str(s) => value(ValueV::Str(s)),
            v => as_string(cx.shown(v), op, args),
        },
        Prim::Show => as_string(cx.shown(args[0]), op, args),
        Prim::GetCompact => match args[0] {
            ValueV::Compact(v, _) => value(*v),
            v => Err(not_compact(v, cx)),
        },
        Prim::Compact => put_in(op, args, args[0]),
        Prim::CompactAdd => match args[0] {
            ValueV::Compact(_, _) => put_in(op, args, args[1]),
            v => Err(not_compact(v, cx)),
        },
        Prim::CompactSize => match args[0] {
            ValueV::Compact(_, _) => Ok(AnswerV::Ask(op, args)),
            v => Err(not_compact(v, cx)),
        },
        Prim::Hash => match fed(norm(args[0]), cx.names) {
            Ok(_) => Ok(AnswerV::Ask(op, args)),
            Err(e) => Err(no_hash(e, cx.names)),
        },
        _ => Ok(AnswerV::Ask(op, args)),
    }
}

fn run_value<'p>(op: Prim, args: &Vec<Value<'p>>, t: &Table<'_>, h: &Heap<'p>) -> (r: Result<Answer<'p>, RuntimeError>)
    requires
        args@.len() >= takes(op),
        args@.len() >= 1,
    ensures
        is_outcome(r, value_op(op, vals(args@), cx(*t, h@))),
{
    proof {
        assert forall|k: int| 0 <= k < args@.len() implies #[trigger] vals(args@)[k] == val(args@[k]) by {}
    }
    match op {
        Prim::Eq => value_answer(Value::Bool(value_eq(&args[0], &args[1]))),
        Prim::Ne => value_answer(Value::Bool(!value_eq(&args[0], &args[1]))),
        Prim::Display => match &args[0] {
            Value::Str(s) => value_answer(Value::Str(share(s))),
            _ => run_show(op, args, t, h),
        },
        Prim::Show => run_show(op, args, t, h),
        Prim::GetCompact => match &args[0] {
            Value::Compact(v, _) => {
                let x: Value<'p> = v.copy();
                value_answer(x)
            },
            v => Err(fail_with("expected a Compact, got ", v, t, h)),
        },
        Prim::Compact => run_put_in(op, args, &args[0]),
        Prim::CompactAdd => match &args[0] {
            Value::Compact(_, _) => run_put_in(op, args, &args[1]),
            v => Err(fail_with("expected a Compact, got ", v, t, h)),
        },
        Prim::CompactSize => match &args[0] {
            Value::Compact(_, _) => ask(op, args),
            v => Err(fail_with("expected a Compact, got ", v, t, h)),
        },
        Prim::Hash => match feed(&args[0], t.names) {
            Ok(_) => ask(op, args),
            Err(e) => Err(say_no_hash(e, t.names)),
        },
        _ => ask(op, args),
    }
}

/// What a primitive comes to. A typed one is its untyped one, at a type this machine has
/// no use for knowing.
pub open spec fn prim_op(op: Prim, args: Seq<ValueV>, cx: Cx) -> Done {
    let op = op.plain();
    if refusal(op) is Some {
        Err(said(refusal(op)->0))
    } else if args.len() < takes(op) {
        Err(said("too few arguments"@))
    } else if is_two(op) {
        kept(cx.heap, two_numbers(op, args, cx))
    } else if is_one(op) {
        kept(cx.heap, one_number(op, args, cx))
    } else if is_array_op(op) {
        kept(cx.heap, array_op(op, args, cx))
    } else if is_text(op) {
        kept(cx.heap, text_op(op, args, cx))
    } else if is_look(op) {
        kept(cx.heap, look_op(op, args, cx))
    } else if is_cell(op) {
        cell_op(op, args, cx)
    } else if is_st(op) {
        st_op(op, args, cx)
    } else {
        kept(cx.heap, value_op(op, args, cx))
    }
}

fn arity(op: Prim) -> (n: usize)
    ensures
        n == takes(op),
{
    match op {
        Prim::ArrayGetOr
        | Prim::ArraySet
        | Prim::ArraySlice
        | Prim::StringSlice
        | Prim::StringIndexOf
        | Prim::StSetArray => 3,
        Prim::Eq
        | Prim::Ne
        | Prim::ArrayGet
        | Prim::ArrayPush
        | Prim::ArrayConcat
        | Prim::StringByteAt
        | Prim::StringCompare
        | Prim::SetRef
        | Prim::StNewArray
        | Prim::StGetArray
        | Prim::CompactAdd => 2,
        Prim::Add
        | Prim::Sub
        | Prim::Mul
        | Prim::Div
        | Prim::Mod
        | Prim::Pow
        | Prim::Lt
        | Prim::Gt
        | Prim::Le
        | Prim::Ge
        | Prim::Shl
        | Prim::Shr
        | Prim::Ushr
        | Prim::BitAnd
        | Prim::BitOr
        | Prim::BitXor
        | Prim::AddF
        | Prim::SubF
        | Prim::MulF
        | Prim::DivF
        | Prim::LtF
        | Prim::GtF
        | Prim::LeF
        | Prim::GeF => 2,
        _ => 1,
    }
}

/// A primitive applied.
pub fn prim<'p>(op: Prim, args: &Vec<Value<'p>>, t: &Table<'_>, h: &mut Heap<'p>) -> (r: Result<Answer<'p>, RuntimeError>)
    ensures
        is_done(r, final(h)@, prim_op(op, vals(args@), cx(*t, old(h)@))),
{
    let op: Prim = op.untyped();
    if let Some(why) = refuse(op) {
        return Err(fail(why));
    }
    if args.len() < arity(op) {
        return Err(fail("too few arguments"));
    }
    match op {
        Prim::Add
        | Prim::Sub
        | Prim::Mul
        | Prim::Div
        | Prim::Mod
        | Prim::Pow
        | Prim::Lt
        | Prim::Gt
        | Prim::Le
        | Prim::Ge
        | Prim::Shl
        | Prim::Shr
        | Prim::Ushr
        | Prim::BitAnd
        | Prim::BitOr
        | Prim::BitXor
        | Prim::AddF
        | Prim::SubF
        | Prim::MulF
        | Prim::DivF
        | Prim::LtF
        | Prim::GtF
        | Prim::LeF
        | Prim::GeF => run_two(op, args, t, h),
        Prim::Neg
        | Prim::BitNot
        | Prim::PopCount
        | Prim::BitWidth
        | Prim::ToFloat
        | Prim::ToFloat32
        | Prim::Floor
        | Prim::ToBig
        | Prim::ToInt
        | Prim::ToWord(_) => run_one(op, args, t, h),
        Prim::ArrayLen
        | Prim::ArrayGet
        | Prim::ArrayGetOr
        | Prim::ArraySet
        | Prim::ArrayPush
        | Prim::ArrayPop
        | Prim::ArraySlice
        | Prim::ArrayConcat => run_array(op, args, t, h),
        Prim::StringToBytes
        | Prim::BytesToString
        | Prim::BytesToHex
        | Prim::BytesFromHex
        | Prim::CharCode
        | Prim::CharFromCode
        | Prim::StringToChars
        | Prim::CharsToString
        | Prim::ConcatStrings => run_text(op, args, t, h),
        Prim::StringByteLength
        | Prim::StringByteAt
        | Prim::StringSlice
        | Prim::StringCompare
        | Prim::StringIndexOf => run_look(op, args, t, h),
        Prim::NewRef | Prim::GetRef | Prim::SetRef => run_cell(op, args, t, h),
        Prim::StNewArray
        | Prim::StGetArray
        | Prim::StSetArray
        | Prim::StArrayLen
        | Prim::StFreeze
        | Prim::StThaw => run_st(op, args, t, h),
        _ => run_value(op, args, t, h),
    }
}

/// A cell gives back what was last put in it, and no other cell has changed.
pub proof fn a_cell_holds_what_was_set(args: Seq<ValueV>, cx: Cx, k: usize, other: usize)
    requires
        args.len() == 2,
        args[0] == ValueV::Ref(k),
        k < cx.heap.cells.len(),
    ensures
        match prim_op(Prim::SetRef, args, cx) {
            Ok((h, _)) => {
                let after = Cx { heap: h, ..cx };
                &&& prim_op(Prim::GetRef, seq![ValueV::Ref(k)], after) == Ok::<(HeapV, AnswerV), Seq<PieceV>>(
                    (h, AnswerV::Value(args[1])),
                )
                &&& other != k && other < cx.heap.cells.len() ==> prim_op(
                    Prim::GetRef,
                    seq![ValueV::Ref(other)],
                    after,
                ) == Ok::<(HeapV, AnswerV), Seq<PieceV>>((h, AnswerV::Value(cx.heap.cells[other as int])))
            },
            Err(_) => false,
        },
{
}

/// A mutable array gives back what was last put at an index.
pub proof fn an_array_holds_what_was_set(k: usize, i: i64, v: ValueV, cx: Cx)
    requires
        k < cx.heap.arrays.len(),
        0 <= i < cx.heap.arrays[k as int].len(),
        cx.heap.arrays[k as int].len() <= usize::MAX,
    ensures
        match prim_op(Prim::StSetArray, seq![ValueV::MutArray(k), ValueV::Int(i), v], cx) {
            Ok((h, _)) => prim_op(Prim::StGetArray, seq![ValueV::MutArray(k), ValueV::Int(i)], Cx { heap: h, ..cx })
                == Ok::<(HeapV, AnswerV), Seq<PieceV>>((h, AnswerV::Value(v))),
            Err(_) => false,
        },
{
}

} // verus!
