//! Primitives. What this machine does not do itself, it asks for: arithmetic on floats
//! and on sized integers, hashing, slicing of text, and regions.

use super::show::show;
use super::shown::{shown, Heap, HeapV};
use super::value::{append_all, copies, val, vals, value_facts, Value, ValueV};
use crate::eval::prim as num;
use crate::eval::prim::{ones, RuntimeError};
use crate::eval::show::say;
use crate::eval::shown::{pieces, said, text_of, PieceV};
use crate::eval::term as t;
use crate::eval::value as ev;
use crate::seq::ir::Tag;
use crate::terms::prim::{Prim, Width};
use crate::terms::symbol::{Sym, Symbols};
use crate::terms::ty::share;
use crate::text::{decimal, digits, signed, signed_decimal};
use std::collections::HashMap;
use std::rc::Rc;
use vstd::prelude::*;

verus! {

broadcast use {value_facts, vstd::std_specs::hash::group_hash_axioms};

/// Why a program stopped.
pub type Error = RuntimeError;

/// What a primitive comes to: a value, or something to be done outside.
#[derive(Debug)]
pub enum Answer<'p> {
    Value(Value<'p>),
    /// What this primitive of these arguments is.
    Ask(Prim, Vec<Value<'p>>),
}

/// [`Answer`], as what it is.
pub enum AnswerV {
    Value(ValueV),
    Ask(Prim, Seq<ValueV>),
}

impl<'p> View for Answer<'p> {
    type V = AnswerV;

    open spec fn view(&self) -> AnswerV {
        match self {
            Answer::Value(v) => AnswerV::Value(val(*v)),
            Answer::Ask(op, args) => AnswerV::Ask(*op, vals(args@)),
        }
    }
}

/// What a primitive reads besides its arguments.
pub struct Cx {
    pub names: Seq<Seq<char>>,
    pub tags: Map<Sym, Tag>,
    pub heap: HeapV,
}

impl Cx {
    pub open spec fn shown(self, v: ValueV) -> Seq<PieceV> {
        shown(v, self.names, self.heap)
    }
}

/// A program's names and tags.
pub struct Table<'p> {
    pub names: &'p Symbols,
    pub tags: &'p HashMap<Sym, Tag>,
}

pub open spec fn cx(t: Table, h: HeapV) -> Cx {
    Cx { names: t.names@, tags: t.tags@, heap: h }
}

/// What a primitive that leaves the heap alone comes to, or why it does not.
pub type Outcome = Result<AnswerV, Seq<PieceV>>;

pub open spec fn is_outcome(r: Result<Answer, RuntimeError>, want: Outcome) -> bool {
    match (r, want) {
        (Ok(a), Ok(w)) => a@ == w,
        (Err(e), Err(w)) => pieces(e.msg@) == w,
        _ => false,
    }
}

pub open spec fn value(v: ValueV) -> Outcome {
    Ok(AnswerV::Value(v))
}

pub fn value_answer<'p>(v: Value<'p>) -> (r: Result<Answer<'p>, RuntimeError>)
    ensures
        is_outcome(r, value(val(v))),
{
    Ok(Answer::Value(v))
}

pub fn ask<'p>(op: Prim, args: &Vec<Value<'p>>) -> (r: Result<Answer<'p>, RuntimeError>)
    ensures
        is_outcome(r, Ok(AnswerV::Ask(op, vals(args@)))),
{
    let all: Vec<Value<'p>> = copies(args, 0, args.len());
    proof {
        assert(all@ =~= args@);
    }
    Ok(Answer::Ask(op, all))
}

pub fn fail(s: &str) -> (e: RuntimeError)
    ensures
        pieces(e.msg@) == said(s@),
{
    num::fail(s)
}

pub fn fail_with(s: &str, v: &Value<'_>, t: &Table<'_>, h: &Heap<'_>) -> (e: RuntimeError)
    ensures
        pieces(e.msg@) == said(s@) + cx(*t, h@).shown(val(*v)),
{
    let mut e: RuntimeError = fail(s);
    show(&mut e.msg, v, t.names, h);
    e
}

// --- numbers ---------------------------------------------------------------

/// The primitive of the reference evaluator that does what `op` does to integers.
pub open spec fn int_prim(op: Prim) -> Option<t::Prim> {
    match op {
        Prim::Add => Some(t::Prim::Add),
        Prim::Sub => Some(t::Prim::Sub),
        Prim::Mul => Some(t::Prim::Mul),
        Prim::Div => Some(t::Prim::Div),
        Prim::Mod => Some(t::Prim::Mod),
        Prim::Pow => Some(t::Prim::Pow),
        Prim::Lt => Some(t::Prim::Lt),
        Prim::Gt => Some(t::Prim::Gt),
        Prim::Le => Some(t::Prim::Le),
        Prim::Ge => Some(t::Prim::Ge),
        Prim::Shl => Some(t::Prim::Shl),
        Prim::Shr => Some(t::Prim::Shr),
        Prim::Ushr => Some(t::Prim::Ushr),
        Prim::BitAnd => Some(t::Prim::BitAnd),
        Prim::BitOr => Some(t::Prim::BitOr),
        Prim::BitXor => Some(t::Prim::BitXor),
        _ => None,
    }
}

fn as_int_prim(op: Prim) -> (r: Option<t::Prim>)
    ensures
        r == int_prim(op),
        match r {
            Some(p) => num::is_int_op(p),
            None => true,
        },
{
    match op {
        Prim::Add => Some(t::Prim::Add),
        Prim::Sub => Some(t::Prim::Sub),
        Prim::Mul => Some(t::Prim::Mul),
        Prim::Div => Some(t::Prim::Div),
        Prim::Mod => Some(t::Prim::Mod),
        Prim::Pow => Some(t::Prim::Pow),
        Prim::Lt => Some(t::Prim::Lt),
        Prim::Gt => Some(t::Prim::Gt),
        Prim::Le => Some(t::Prim::Le),
        Prim::Ge => Some(t::Prim::Ge),
        Prim::Shl => Some(t::Prim::Shl),
        Prim::Shr => Some(t::Prim::Shr),
        Prim::Ushr => Some(t::Prim::Ushr),
        Prim::BitAnd => Some(t::Prim::BitAnd),
        Prim::BitOr => Some(t::Prim::BitOr),
        Prim::BitXor => Some(t::Prim::BitXor),
        _ => None,
    }
}

/// The one that does what `op` does to integers of any size.
pub open spec fn big_prim(op: Prim) -> Option<t::Prim> {
    match op {
        Prim::Add => Some(t::Prim::AddB),
        Prim::Sub => Some(t::Prim::SubB),
        Prim::Mul => Some(t::Prim::MulB),
        Prim::Div => Some(t::Prim::DivB),
        Prim::Mod => Some(t::Prim::ModB),
        Prim::Pow => Some(t::Prim::PowB),
        Prim::Lt => Some(t::Prim::LtB),
        Prim::Gt => Some(t::Prim::GtB),
        Prim::Le => Some(t::Prim::LeB),
        Prim::Ge => Some(t::Prim::GeB),
        _ => None,
    }
}

fn as_big_prim(op: Prim) -> (r: Option<t::Prim>)
    ensures
        r == big_prim(op),
        match r {
            Some(p) => num::is_big_op(p),
            None => true,
        },
{
    match op {
        Prim::Add => Some(t::Prim::AddB),
        Prim::Sub => Some(t::Prim::SubB),
        Prim::Mul => Some(t::Prim::MulB),
        Prim::Div => Some(t::Prim::DivB),
        Prim::Mod => Some(t::Prim::ModB),
        Prim::Pow => Some(t::Prim::PowB),
        Prim::Lt => Some(t::Prim::LtB),
        Prim::Gt => Some(t::Prim::GtB),
        Prim::Le => Some(t::Prim::LeB),
        Prim::Ge => Some(t::Prim::GeB),
        _ => None,
    }
}

/// The one that does what `op` does to floats.
pub open spec fn float_prim(op: Prim) -> Option<t::Prim> {
    match op {
        Prim::AddF => Some(t::Prim::AddF),
        Prim::SubF => Some(t::Prim::SubF),
        Prim::MulF => Some(t::Prim::MulF),
        Prim::DivF => Some(t::Prim::DivF),
        Prim::LtF => Some(t::Prim::LtF),
        Prim::GtF => Some(t::Prim::GtF),
        Prim::LeF => Some(t::Prim::LeF),
        Prim::GeF => Some(t::Prim::GeF),
        _ => None,
    }
}

fn as_float_prim(op: Prim) -> (r: Option<t::Prim>)
    ensures
        r == float_prim(op),
        match r {
            Some(p) => num::is_float_op(p),
            None => true,
        },
{
    match op {
        Prim::AddF => Some(t::Prim::AddF),
        Prim::SubF => Some(t::Prim::SubF),
        Prim::MulF => Some(t::Prim::MulF),
        Prim::DivF => Some(t::Prim::DivF),
        Prim::LtF => Some(t::Prim::LtF),
        Prim::GtF => Some(t::Prim::GtF),
        Prim::LeF => Some(t::Prim::LeF),
        Prim::GeF => Some(t::Prim::GeF),
        _ => None,
    }
}

/// What the reference evaluator's answer about numbers is here.
pub open spec fn from_eval(o: num::Outcome, op: Prim, args: Seq<ValueV>) -> Outcome {
    match o {
        Err(e) => Err(e),
        Ok(num::AnswerV::Value(v)) => match v {
            ev::ValueV::Int(n) => value(ValueV::Int(n)),
            ev::ValueV::BigInt(n) => value(ValueV::BigInt(n)),
            ev::ValueV::Bool(b) => value(ValueV::Bool(b)),
            _ => Ok(AnswerV::Ask(op, args)),
        },
        Ok(_) => Ok(AnswerV::Ask(op, args)),
    }
}

fn taken<'p>(r: Result<num::Answer, RuntimeError>, op: Prim, args: &Vec<Value<'p>>, Ghost(o): Ghost<num::Outcome>) -> (a:
    Result<Answer<'p>, RuntimeError>)
    requires
        num::is_outcome(r, o),
    ensures
        is_outcome(a, from_eval(o, op, vals(args@))),
{
    broadcast use ev::value_facts;

    match r {
        Err(e) => Err(e),
        Ok(num::Answer::Value(v)) => match v {
            ev::Value::Int(n) => int_answer(n),
            ev::Value::BigInt(b) => value_answer(Value::BigInt(b)),
            ev::Value::Bool(b) => value_answer(Value::Bool(b)),
            _ => ask(op, args),
        },
        Ok(_) => ask(op, args),
    }
}

pub open spec fn is_number(v: ValueV) -> bool {
    v is Int || v is BigInt || v is Float || v is Word || v is Float32
}

fn number(v: &Value<'_>) -> (r: bool)
    ensures
        r == is_number(val(*v)),
{
    match v {
        Value::Int(_) | Value::BigInt(_) | Value::Float(_) | Value::Word(_, _) | Value::Float32(_) => true,
        _ => false,
    }
}

pub open spec fn not_number(v: ValueV, cx: Cx) -> Seq<PieceV> {
    said("expected a number, got "@) + cx.shown(v)
}

/// A primitive on two numbers: done here on two of one kind, and asked for on others.
/// On two `Int`s it is the evaluator's arithmetic, done by the evaluator's functions.
pub open spec fn two_numbers(op: Prim, args: Seq<ValueV>, cx: Cx) -> Outcome {
    let (a, b) = (args[0], args[1]);
    if !is_number(a) {
        Err(not_number(a, cx))
    } else if !is_number(b) {
        Err(not_number(b, cx))
    } else {
        match (a, b) {
            (ValueV::Int(x), ValueV::Int(y)) => match int_prim(op) {
                Some(p) => from_eval(num::int_op(p, x, y), op, args),
                None => Ok(AnswerV::Ask(op, args)),
            },
            (ValueV::BigInt(x), ValueV::BigInt(y)) => match big_prim(op) {
                Some(p) => from_eval(num::big_op(p, x, y), op, args),
                None => Ok(AnswerV::Ask(op, args)),
            },
            (ValueV::Float(x), ValueV::Float(y)) => match float_prim(op) {
                Some(p) => from_eval(num::float_op(p, x, y), op, args),
                None => Ok(AnswerV::Ask(op, args)),
            },
            _ => Ok(AnswerV::Ask(op, args)),
        }
    }
}

pub open spec fn is_two(op: Prim) -> bool {
    int_prim(op) is Some || float_prim(op) is Some
}

pub fn run_two<'p>(op: Prim, args: &Vec<Value<'p>>, t: &Table<'_>, h: &Heap<'_>) -> (r: Result<Answer<'p>, RuntimeError>)
    requires
        args@.len() >= 2,
    ensures
        is_outcome(r, two_numbers(op, vals(args@), cx(*t, h@))),
{
    proof {
        assert(vals(args@)[0] == val(args@[0]));
        assert(vals(args@)[1] == val(args@[1]));
    }
    if !number(&args[0]) {
        return Err(fail_with("expected a number, got ", &args[0], t, h));
    }
    if !number(&args[1]) {
        return Err(fail_with("expected a number, got ", &args[1], t, h));
    }
    match (&args[0], &args[1]) {
        (Value::Int(x), Value::Int(y)) => match as_int_prim(op) {
            Some(p) => taken(num::run_int(p, *x, *y), op, args, Ghost(num::int_op(p, *x, *y))),
            None => ask(op, args),
        },
        (Value::BigInt(x), Value::BigInt(y)) => match as_big_prim(op) {
            Some(p) => taken(
                num::run_big(p, x, y),
                op,
                args,
                Ghost(num::big_op(p, crate::terms::big::int_of(x@), crate::terms::big::int_of(y@))),
            ),
            None => ask(op, args),
        },
        (Value::Float(x), Value::Float(y)) => match as_float_prim(op) {
            Some(p) => taken(num::run_float(p, *x, *y), op, args, Ghost(num::float_op(p, *x, *y))),
            None => ask(op, args),
        },
        _ => ask(op, args),
    }
}

/// A primitive on one number: done here where no float and no sized integer is in it.
pub open spec fn one_number(op: Prim, args: Seq<ValueV>, cx: Cx) -> Outcome {
    let a = args[0];
    if !is_number(a) {
        Err(not_number(a, cx))
    } else {
        match (op, a) {
            (Prim::Neg, ValueV::Int(n)) => value(
                ValueV::Int(
                    if n == i64::MIN {
                        n
                    } else {
                        (-n) as i64
                    },
                ),
            ),
            (Prim::BitNot, ValueV::Int(n)) => value(ValueV::Int(!n)),
            (Prim::PopCount, ValueV::Int(n)) => value(ValueV::Int(ones(n as u64, 64) as i64)),
            (Prim::ToBig, ValueV::Int(n)) => value(ValueV::BigInt(n as int)),
            (Prim::ToBig, ValueV::BigInt(n)) => value(ValueV::BigInt(n)),
            (Prim::ToInt, ValueV::Int(n)) => value(ValueV::Int(n)),
            (Prim::ToInt, ValueV::BigInt(n)) => if i64::MIN <= n <= i64::MAX {
                value(ValueV::Int(n as i64))
            } else {
                Err(said("`toInt`: "@) + said(signed(n)) + said(" does not fit in Int"@))
            },
            _ => Ok(AnswerV::Ask(op, args)),
        }
    }
}

pub open spec fn is_one(op: Prim) -> bool {
    match op {
        Prim::Neg | Prim::BitNot | Prim::PopCount | Prim::BitWidth => true,
        Prim::ToFloat | Prim::ToFloat32 | Prim::Floor | Prim::ToBig | Prim::ToInt | Prim::ToWord(_) => true,
        _ => false,
    }
}

pub fn run_one<'p>(op: Prim, args: &Vec<Value<'p>>, t: &Table<'_>, h: &Heap<'_>) -> (r: Result<Answer<'p>, RuntimeError>)
    requires
        args@.len() >= 1,
    ensures
        is_outcome(r, one_number(op, vals(args@), cx(*t, h@))),
{
    proof {
        assert(vals(args@)[0] == val(args@[0]));
    }
    if !number(&args[0]) {
        return Err(fail_with("expected a number, got ", &args[0], t, h));
    }
    match &args[0] {
        Value::Int(n) => {
            let n: i64 = *n;
            match op {
                Prim::Neg => {
                    let m: i64 = if n == i64::MIN {
                        n
                    } else {
                        -n
                    };
                    int_answer(m)
                },
                Prim::BitNot => {
                    let m: i64 = !n;
                    int_answer(m)
                },
                Prim::PopCount => {
                    let m: u32 = num::count_ones(n as u64);
                    let m: i64 = m as i64;
                    int_answer(m)
                },
                Prim::ToBig => value_answer(Value::BigInt(Rc::new(crate::terms::big::from_i64(n)))),
                Prim::ToInt => int_answer(n),
                _ => ask(op, args),
            }
        },
        Value::BigInt(b) => match op {
            Prim::ToBig => value_answer(Value::BigInt(share(b))),
            Prim::ToInt => match crate::terms::big::to_i64(b.as_slice()) {
                Some(n) => int_answer(n),
                None => {
                    let mut e: RuntimeError = fail("`toInt`: ");
                    say(&mut e.msg, crate::terms::big::written(b.as_slice()).as_str());
                    say(&mut e.msg, " does not fit in Int");
                    Err(e)
                },
            },
            _ => ask(op, args),
        },
        _ => ask(op, args),
    }
}

// --- text as it is shown -----------------------------------------------------

/// What is shown, as a string: asked for, where a float is in it.
pub open spec fn as_string(ps: Seq<PieceV>, op: Prim, args: Seq<ValueV>) -> Outcome {
    if forall|i: int| 0 <= i < ps.len() ==> #[trigger] ps[i] is Text {
        value(ValueV::Str(text_of(ps, ps.len())))
    } else {
        Ok(AnswerV::Ask(op, args))
    }
}

pub fn run_show<'p>(op: Prim, args: &Vec<Value<'p>>, t: &Table<'_>, h: &Heap<'p>) -> (r: Result<Answer<'p>, RuntimeError>)
    requires
        args@.len() >= 1,
    ensures
        is_outcome(r, as_string(cx(*t, h@).shown(val(args@[0])), op, vals(args@))),
{
    match args[0].to_text(t.names, h) {
        Some(s) => value_answer(Value::Str(Rc::new(s))),
        None => ask(op, args),
    }
}

// --- arrays and bytes ------------------------------------------------------

/// What is wanted of an argument that is not an array.
pub open spec fn not_array(v: ValueV, cx: Cx) -> Seq<PieceV> {
    said("expected an Array, got "@) + cx.shown(v)
}

pub open spec fn not_int(v: ValueV, cx: Cx) -> Seq<PieceV> {
    said("expected an Int, got "@) + cx.shown(v)
}

/// The index an argument is.
pub open spec fn index_of(v: ValueV, cx: Cx) -> Result<usize, Seq<PieceV>> {
    match v {
        ValueV::Int(n) => if n < 0 {
            Err(said("expected a non-negative index, got "@) + said(signed(n as int)))
        } else {
            Ok(n as usize)
        },
        _ => Err(not_int(v, cx)),
    }
}

pub fn as_array<'a, 'p>(v: &'a Value<'p>, t: &Table<'_>, h: &Heap<'_>) -> (r: Result<&'a Rc<Vec<Value<'p>>>, RuntimeError>)
    ensures
        match (r, val(*v)) {
            (Ok(a), ValueV::Array(xs)) => vals(a@) == xs && val(*v) is Array,
            (Err(e), ValueV::Array(_)) => false,
            (Ok(_), _) => false,
            (Err(e), _) => pieces(e.msg@) == not_array(val(*v), cx(*t, h@)),
        },
{
    match v {
        Value::Array(a) => Ok(a),
        _ => Err(fail_with("expected an Array, got ", v, t, h)),
    }
}

pub fn as_int(v: &Value<'_>, t: &Table<'_>, h: &Heap<'_>) -> (r: Result<i64, RuntimeError>)
    ensures
        match (r, val(*v)) {
            (Ok(a), ValueV::Int(n)) => a == n,
            (Err(e), ValueV::Int(_)) => false,
            (Ok(_), _) => false,
            (Err(e), _) => pieces(e.msg@) == not_int(val(*v), cx(*t, h@)),
        },
{
    match v {
        Value::Int(n) => Ok(*n),
        _ => Err(fail_with("expected an Int, got ", v, t, h)),
    }
}

pub fn as_index(v: &Value<'_>, t: &Table<'_>, h: &Heap<'_>) -> (r: Result<usize, RuntimeError>)
    ensures
        match (r, index_of(val(*v), cx(*t, h@))) {
            (Ok(a), Ok(n)) => a == n,
            (Err(e), Err(w)) => pieces(e.msg@) == w,
            _ => false,
        },
{
    match as_int(v, t, h) {
        Err(e) => Err(e),
        Ok(i) => {
            if i < 0 {
                let mut e: RuntimeError = fail("expected a non-negative index, got ");
                say(&mut e.msg, signed_decimal(i).as_str());
                Err(e)
            } else {
                Ok(i as usize)
            }
        },
    }
}

/// An index past the end of an array.
pub open spec fn past_end(what: Seq<char>, i: usize, n: nat) -> Seq<PieceV> {
    said(what) + said(digits(i as nat)) + said(" out of bounds (len "@) + said(digits(n)) + said(")"@)
}

pub fn out_of_bounds(what: &str, i: usize, n: usize) -> (e: RuntimeError)
    ensures
        pieces(e.msg@) == past_end(what@, i, n as nat),
{
    let mut e: RuntimeError = fail(what);
    say(&mut e.msg, decimal(i as u64).as_str());
    say(&mut e.msg, " out of bounds (len ");
    say(&mut e.msg, decimal(n as u64).as_str());
    say(&mut e.msg, ")");
    e
}

/// `n`, or the nearer end of `lo..=hi`.
pub open spec fn clamped(n: int, lo: int, hi: int) -> int {
    if n < lo {
        lo
    } else if n > hi {
        hi
    } else {
        n
    }
}

pub open spec fn get_op(xs: Seq<ValueV>, i: usize) -> Outcome {
    if i < xs.len() {
        value(xs[i as int])
    } else {
        Err(past_end("arrayGet: index "@, i, xs.len()))
    }
}

pub open spec fn set_op(xs: Seq<ValueV>, i: usize, v: ValueV) -> Outcome {
    if i < xs.len() {
        value(ValueV::Array(xs.update(i as int, v)))
    } else {
        Err(past_end("arraySet: index "@, i, xs.len()))
    }
}

pub open spec fn slice_op(xs: Seq<ValueV>, f: i64, t: i64) -> Outcome {
    let from = clamped(f as int, 0, xs.len() as int);
    let to = clamped(t as int, from, xs.len() as int);
    value(ValueV::Array(xs.subrange(from, to)))
}

/// A primitive on arrays.
pub open spec fn array_op(op: Prim, args: Seq<ValueV>, cx: Cx) -> Outcome {
    match op {
        Prim::ArrayGetOr => match args[1] {
            ValueV::Array(xs) => match index_of(args[2], cx) {
                Ok(i) => value(
                    if i < xs.len() {
                        xs[i as int]
                    } else {
                        args[0]
                    },
                ),
                Err(e) => Err(e),
            },
            _ => Err(not_array(args[1], cx)),
        },
        _ => match args[0] {
            ValueV::Array(xs) => match op {
                Prim::ArrayLen => value(ValueV::Int(xs.len() as i64)),
                Prim::ArrayGet => match index_of(args[1], cx) {
                    Ok(i) => get_op(xs, i),
                    Err(e) => Err(e),
                },
                Prim::ArraySet => match index_of(args[1], cx) {
                    Ok(i) => set_op(xs, i, args[2]),
                    Err(e) => Err(e),
                },
                Prim::ArrayPush => value(ValueV::Array(xs.push(args[1]))),
                Prim::ArrayPop => if xs.len() == 0 {
                    Err(said("arrayPop: empty array"@))
                } else {
                    value(ValueV::Array(xs.drop_last()))
                },
                Prim::ArraySlice => match (args[1], args[2]) {
                    (ValueV::Int(f), ValueV::Int(t)) => slice_op(xs, f, t),
                    (ValueV::Int(_), _) => Err(not_int(args[2], cx)),
                    _ => Err(not_int(args[1], cx)),
                },
                _ => match args[1] {
                    ValueV::Array(ys) => value(ValueV::Array(xs + ys)),
                    _ => Err(not_array(args[1], cx)),
                },
            },
            _ => Err(not_array(args[0], cx)),
        },
    }
}

pub open spec fn is_array_op(op: Prim) -> bool {
    match op {
        Prim::ArrayLen | Prim::ArrayGet | Prim::ArrayGetOr | Prim::ArraySet | Prim::ArrayPush => true,
        Prim::ArrayPop | Prim::ArraySlice | Prim::ArrayConcat => true,
        _ => false,
    }
}

pub fn array<'p>(xs: Vec<Value<'p>>) -> (r: Result<Answer<'p>, RuntimeError>)
    ensures
        is_outcome(r, value(ValueV::Array(vals(xs@)))),
{
    Ok(Answer::Value(Value::Array(Rc::new(xs))))
}

pub fn int_answer<'p>(n: i64) -> (r: Result<Answer<'p>, RuntimeError>)
    ensures
        is_outcome(r, value(ValueV::Int(n))),
{
    Ok(Answer::Value(Value::Int(n)))
}

fn all_of<'p>(xs: &Rc<Vec<Value<'p>>>) -> (r: Vec<Value<'p>>)
    ensures
        r@ == xs@,
{
    let r: Vec<Value<'p>> = copies(xs, 0, xs.len());
    proof {
        assert(r@ =~= xs@);
    }
    r
}

fn clamp(n: i128, lo: i128, hi: i128) -> (r: i128)
    ensures
        r == clamped(n as int, lo as int, hi as int),
{
    if n < lo {
        lo
    } else if n > hi {
        hi
    } else {
        n
    }
}

fn run_slice<'p>(a: &Rc<Vec<Value<'p>>>, f: i64, t: i64) -> (r: Result<Answer<'p>, RuntimeError>)
    ensures
        is_outcome(r, slice_op(vals(a@), f, t)),
{
    let n: i128 = a.len() as i128;
    let from: i128 = clamp(f as i128, 0, n);
    let to: i128 = clamp(t as i128, from, n);
    let part: Vec<Value<'p>> = copies(a, from as usize, to as usize);
    proof {
        assert(vals(part@) =~= vals(a@).subrange(from as int, to as int));
    }
    array(part)
}

pub fn run_array<'p>(op: Prim, args: &Vec<Value<'p>>, t: &Table<'_>, h: &Heap<'_>) -> (r: Result<Answer<'p>, RuntimeError>)
    requires
        is_array_op(op),
        args@.len() >= takes(op),
    ensures
        is_outcome(r, array_op(op, vals(args@), cx(*t, h@))),
{
    proof {
        assert forall|k: int| 0 <= k < args@.len() implies #[trigger] vals(args@)[k] == val(args@[k]) by {}
    }
    if let Prim::ArrayGetOr = op {
        let a: &Rc<Vec<Value<'p>>> = match as_array(&args[1], t, h) {
            Ok(a) => a,
            Err(e) => return Err(e),
        };
        let i: usize = match as_index(&args[2], t, h) {
            Ok(i) => i,
            Err(e) => return Err(e),
        };
        return Ok(
            Answer::Value(
                if i < a.len() {
                    a[i].copy()
                } else {
                    args[0].copy()
                },
            ),
        );
    }
    let a: &Rc<Vec<Value<'p>>> = match as_array(&args[0], t, h) {
        Ok(a) => a,
        Err(e) => return Err(e),
    };
    let n: usize = a.len();
    match op {
        Prim::ArrayLen => Ok(Answer::Value(Value::Int(n as i64))),
        Prim::ArrayGet => match as_index(&args[1], t, h) {
            Err(e) => Err(e),
            Ok(i) => if i < n {
                Ok(Answer::Value(a[i].copy()))
            } else {
                Err(out_of_bounds("arrayGet: index ", i, n))
            },
        },
        Prim::ArraySet => match as_index(&args[1], t, h) {
            Err(e) => Err(e),
            Ok(i) => if i < n {
                let mut xs: Vec<Value<'p>> = all_of(a);
                xs.set(i, args[2].copy());
                proof {
                    assert(vals(xs@) =~= vals(a@).update(i as int, val(args@[2])));
                }
                array(xs)
            } else {
                Err(out_of_bounds("arraySet: index ", i, n))
            },
        },
        Prim::ArrayPush => {
            let mut xs: Vec<Value<'p>> = all_of(a);
            xs.push(args[1].copy());
            array(xs)
        },
        Prim::ArrayPop => {
            if n == 0 {
                return Err(fail("arrayPop: empty array"));
            }
            let xs: Vec<Value<'p>> = copies(a, 0, n - 1);
            proof {
                assert(vals(xs@) =~= vals(a@).drop_last());
            }
            array(xs)
        },
        Prim::ArraySlice => {
            let f: i64 = match as_int(&args[1], t, h) {
                Ok(f) => f,
                Err(e) => return Err(e),
            };
            let to: i64 = match as_int(&args[2], t, h) {
                Ok(n) => n,
                Err(e) => return Err(e),
            };
            run_slice(a, f, to)
        },
        _ => {
            let b: &Rc<Vec<Value<'p>>> = match as_array(&args[1], t, h) {
                Ok(b) => b,
                Err(e) => return Err(e),
            };
            let mut xs: Vec<Value<'p>> = all_of(a);
            append_all(&mut xs, b);
            proof {
                assert(vals(xs@) =~= vals(a@) + vals(b@));
            }
            array(xs)
        },
    }
}

/// The bytes the first `n` of some values are, or why they are not.
pub open spec fn bytes_in(xs: Seq<ValueV>, what: Seq<char>, cx: Cx, n: nat) -> Result<
    Seq<u8>,
    Seq<PieceV>,
>
    decreases n,
{
    if n == 0 || n > xs.len() {
        Ok(Seq::empty())
    } else {
        match bytes_in(xs, what, cx, (n - 1) as nat) {
            Err(e) => Err(e),
            Ok(b) => match xs[n - 1] {
                ValueV::Int(i) => if 0 <= i <= 255 {
                    Ok(b.push(i as u8))
                } else {
                    Err(not_byte(xs[n - 1], what, cx))
                },
                ValueV::Word(w, b0) => if w == Width::U8 {
                    Ok(b.push(b0 as u8))
                } else {
                    Err(not_byte(xs[n - 1], what, cx))
                },
                _ => Err(not_byte(xs[n - 1], what, cx)),
            },
        }
    }
}

pub open spec fn not_byte(v: ValueV, what: Seq<char>, cx: Cx) -> Seq<PieceV> {
    said("`"@) + said(what) + said("`: not a byte: "@) + cx.shown(v)
}

fn refuse_byte(v: &Value<'_>, what: &str, t: &Table<'_>, h: &Heap<'_>) -> (e: RuntimeError)
    ensures
        pieces(e.msg@) == not_byte(val(*v), what@, cx(*t, h@)),
{
    let mut e: RuntimeError = fail("`");
    say(&mut e.msg, what);
    say(&mut e.msg, "`: not a byte: ");
    show(&mut e.msg, v, t.names, h);
    e
}

/// The bytes of an array of integers in `0..=255`.
pub open spec fn bytes_of_value(v: ValueV, what: Seq<char>, cx: Cx) -> Result<Seq<u8>, Seq<PieceV>> {
    match v {
        ValueV::Array(xs) => bytes_in(xs, what, cx, xs.len()),
        _ => Err(not_array(v, cx)),
    }
}

pub fn bytes_of<'p>(v: &Value<'p>, what: &str, t: &Table<'_>, h: &Heap<'_>) -> (r: Result<Vec<u8>, RuntimeError>)
    ensures
        match (r, bytes_of_value(val(*v), what@, cx(*t, h@))) {
            (Ok(b), Ok(w)) => b@ == w,
            (Err(e), Err(w)) => pieces(e.msg@) == w,
            _ => false,
        },
{
    let a: &Rc<Vec<Value<'p>>> = match as_array(v, t, h) {
        Ok(a) => a,
        Err(e) => return Err(e),
    };
    let ghost xs = vals(a@);
    let mut buf: Vec<u8> = Vec::new();
    let mut failed: Option<RuntimeError> = None;
    let mut i: usize = 0;
    while i < a.len()
        invariant
            i <= a@.len(),
            xs == vals(a@),
            match bytes_in(xs, what@, cx(*t, h@), i as nat) {
                Ok(b) => failed is None && buf@ == b,
                Err(w) => failed is Some && pieces(failed->0.msg@) == w,
            },
        decreases a@.len() - i,
    {
        proof {
            assert(xs[i as int] == val(a@[i as int]));
        }
        if failed.is_none() {
            match &a[i] {
                Value::Int(n) if *n >= 0 && *n <= 255 => {
                    buf.push(*n as u8);
                },
                Value::Word(Width::U8, b0) => {
                    buf.push(*b0 as u8);
                },
                other => {
                    failed = Some(refuse_byte(other, what, t, h));
                },
            }
        }
        i = i + 1;
    }
    match failed {
        None => Ok(buf),
        Some(e) => Err(e),
    }
}

/// How many arguments a primitive takes.
pub open spec fn takes(op: Prim) -> nat {
    if is_two(op) {
        2
    } else {
        match op {
            Prim::ArrayGetOr | Prim::ArraySet | Prim::ArraySlice | Prim::StringSlice | Prim::StringIndexOf => 3,
            Prim::StSetArray => 3,
            Prim::Eq | Prim::Ne | Prim::ArrayGet | Prim::ArrayPush | Prim::ArrayConcat | Prim::StringByteAt => 2,
            Prim::StringCompare | Prim::SetRef | Prim::StNewArray | Prim::StGetArray | Prim::CompactAdd => 2,
            _ => 1,
        }
    }
}

} // verus!
