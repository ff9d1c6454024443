//! Primitives.

use super::equal::{equals, value_eq};
use super::hex::{from_hex, hex_text, hex_text_reads_back, unhexed, whole_hex};
use super::show::{say, show};
use super::shown::{pieces, said, shown, Piece, PieceV};
use super::term::{Prim, JUST, NONE};
use super::value::{append_all, copies, val, vals, value_facts, Value, ValueV};
use crate::terms::big::{self, int_of, quotient, remainder};
use crate::terms::float;
use crate::terms::symbol::Symbols;
use crate::text::{decimal, digits, signed, signed_decimal};
use std::rc::Rc;
use vstd::arithmetic::power::pow;
use vstd::prelude::*;
use vstd::utf8::encode_utf8;

verus! {

broadcast use value_facts;

/// Why a program stopped.
#[derive(Debug)]
pub struct RuntimeError {
    pub msg: Vec<Piece>,
}

/// Arithmetic on floats, which is done outside.
#[derive(Debug, Clone, Copy, PartialEq, Eq, Structural)]
pub enum Arithmetic {
    Add,
    Sub,
    Mul,
    Div,
}

/// What a primitive comes to: a value, or something to be done outside.
#[derive(Debug)]
pub enum Answer {
    Value(Value),
    /// The result of arithmetic on two floats, given by their bits.
    Float(Arithmetic, u64, u64),
    /// An integer, as a float.
    ToFloat(i64),
    /// The floor of a finite float, as an integer.
    Floor(u64),
    /// Unit, once this has been printed; with a line's end behind it or not.
    Print(Vec<Piece>, bool),
}

/// [`Answer`], as what it is.
pub enum AnswerV {
    Value(ValueV),
    Float(Arithmetic, u64, u64),
    ToFloat(i64),
    Floor(u64),
    Print(Seq<PieceV>, bool),
}

impl View for Answer {
    type V = AnswerV;

    open spec fn view(&self) -> AnswerV {
        match self {
            Answer::Value(v) => AnswerV::Value(val(*v)),
            Answer::Float(op, a, b) => AnswerV::Float(*op, *a, *b),
            Answer::ToFloat(n) => AnswerV::ToFloat(*n),
            Answer::Floor(b) => AnswerV::Floor(*b),
            Answer::Print(ps, line) => AnswerV::Print(pieces(ps@), *line),
        }
    }
}

/// What a primitive comes to, or why it does not.
pub type Outcome = Result<AnswerV, Seq<PieceV>>;

/// `r` is what was wanted.
pub open spec fn is_outcome(r: Result<Answer, RuntimeError>, want: Outcome) -> bool {
    match (r, want) {
        (Ok(a), Ok(w)) => a@ == w,
        (Err(e), Err(w)) => pieces(e.msg@) == w,
        _ => false,
    }
}

pub open spec fn value(v: ValueV) -> Outcome {
    Ok(AnswerV::Value(v))
}

/// An integer as a word of 64 bits holds it.
pub open spec fn wrapped(n: int) -> i64 {
    let m = n % 0x1_0000_0000_0000_0000;
    (if m >= 0x8000_0000_0000_0000 {
        m - 0x1_0000_0000_0000_0000
    } else {
        m
    }) as i64
}

/// `i64::wrapping_div`: the quotient rounded towards zero, wrapped. It panics for a
/// divisor of zero.
pub assume_specification[ i64::wrapping_div ](a: i64, b: i64) -> (r: i64)
    requires
        b != 0,
    ensures
        r == wrapped(quotient(a as int, b as int)),
;

/// `i64::wrapping_rem`: what that quotient leaves. It panics for a divisor of zero.
pub assume_specification[ i64::wrapping_rem ](a: i64, b: i64) -> (r: i64)
    requires
        b != 0,
    ensures
        r == wrapped(remainder(a as int, b as int)),
;

/// `i64::wrapping_pow`: the power, wrapped.
pub assume_specification[ i64::wrapping_pow ](a: i64, e: u32) -> (r: i64)
    ensures
        r == wrapped(pow(a as int, e as nat)),
;

/// What `String::from_utf8_lossy` reads bytes as.
pub uninterp spec fn lossy(b: Seq<u8>) -> Seq<char>;

/// `String::from_utf8_lossy`: the text of some bytes, which is a function of the bytes
/// alone.
#[verifier::external_body]
pub(crate) fn read_lossy(b: &[u8]) -> (r: String)
    ensures
        r@ == lossy(b@),
{
    String::from_utf8_lossy(b).into_owned()
}

pub fn fail(s: &str) -> (e: RuntimeError)
    ensures
        pieces(e.msg@) == said(s@),
{
    let mut msg: Vec<Piece> = Vec::new();
    say(&mut msg, s);
    proof {
        assert(pieces(msg@) =~= said(s@));
    }
    RuntimeError { msg }
}

pub fn fail_with(s: &str, v: &Value, names: &Symbols) -> (e: RuntimeError)
    ensures
        pieces(e.msg@) == said(s@) + shown(val(*v), names@),
{
    let mut e: RuntimeError = fail(s);
    show(&mut e.msg, v, names);
    e
}

/// Two operands of one kind were wanted.
pub open spec fn wanted_two(what: Seq<char>, a: ValueV, b: ValueV, names: Seq<Seq<char>>) -> Seq<PieceV> {
    said(what) + shown(a, names) + said(" and "@) + shown(b, names)
}

fn want_two(what: &str, a: &Value, b: &Value, names: &Symbols) -> (e: RuntimeError)
    ensures
        pieces(e.msg@) == wanted_two(what@, val(*a), val(*b), names@),
{
    let mut e: RuntimeError = fail_with(what, a, names);
    say(&mut e.msg, " and ");
    show(&mut e.msg, b, names);
    e
}

/// Integer arithmetic.
pub open spec fn int_op(op: Prim, x: i64, y: i64) -> Outcome {
    match op {
        Prim::Add => value(ValueV::Int(x.wrapping_add(y))),
        Prim::Sub => value(ValueV::Int(x.wrapping_sub(y))),
        Prim::Mul => value(ValueV::Int(x.wrapping_mul(y))),
        Prim::Div => if y == 0 {
            Err(said("division by zero"@))
        } else {
            value(ValueV::Int(wrapped(quotient(x as int, y as int))))
        },
        Prim::Mod => if y == 0 {
            Err(said("modulo by zero"@))
        } else {
            value(ValueV::Int(wrapped(remainder(x as int, y as int))))
        },
        Prim::Pow => if 0 <= y <= u32::MAX {
            value(ValueV::Int(wrapped(pow(x as int, y as nat))))
        } else {
            Err(said("`^` exponent must fit in u32, got "@) + said(signed(y as int)))
        },
        Prim::Lt => value(ValueV::Bool(x < y)),
        Prim::Gt => value(ValueV::Bool(x > y)),
        Prim::Le => value(ValueV::Bool(x <= y)),
        Prim::Ge => value(ValueV::Bool(x >= y)),
        Prim::Shl => value(ValueV::Int(x.wrapping_shl(y as u32))),
        Prim::Shr => value(ValueV::Int(x.wrapping_shr(y as u32))),
        Prim::Ushr => value(ValueV::Int((x as u64).wrapping_shr(y as u32) as i64)),
        Prim::BitAnd => value(ValueV::Int(x & y)),
        Prim::BitOr => value(ValueV::Int(x | y)),
        _ => value(ValueV::Int(x ^ y)),
    }
}

pub open spec fn is_int_op(op: Prim) -> bool {
    match op {
        Prim::Add | Prim::Sub | Prim::Mul | Prim::Div | Prim::Mod | Prim::Pow => true,
        Prim::Lt | Prim::Gt | Prim::Le | Prim::Ge => true,
        Prim::Shl | Prim::Shr | Prim::Ushr | Prim::BitAnd | Prim::BitOr | Prim::BitXor => true,
        _ => false,
    }
}

pub fn run_int(op: Prim, x: i64, y: i64) -> (r: Result<Answer, RuntimeError>)
    requires
        is_int_op(op),
    ensures
        is_outcome(r, int_op(op, x, y)),
{
    let v: Value = match op {
        Prim::Add => Value::Int(x.wrapping_add(y)),
        Prim::Sub => Value::Int(x.wrapping_sub(y)),
        Prim::Mul => Value::Int(x.wrapping_mul(y)),
        Prim::Div => {
            if y == 0 {
                return Err(fail("division by zero"));
            }
            Value::Int(x.wrapping_div(y))
        },
        Prim::Mod => {
            if y == 0 {
                return Err(fail("modulo by zero"));
            }
            Value::Int(x.wrapping_rem(y))
        },
        Prim::Pow => {
            if y < 0 || y > 0xffff_ffff {
                let mut e: RuntimeError = fail("`^` exponent must fit in u32, got ");
                say(&mut e.msg, signed_decimal(y).as_str());
                return Err(e);
            }
            Value::Int(x.wrapping_pow(y as u32))
        },
        Prim::Lt => Value::Bool(x < y),
        Prim::Gt => Value::Bool(x > y),
        Prim::Le => Value::Bool(x <= y),
        Prim::Ge => Value::Bool(x >= y),
        Prim::Shl => Value::Int(x.wrapping_shl(y as u32)),
        Prim::Shr => Value::Int(x.wrapping_shr(y as u32)),
        Prim::Ushr => Value::Int((x as u64).wrapping_shr(y as u32) as i64),
        Prim::BitAnd => Value::Int(x & y),
        Prim::BitOr => Value::Int(x | y),
        _ => Value::Int(x ^ y),
    };
    Ok(Answer::Value(v))
}

/// Arithmetic on integers of any size.
pub open spec fn big_op(op: Prim, x: int, y: int) -> Outcome {
    match op {
        Prim::AddB => value(ValueV::BigInt(x + y)),
        Prim::SubB => value(ValueV::BigInt(x - y)),
        Prim::MulB => value(ValueV::BigInt(x * y)),
        Prim::DivB => if y == 0 {
            Err(said("division by zero"@))
        } else {
            value(ValueV::BigInt(quotient(x, y)))
        },
        Prim::ModB => if y == 0 {
            Err(said("modulo by zero"@))
        } else {
            value(ValueV::BigInt(remainder(x, y)))
        },
        Prim::PowB => if 0 <= y <= u32::MAX {
            value(ValueV::BigInt(pow(x, y as nat)))
        } else {
            Err(said("`^~` exponent must fit in u32, got "@) + said(signed(y)))
        },
        Prim::LtB => value(ValueV::Bool(x < y)),
        Prim::GtB => value(ValueV::Bool(x > y)),
        Prim::LeB => value(ValueV::Bool(x <= y)),
        _ => value(ValueV::Bool(x >= y)),
    }
}

pub open spec fn is_big_op(op: Prim) -> bool {
    match op {
        Prim::AddB | Prim::SubB | Prim::MulB | Prim::DivB | Prim::ModB | Prim::PowB => true,
        Prim::LtB | Prim::GtB | Prim::LeB | Prim::GeB => true,
        _ => false,
    }
}

pub fn run_big(op: Prim, x: &Vec<u8>, y: &Vec<u8>) -> (r: Result<Answer, RuntimeError>)
    requires
        is_big_op(op),
    ensures
        is_outcome(r, big_op(op, int_of(x@), int_of(y@))),
{
    let (a, b): (&[u8], &[u8]) = (x.as_slice(), y.as_slice());
    let v: Value = match op {
        Prim::AddB => Value::BigInt(Rc::new(big::plus(a, b))),
        Prim::SubB => Value::BigInt(Rc::new(big::minus(a, b))),
        Prim::MulB => Value::BigInt(Rc::new(big::times(a, b))),
        Prim::DivB => {
            if big::is_zero(b) {
                return Err(fail("division by zero"));
            }
            Value::BigInt(Rc::new(big::over(a, b)))
        },
        Prim::ModB => {
            if big::is_zero(b) {
                return Err(fail("modulo by zero"));
            }
            Value::BigInt(Rc::new(big::modulo(a, b)))
        },
        Prim::PowB => match big::to_u32(b) {
            None => {
                let mut e: RuntimeError = fail("`^~` exponent must fit in u32, got ");
                say(&mut e.msg, big::written(b).as_str());
                return Err(e);
            },
            Some(n) => Value::BigInt(Rc::new(big::power(a, n))),
        },
        Prim::LtB => Value::Bool(big::less(a, b)),
        Prim::GtB => Value::Bool(big::less(b, a)),
        Prim::LeB => Value::Bool(!big::less(b, a)),
        _ => Value::Bool(!big::less(a, b)),
    };
    Ok(Answer::Value(v))
}

/// Arithmetic on floats is asked for; comparisons are answered.
pub open spec fn float_op(op: Prim, x: u64, y: u64) -> Outcome {
    match op {
        Prim::AddF => Ok(AnswerV::Float(Arithmetic::Add, x, y)),
        Prim::SubF => Ok(AnswerV::Float(Arithmetic::Sub, x, y)),
        Prim::MulF => Ok(AnswerV::Float(Arithmetic::Mul, x, y)),
        Prim::DivF => Ok(AnswerV::Float(Arithmetic::Div, x, y)),
        Prim::LtF => value(ValueV::Bool(float::below(x, y))),
        Prim::GtF => value(ValueV::Bool(float::below(y, x))),
        Prim::LeF => value(ValueV::Bool(float::below(x, y) || float::alike(x, y))),
        _ => value(ValueV::Bool(float::below(y, x) || float::alike(x, y))),
    }
}

pub open spec fn is_float_op(op: Prim) -> bool {
    match op {
        Prim::AddF | Prim::SubF | Prim::MulF | Prim::DivF => true,
        Prim::LtF | Prim::GtF | Prim::LeF | Prim::GeF => true,
        _ => false,
    }
}

pub fn run_float(op: Prim, x: u64, y: u64) -> (r: Result<Answer, RuntimeError>)
    requires
        is_float_op(op),
    ensures
        is_outcome(r, float_op(op, x, y)),
{
    Ok(
        match op {
            Prim::AddF => Answer::Float(Arithmetic::Add, x, y),
            Prim::SubF => Answer::Float(Arithmetic::Sub, x, y),
            Prim::MulF => Answer::Float(Arithmetic::Mul, x, y),
            Prim::DivF => Answer::Float(Arithmetic::Div, x, y),
            Prim::LtF => Answer::Value(Value::Bool(float::less(x, y))),
            Prim::GtF => Answer::Value(Value::Bool(float::less(y, x))),
            Prim::LeF => Answer::Value(Value::Bool(float::less(x, y) || float::equal(x, y))),
            _ => Answer::Value(Value::Bool(float::less(y, x) || float::equal(x, y))),
        },
    )
}

/// What is wanted of an argument that is not an array.
pub open spec fn not_array(v: ValueV, names: Seq<Seq<char>>) -> Seq<PieceV> {
    said("expected an Array, got "@) + shown(v, names)
}

pub open spec fn not_int(v: ValueV, names: Seq<Seq<char>>) -> Seq<PieceV> {
    said("expected an Int, got "@) + shown(v, names)
}

/// The index an argument is.
pub open spec fn index_of(v: ValueV, names: Seq<Seq<char>>) -> Result<usize, Seq<PieceV>> {
    match v {
        ValueV::Int(n) => if n < 0 {
            Err(said("negative array index "@) + said(signed(n as int)))
        } else {
            Ok(n as usize)
        },
        _ => Err(not_int(v, names)),
    }
}

fn as_array<'a>(v: &'a Value, names: &Symbols) -> (r: Result<&'a Rc<Vec<Value>>, RuntimeError>)
    ensures
        match (r, val(*v)) {
            (Ok(a), ValueV::Array(xs)) => vals(a@) == xs && val(*v) is Array,
            (Err(e), ValueV::Array(_)) => false,
            (Ok(_), _) => false,
            (Err(e), _) => pieces(e.msg@) == not_array(val(*v), names@),
        },
{
    match v {
        Value::Array(a) => Ok(a),
        _ => Err(fail_with("expected an Array, got ", v, names)),
    }
}

fn as_int(v: &Value, names: &Symbols) -> (r: Result<i64, RuntimeError>)
    ensures
        match (r, val(*v)) {
            (Ok(a), ValueV::Int(n)) => a == n,
            (Err(e), ValueV::Int(_)) => false,
            (Ok(_), _) => false,
            (Err(e), _) => pieces(e.msg@) == not_int(val(*v), names@),
        },
{
    match v {
        Value::Int(n) => Ok(*n),
        _ => Err(fail_with("expected an Int, got ", v, names)),
    }
}

fn as_index(v: &Value, names: &Symbols) -> (r: Result<usize, RuntimeError>)
    ensures
        match (r, index_of(val(*v), names@)) {
            (Ok(a), Ok(n)) => a == n,
            (Err(e), Err(w)) => pieces(e.msg@) == w,
            _ => false,
        },
{
    match as_int(v, names) {
        Err(e) => Err(e),
        Ok(i) => {
            if i < 0 {
                let mut e: RuntimeError = fail("negative array index ");
                say(&mut e.msg, signed_decimal(i).as_str());
                Err(e)
            } else {
                Ok(i as usize)
            }
        },
    }
}

/// An index past the end of an array.
pub open spec fn past_end(what: Seq<char>, i: usize, n: nat) -> Seq<PieceV> {
    said(what) + said(digits(i as nat)) + said(" out of bounds (len "@) + said(digits(n)) + said(")"@)
}

fn out_of_bounds(what: &str, i: usize, n: usize) -> (e: RuntimeError)
    ensures
        pieces(e.msg@) == past_end(what@, i, n as nat),
{
    let mut e: RuntimeError = fail(what);
    say(&mut e.msg, decimal(i as u64).as_str());
    say(&mut e.msg, " out of bounds (len ");
    say(&mut e.msg, decimal(n as u64).as_str());
    say(&mut e.msg, ")");
    e
}

/// `n`, or the nearer end of `lo..=hi`.
pub open spec fn clamped(n: int, lo: int, hi: int) -> int {
    if n < lo {
        lo
    } else if n > hi {
        hi
    } else {
        n
    }
}

pub open spec fn get_op(xs: Seq<ValueV>, i: usize) -> Outcome {
    if i < xs.len() {
        value(xs[i as int])
    } else {
        Err(past_end("arrayGet: index "@, i, xs.len()))
    }
}

pub open spec fn set_op(xs: Seq<ValueV>, i: usize, v: ValueV) -> Outcome {
    if i < xs.len() {
        value(ValueV::Array(xs.update(i as int, v)))
    } else {
        Err(past_end("arraySet: index "@, i, xs.len()))
    }
}

pub open spec fn slice_op(xs: Seq<ValueV>, f: i64, t: i64) -> Outcome {
    let from = clamped(f as int, 0, xs.len() as int);
    let to = clamped(t as int, from, xs.len() as int);
    value(ValueV::Array(xs.subrange(from, to)))
}

/// A primitive on arrays.
pub open spec fn array_op(op: Prim, args: Seq<ValueV>, names: Seq<Seq<char>>) -> Outcome {
    match op {
        Prim::ArrayGetOr => match args[1] {
            ValueV::Array(xs) => match index_of(args[2], names) {
                Ok(i) => value(
                    if i < xs.len() {
                        xs[i as int]
                    } else {
                        args[0]
                    },
                ),
                Err(e) => Err(e),
            },
            _ => Err(not_array(args[1], names)),
        },
        _ => match args[0] {
            ValueV::Array(xs) => match op {
                Prim::ArrayLen => value(ValueV::Int(xs.len() as i64)),
                Prim::ArrayGet => match index_of(args[1], names) {
                    Ok(i) => get_op(xs, i),
                    Err(e) => Err(e),
                },
                Prim::ArraySet => match index_of(args[1], names) {
                    Ok(i) => set_op(xs, i, args[2]),
                    Err(e) => Err(e),
                },
                Prim::ArrayPush => value(ValueV::Array(xs.push(args[1]))),
                Prim::ArrayPop => if xs.len() == 0 {
                    Err(said("arrayPop: empty array"@))
                } else {
                    value(ValueV::Array(xs.drop_last()))
                },
                Prim::ArraySlice => match (args[1], args[2]) {
                    (ValueV::Int(f), ValueV::Int(t)) => slice_op(xs, f, t),
                    (ValueV::Int(_), _) => Err(not_int(args[2], names)),
                    _ => Err(not_int(args[1], names)),
                },
                _ => match args[1] {
                    ValueV::Array(ys) => value(ValueV::Array(xs + ys)),
                    _ => Err(not_array(args[1], names)),
                },
            },
            _ => Err(not_array(args[0], names)),
        },
    }
}

pub open spec fn is_array_op(op: Prim) -> bool {
    match op {
        Prim::ArrayLen | Prim::ArrayGet | Prim::ArrayGetOr | Prim::ArraySet | Prim::ArrayPush => true,
        Prim::ArrayPop | Prim::ArraySlice | Prim::ArrayConcat => true,
        _ => false,
    }
}

fn array(xs: Vec<Value>) -> (r: Result<Answer, RuntimeError>)
    ensures
        is_outcome(r, value(ValueV::Array(vals(xs@)))),
{
    Ok(Answer::Value(Value::Array(Rc::new(xs))))
}

fn number(n: i64) -> (r: Result<Answer, RuntimeError>)
    ensures
        is_outcome(r, value(ValueV::Int(n))),
{
    Ok(Answer::Value(Value::Int(n)))
}

fn all_of(xs: &Rc<Vec<Value>>) -> (r: Vec<Value>)
    ensures
        r@ == xs@,
{
    let r: Vec<Value> = copies(xs, 0, xs.len());
    proof {
        assert(r@ =~= xs@);
    }
    r
}

fn clamp(n: i128, lo: i128, hi: i128) -> (r: i128)
    ensures
        r == clamped(n as int, lo as int, hi as int),
{
    if n < lo {
        lo
    } else if n > hi {
        hi
    } else {
        n
    }
}

fn run_slice(a: &Rc<Vec<Value>>, f: i64, t: i64) -> (r: Result<Answer, RuntimeError>)
    ensures
        is_outcome(r, slice_op(vals(a@), f, t)),
{
    let n: i128 = a.len() as i128;
    let from: i128 = clamp(f as i128, 0, n);
    let to: i128 = clamp(t as i128, from, n);
    let part: Vec<Value> = copies(a, from as usize, to as usize);
    proof {
        assert(vals(part@) =~= vals(a@).subrange(from as int, to as int));
    }
    array(part)
}

fn run_array(op: Prim, args: &Vec<Value>, names: &Symbols) -> (r: Result<Answer, RuntimeError>)
    requires
        is_array_op(op),
        args@.len() >= op.takes(),
    ensures
        is_outcome(r, array_op(op, vals(args@), names@)),
{
    proof {
        assert forall|k: int| 0 <= k < args@.len() implies #[trigger] vals(args@)[k] == val(args@[k]) by {}
    }
    if let Prim::ArrayGetOr = op {
        let a: &Rc<Vec<Value>> = match as_array(&args[1], names) {
            Ok(a) => a,
            Err(e) => return Err(e),
        };
        let i: usize = match as_index(&args[2], names) {
            Ok(i) => i,
            Err(e) => return Err(e),
        };
        return Ok(
            Answer::Value(
                if i < a.len() {
                    a[i].copy()
                } else {
                    args[0].copy()
                },
            ),
        );
    }
    let a: &Rc<Vec<Value>> = match as_array(&args[0], names) {
        Ok(a) => a,
        Err(e) => return Err(e),
    };
    let n: usize = a.len();
    match op {
        Prim::ArrayLen => Ok(Answer::Value(Value::Int(n as i64))),
        Prim::ArrayGet => match as_index(&args[1], names) {
            Err(e) => Err(e),
            Ok(i) => if i < n {
                Ok(Answer::Value(a[i].copy()))
            } else {
                Err(out_of_bounds("arrayGet: index ", i, n))
            },
        },
        Prim::ArraySet => match as_index(&args[1], names) {
            Err(e) => Err(e),
            Ok(i) => if i < n {
                let mut xs: Vec<Value> = all_of(a);
                xs.set(i, args[2].copy());
                proof {
                    assert(vals(xs@) =~= vals(a@).update(i as int, val(args@[2])));
                }
                array(xs)
            } else {
                Err(out_of_bounds("arraySet: index ", i, n))
            },
        },
        Prim::ArrayPush => {
            let mut xs: Vec<Value> = all_of(a);
            xs.push(args[1].copy());
            array(xs)
        },
        Prim::ArrayPop => {
            if n == 0 {
                return Err(fail("arrayPop: empty array"));
            }
            let xs: Vec<Value> = copies(a, 0, n - 1);
            proof {
                assert(vals(xs@) =~= vals(a@).drop_last());
            }
            array(xs)
        },
        Prim::ArraySlice => {
            let f: i64 = match as_int(&args[1], names) {
                Ok(f) => f,
                Err(e) => return Err(e),
            };
            let t: i64 = match as_int(&args[2], names) {
                Ok(t) => t,
                Err(e) => return Err(e),
            };
            run_slice(a, f, t)
        },
        _ => {
            let b: &Rc<Vec<Value>> = match as_array(&args[1], names) {
                Ok(b) => b,
                Err(e) => return Err(e),
            };
            let mut xs: Vec<Value> = all_of(a);
            append_all(&mut xs, b);
            proof {
                assert(vals(xs@) =~= vals(a@) + vals(b@));
            }
            array(xs)
        },
    }
}

/// How many of the first `n` bits of `w` are set.
pub open spec fn ones(w: u64, n: nat) -> nat
    decreases n,
{
    if n == 0 {
        0
    } else {
        ones(w, (n - 1) as nat) + (if (w >> ((n - 1) as u64)) & 1 == 1 {
            1nat
        } else {
            0nat
        })
    }
}

pub fn count_ones(w: u64) -> (r: u32)
    ensures
        r == ones(w, 64),
{
    let mut n: u32 = 0;
    let mut i: u64 = 0;
    while i < 64
        invariant
            i <= 64,
            n <= i,
            n == ones(w, i as nat),
        decreases 64 - i,
    {
        if (w >> i) & 1 == 1 {
            n = n + 1;
        }
        i = i + 1;
    }
    n
}

/// Bytes, as an array of integers.
pub open spec fn byte_values(b: Seq<u8>) -> Seq<ValueV> {
    Seq::new(b.len(), |i: int| ValueV::Int(b[i] as i64))
}

pub fn bytes_value(b: &[u8]) -> (r: Vec<Value>)
    ensures
        vals(r@) == byte_values(b@),
{
    let mut r: Vec<Value> = Vec::new();
    let mut i: usize = 0;
    while i < b.len()
        invariant
            i <= b@.len(),
            vals(r@) == byte_values(b@.take(i as int)),
        decreases b@.len() - i,
    {
        r.push(Value::Int(b[i] as i64));
        i = i + 1;
        proof {
            assert(vals(r@) =~= byte_values(b@.take(i as int)));
        }
    }
    proof {
        assert(b@.take(i as int) =~= b@);
    }
    r
}

/// The bytes the first `n` of some values are, or why they are not.
pub open spec fn bytes_in(xs: Seq<ValueV>, what: Seq<char>, names: Seq<Seq<char>>, n: nat) -> Result<
    Seq<u8>,
    Seq<PieceV>,
>
    decreases n,
{
    if n == 0 || n > xs.len() {
        Ok(Seq::empty())
    } else {
        match bytes_in(xs, what, names, (n - 1) as nat) {
            Err(e) => Err(e),
            Ok(b) => match xs[n - 1] {
                ValueV::Int(i) => if 0 <= i <= 255 {
                    Ok(b.push(i as u8))
                } else {
                    Err(not_byte(xs[n - 1], what, names))
                },
                _ => Err(not_byte(xs[n - 1], what, names)),
            },
        }
    }
}

pub open spec fn not_byte(v: ValueV, what: Seq<char>, names: Seq<Seq<char>>) -> Seq<PieceV> {
    said("`"@) + said(what) + said("`: not a byte (0..255): "@) + shown(v, names)
}

fn refuse_byte(v: &Value, what: &str, names: &Symbols) -> (e: RuntimeError)
    ensures
        pieces(e.msg@) == not_byte(val(*v), what@, names@),
{
    let mut e: RuntimeError = fail("`");
    say(&mut e.msg, what);
    say(&mut e.msg, "`: not a byte (0..255): ");
    show(&mut e.msg, v, names);
    e
}

/// The bytes of an array of integers in `0..=255`.
pub open spec fn bytes_of_value(v: ValueV, what: Seq<char>, names: Seq<Seq<char>>) -> Result<Seq<u8>, Seq<PieceV>> {
    match v {
        ValueV::Array(xs) => bytes_in(xs, what, names, xs.len()),
        _ => Err(not_array(v, names)),
    }
}

fn bytes_of(v: &Value, what: &str, names: &Symbols) -> (r: Result<Vec<u8>, RuntimeError>)
    ensures
        match (r, bytes_of_value(val(*v), what@, names@)) {
            (Ok(b), Ok(w)) => b@ == w,
            (Err(e), Err(w)) => pieces(e.msg@) == w,
            _ => false,
        },
{
    let a: &Rc<Vec<Value>> = match as_array(v, names) {
        Ok(a) => a,
        Err(e) => return Err(e),
    };
    let ghost xs = vals(a@);
    let mut buf: Vec<u8> = Vec::new();
    let mut failed: Option<RuntimeError> = None;
    let mut i: usize = 0;
    while i < a.len()
        invariant
            i <= a@.len(),
            xs == vals(a@),
            match bytes_in(xs, what@, names@, i as nat) {
                Ok(b) => failed is None && buf@ == b,
                Err(w) => failed is Some && pieces(failed->0.msg@) == w,
            },
        decreases a@.len() - i,
    {
        proof {
            assert(xs[i as int] == val(a@[i as int]));
        }
        if failed.is_none() {
            match &a[i] {
                Value::Int(n) if *n >= 0 && *n <= 255 => {
                    buf.push(*n as u8);
                },
                other => {
                    failed = Some(refuse_byte(other, what, names));
                },
            }
        }
        i = i + 1;
    }
    match failed {
        None => Ok(buf),
        Some(e) => Err(e),
    }
}

/// A primitive on bytes.
pub open spec fn byte_op(op: Prim, v: ValueV, names: Seq<Seq<char>>) -> Outcome {
    match op {
        Prim::StringToBytes => match v {
            ValueV::Str(s) => value(ValueV::Array(byte_values(encode_utf8(s)))),
            _ => Err(said("`stringToBytes` expects a String, got "@) + shown(v, names)),
        },
        Prim::BytesToString => match bytes_of_value(v, "bytesToString"@, names) {
            Ok(b) => value(ValueV::Str(lossy(b))),
            Err(e) => Err(e),
        },
        Prim::BytesToHex => match bytes_of_value(v, "bytesToHex"@, names) {
            Ok(b) => value(ValueV::Str(hex_text(b, b.len()))),
            Err(e) => Err(e),
        },
        _ => match v {
            ValueV::Str(s) => match whole_hex(encode_utf8(s)) {
                Some(b) => value(ValueV::Ctor(JUST, seq![ValueV::Array(byte_values(b))])),
                None => value(ValueV::Ctor(NONE, Seq::empty())),
            },
            _ => Err(said("`bytesFromHex` expects a String, got "@) + shown(v, names)),
        },
    }
}

pub open spec fn is_byte_op(op: Prim) -> bool {
    match op {
        Prim::StringToBytes | Prim::BytesToString | Prim::BytesToHex | Prim::BytesFromHex => true,
        _ => false,
    }
}

fn run_bytes(op: Prim, v: &Value, names: &Symbols) -> (r: Result<Answer, RuntimeError>)
    requires
        is_byte_op(op),
    ensures
        is_outcome(r, byte_op(op, val(*v), names@)),
{
    match op {
        Prim::StringToBytes => match v {
            Value::Str(s) => array(bytes_value(s.as_str().as_bytes())),
            _ => Err(fail_with("`stringToBytes` expects a String, got ", v, names)),
        },
        Prim::BytesToString => match bytes_of(v, "bytesToString", names) {
            Ok(b) => Ok(Answer::Value(Value::Str(Rc::new(read_lossy(b.as_slice()))))),
            Err(e) => Err(e),
        },
        Prim::BytesToHex => match bytes_of(v, "bytesToHex", names) {
            Ok(b) => Ok(Answer::Value(Value::Str(Rc::new(from_hex(&b))))),
            Err(e) => Err(e),
        },
        _ => match v {
            Value::Str(s) => match unhexed(s.as_str().as_bytes()) {
                Some(b) => {
                    let mut one: Vec<Value> = Vec::new();
                    one.push(Value::Array(Rc::new(bytes_value(b.as_slice()))));
                    proof {
                        assert(vals(one@) =~= seq![ValueV::Array(byte_values(b@))]);
                    }
                    Ok(Answer::Value(Value::Ctor(JUST, Rc::new(one))))
                },
                None => Ok(Answer::Value(Value::Ctor(NONE, Rc::new(Vec::new())))),
            },
            _ => Err(fail_with("`bytesFromHex` expects a String, got ", v, names)),
        },
    }
}

/// A primitive on one value.
pub open spec fn one_op(op: Prim, v: ValueV, names: Seq<Seq<char>>) -> Outcome {
    match op {
        Prim::ToFloat => match v {
            ValueV::Int(n) => Ok(AnswerV::ToFloat(n)),
            _ => Err(said("`toFloat` expects an Int, got "@) + shown(v, names)),
        },
        Prim::Floor => match v {
            ValueV::Float(b) => if float::finite(b) {
                Ok(AnswerV::Floor(b))
            } else {
                Err(said("`floor` of a non-finite Float: "@) + seq![PieceV::Float(b)])
            },
            _ => Err(said("`floor` expects a Float, got "@) + shown(v, names)),
        },
        Prim::ToBig => match v {
            ValueV::Int(n) => value(ValueV::BigInt(n as int)),
            _ => Err(said("`toBigInt` expects an Int, got "@) + shown(v, names)),
        },
        Prim::ToInt => match v {
            ValueV::BigInt(n) => if i64::MIN <= n <= i64::MAX {
                value(ValueV::Int(n as i64))
            } else {
                Err(said("`toInt`: "@) + said(signed(n)) + said(" does not fit in Int"@))
            },
            _ => Err(said("`toInt` expects a BigInt, got "@) + shown(v, names)),
        },
        Prim::Neg => match v {
            ValueV::Int(n) => value(
                ValueV::Int(
                    if n == i64::MIN {
                        n
                    } else {
                        (-n) as i64
                    },
                ),
            ),
            _ => Err(said("`neg` expects an Int, got "@) + shown(v, names)),
        },
        Prim::Print => Ok(AnswerV::Print(shown(v, names), false)),
        Prim::Println => Ok(AnswerV::Print(shown(v, names), true)),
        Prim::BitNot => match v {
            ValueV::Int(n) => value(ValueV::Int(!n)),
            _ => Err(not_int(v, names)),
        },
        _ => match v {
            ValueV::Int(n) => value(ValueV::Int(ones(n as u64, 64) as i64)),
            _ => Err(not_int(v, names)),
        },
    }
}

pub open spec fn is_one_op(op: Prim) -> bool {
    match op {
        Prim::ToFloat | Prim::Floor | Prim::ToBig | Prim::ToInt | Prim::Neg => true,
        Prim::Print | Prim::Println | Prim::BitNot | Prim::PopCount => true,
        _ => false,
    }
}

fn run_one(op: Prim, v: &Value, names: &Symbols) -> (r: Result<Answer, RuntimeError>)
    requires
        is_one_op(op),
    ensures
        is_outcome(r, one_op(op, val(*v), names@)),
{
    match op {
        Prim::ToFloat => match v {
            Value::Int(n) => Ok(Answer::ToFloat(*n)),
            _ => Err(fail_with("`toFloat` expects an Int, got ", v, names)),
        },
        Prim::Floor => match v {
            Value::Float(b) => if float::is_finite(*b) {
                Ok(Answer::Floor(*b))
            } else {
                Err(fail_with("`floor` of a non-finite Float: ", v, names))
            },
            _ => Err(fail_with("`floor` expects a Float, got ", v, names)),
        },
        Prim::ToBig => match v {
            Value::Int(n) => Ok(Answer::Value(Value::BigInt(Rc::new(big::from_i64(*n))))),
            _ => Err(fail_with("`toBigInt` expects an Int, got ", v, names)),
        },
        Prim::ToInt => match v {
            Value::BigInt(b) => match big::to_i64(b.as_slice()) {
                Some(n) => number(n),
                None => {
                    let mut e: RuntimeError = fail("`toInt`: ");
                    say(&mut e.msg, big::written(b.as_slice()).as_str());
                    say(&mut e.msg, " does not fit in Int");
                    Err(e)
                },
            },
            _ => Err(fail_with("`toInt` expects a BigInt, got ", v, names)),
        },
        Prim::Neg => match v {
            Value::Int(n) => {
                let m: i64 = if *n == i64::MIN {
                    *n
                } else {
                    -*n
                };
                number(m)
            },
            _ => Err(fail_with("`neg` expects an Int, got ", v, names)),
        },
        Prim::Print => {
            let mut out: Vec<Piece> = Vec::new();
            show(&mut out, v, names);
            proof {
                assert(pieces(out@) =~= shown(val(*v), names@));
            }
            Ok(Answer::Print(out, false))
        },
        Prim::Println => {
            let mut out: Vec<Piece> = Vec::new();
            show(&mut out, v, names);
            proof {
                assert(pieces(out@) =~= shown(val(*v), names@));
            }
            Ok(Answer::Print(out, true))
        },
        Prim::BitNot => match as_int(v, names) {
            Ok(n) => number(!n),
            Err(e) => Err(e),
        },
        _ => match as_int(v, names) {
            Ok(n) => {
                let m: u32 = count_ones(n as u64);
                number(m as i64)
            },
            Err(e) => Err(e),
        },
    }
}

/// What a primitive comes to.
pub open spec fn run_op(op: Prim, args: Seq<ValueV>, names: Seq<Seq<char>>) -> Outcome {
    if args.len() < op.takes() {
        Err(said("too few arguments"@))
    } else if is_int_op(op) {
        match (args[0], args[1]) {
            (ValueV::Int(x), ValueV::Int(y)) => int_op(op, x, y),
            _ => Err(wanted_two("expected two Ints, got "@, args[0], args[1], names)),
        }
    } else if is_big_op(op) {
        match (args[0], args[1]) {
            (ValueV::BigInt(x), ValueV::BigInt(y)) => big_op(op, x, y),
            _ => Err(wanted_two("expected two BigInts, got "@, args[0], args[1], names)),
        }
    } else if is_float_op(op) {
        match (args[0], args[1]) {
            (ValueV::Float(x), ValueV::Float(y)) => float_op(op, x, y),
            _ => Err(wanted_two("expected two Floats, got "@, args[0], args[1], names)),
        }
    } else if is_array_op(op) {
        array_op(op, args, names)
    } else if is_byte_op(op) {
        byte_op(op, args[0], names)
    } else if op == Prim::Eq {
        value(ValueV::Bool(equals(args[0], args[1])))
    } else if op == Prim::Ne {
        value(ValueV::Bool(!equals(args[0], args[1])))
    } else {
        one_op(op, args[0], names)
    }
}

/// A primitive applied.
pub fn run_prim(op: Prim, args: &Vec<Value>, names: &Symbols) -> (r: Result<Answer, RuntimeError>)
    ensures
        is_outcome(r, run_op(op, vals(args@), names@)),
{
    if args.len() < op.arity() {
        return Err(fail("too few arguments"));
    }
    proof {
        assert forall|k: int| 0 <= k < args@.len() implies #[trigger] vals(args@)[k] == val(args@[k]) by {}
    }
    match op {
        Prim::Add
        | Prim::Sub
        | Prim::Mul
        | Prim::Div
        | Prim::Mod
        | Prim::Pow
        | Prim::Lt
        | Prim::Gt
        | Prim::Le
        | Prim::Ge
        | Prim::Shl
        | Prim::Shr
        | Prim::Ushr
        | Prim::BitAnd
        | Prim::BitOr
        | Prim::BitXor => match (&args[0], &args[1]) {
            (Value::Int(x), Value::Int(y)) => run_int(op, *x, *y),
            _ => Err(want_two("expected two Ints, got ", &args[0], &args[1], names)),
        },
        Prim::AddB
        | Prim::SubB
        | Prim::MulB
        | Prim::DivB
        | Prim::ModB
        | Prim::PowB
        | Prim::LtB
        | Prim::GtB
        | Prim::LeB
        | Prim::GeB => match (&args[0], &args[1]) {
            (Value::BigInt(x), Value::BigInt(y)) => run_big(op, x, y),
            _ => Err(want_two("expected two BigInts, got ", &args[0], &args[1], names)),
        },
        Prim::AddF | Prim::SubF | Prim::MulF | Prim::DivF | Prim::LtF | Prim::GtF | Prim::LeF | Prim::GeF => match (
            &args[0],
            &args[1],
        ) {
            (Value::Float(x), Value::Float(y)) => run_float(op, *x, *y),
            _ => Err(want_two("expected two Floats, got ", &args[0], &args[1], names)),
        },
        Prim::ArrayLen
        | Prim::ArrayGet
        | Prim::ArrayGetOr
        | Prim::ArraySet
        | Prim::ArrayPush
        | Prim::ArrayPop
        | Prim::ArraySlice
        | Prim::ArrayConcat => run_array(op, args, names),
        Prim::StringToBytes | Prim::BytesToString | Prim::BytesToHex | Prim::BytesFromHex => run_bytes(
            op,
            &args[0],
            names,
        ),
        Prim::Eq => Ok(Answer::Value(Value::Bool(value_eq(&args[0], &args[1])))),
        Prim::Ne => Ok(Answer::Value(Value::Bool(!value_eq(&args[0], &args[1])))),
        _ => run_one(op, &args[0], names),
    }
}

proof fn lemma_bytes_in(b: Seq<u8>, what: Seq<char>, names: Seq<Seq<char>>, n: nat)
    requires
        n <= b.len(),
    ensures
        bytes_in(byte_values(b), what, names, n) == Ok::<Seq<u8>, Seq<PieceV>>(b.take(n as int)),
    decreases n,
{
    if n > 0 {
        lemma_bytes_in(b, what, names, (n - 1) as nat);
        assert(b.take(n as int) =~= b.take(n - 1).push(b[n - 1]));
        assert((b[n - 1] as i64) as u8 == b[n - 1]);
    } else {
        assert(b.take(0) =~= Seq::<u8>::empty());
    }
}

/// What `bytesToHex` writes of an array of bytes is two digits for each, and
/// `bytesFromHex` reads the array back from it.
pub proof fn bytes_read_back_from_hex(b: Seq<u8>, names: Seq<Seq<char>>)
    ensures
        byte_op(Prim::BytesToHex, ValueV::Array(byte_values(b)), names) == value(ValueV::Str(hex_text(b, b.len()))),
        byte_op(Prim::BytesFromHex, ValueV::Str(hex_text(b, b.len())), names) == value(
            ValueV::Ctor(JUST, seq![ValueV::Array(byte_values(b))]),
        ),
{
    lemma_bytes_in(b, "bytesToHex"@, names, b.len());
    assert(b.take(b.len() as int) =~= b);
    hex_text_reads_back(b);
}

} // verus!
