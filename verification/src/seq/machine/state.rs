//! The machine's state, and what each transition makes of it.

use super::prim::Cx;
use super::shown::{parted, shown, HeapV};
use super::value::ValueV;
use crate::eval::shown::{said, PieceV};
use crate::seq::describe::transfer;
use crate::seq::ir::{Block, Name, Program, Rep, Statement, Tag, NO_DESC};
use crate::seq::view::stmt_view;
use crate::terms::desc::{self, Desc};
use crate::terms::prim::{Lit, Prim, Width};
use crate::terms::symbol::{self, text_at, Sym};
use crate::text::{digits, signed};
use vstd::prelude::*;

verus! {

/// Where the machine is, and what is in scope.
pub struct S {
    pub stmt: Statement,
    /// Names for the environment's slots: the parameters of the block it is inside.
    pub names: Seq<Name>,
    pub env: Seq<ValueV>,
    /// Top-level values evaluated so far, by definition.
    pub globals: Seq<Option<ValueV>>,
    pub heap: HeapV,
}

/// What a transition comes to.
pub enum OutV {
    /// The machine goes on.
    Next,
    /// It has finished.
    Done(ValueV),
    /// It waits for what a primitive comes to.
    Ask(Prim, Seq<ValueV>),
    /// It waits for this to be printed.
    Print(Seq<PieceV>),
}

pub type Stepped = Result<(S, OutV), Seq<PieceV>>;

pub type Fault = Seq<PieceV>;

pub open spec fn cx_of(p: Program, s: S) -> Cx {
    Cx { names: p.symbols@, tags: p.tags@, heap: s.heap }
}

/// A name, as a fault says it.
pub open spec fn name_text(n: u32) -> Seq<PieceV> {
    said("VarId("@) + said(digits(n as nat)) + said(")"@)
}

/// What a value is, in a word.
pub open spec fn kind(v: ValueV) -> Seq<char> {
    match v {
        ValueV::Int(_) => "Int"@,
        ValueV::BigInt(_) => "BigInt"@,
        ValueV::Float(_) => "Float"@,
        ValueV::Word(w, _) => w.called(),
        ValueV::Float32(_) => "Float32"@,
        ValueV::Bool(_) => "Bool"@,
        ValueV::Str(_) => "String"@,
        ValueV::Char(_) => "Char"@,
        ValueV::Unit => "()"@,
        ValueV::Data(_, _, _) => "data"@,
        ValueV::Array(_) => "Array"@,
        ValueV::Record(_) => "record"@,
        ValueV::Ref(_) => "Ref"@,
        ValueV::MutArray(_) => "StArray"@,
        ValueV::Obj(_, _) => "codata"@,
        ValueV::Halt => "halt"@,
        ValueV::Compact(_, _) => "Compact"@,
    }
}

/// A value is a heap object. A string is one to the bytecode machine.
pub open spec fn is_object(v: ValueV) -> bool {
    match v {
        ValueV::Data(_, _, _) | ValueV::Array(_) | ValueV::Record(_) | ValueV::Ref(_) | ValueV::MutArray(_) => true,
        ValueV::Obj(_, _) | ValueV::Halt | ValueV::Compact(_, _) | ValueV::BigInt(_) | ValueV::Str(_) => true,
        _ => false,
    }
}

/// A value is what a descriptor says.
pub open spec fn described(d: Desc, v: ValueV) -> bool {
    if d == desc::REF {
        is_object(v)
    } else if d == desc::INT {
        v is Int
    } else if d == desc::FLOAT {
        v is Float
    } else if d == desc::STR {
        v is Str
    } else if d == desc::UNIT {
        v is Unit
    } else if d == desc::BOOL {
        v is Bool
    } else if d == desc::CHAR {
        v is Char
    } else if d == desc::FLOAT32 {
        v is Float32
    } else if d == desc::ANY {
        true
    } else {
        match v {
            ValueV::Word(w, _) => word_desc(w) == d,
            _ => false,
        }
    }
}

/// The descriptor of a sized integer.
pub open spec fn word_desc(w: Width) -> Desc {
    match w {
        Width::I8 => desc::INT8,
        Width::I16 => desc::INT16,
        Width::I32 => desc::INT32,
        Width::U8 => desc::UINT8,
        Width::U16 => desc::UINT16,
        Width::U32 => desc::UINT32,
        Width::U64 => desc::UINT64,
    }
}

/// Where a name is among some, from `i` on.
pub open spec fn name_at(ns: Seq<Name>, n: Name, i: nat) -> nat
    decreases ns.len() - i,
{
    if i >= ns.len() || ns[i as int] == n {
        i
    } else {
        name_at(ns, n, i + 1)
    }
}

/// What a name holds.
pub open spec fn holds(s: S, n: Name) -> Option<ValueV> {
    let i = name_at(s.names, n, 0);
    if i < s.names.len() && i < s.env.len() {
        Some(s.env[i as int])
    } else {
        None
    }
}

/// The first `k` slots of the environment, each with its name.
pub open spec fn slots_shown(p: Program, s: S, k: nat) -> Seq<Seq<PieceV>>
    decreases k,
{
    if k == 0 || k > s.names.len() || k > s.env.len() {
        Seq::empty()
    } else {
        slots_shown(p, s, (k - 1) as nat).push(
            name_text(s.names[k - 1]) + said(" = "@) + shown(s.env[k - 1], p.symbols@, s.heap),
        )
    }
}

pub open spec fn slot_count(s: S) -> nat {
    if s.names.len() <= s.env.len() {
        s.names.len()
    } else {
        s.env.len()
    }
}

/// The environment, named.
pub open spec fn describe(p: Program, s: S) -> Seq<PieceV> {
    let n = slot_count(s);
    said("["@) + parted(slots_shown(p, s, n), ", "@, n) + said("]"@)
}

pub open spec fn look(p: Program, s: S, n: Name) -> Result<ValueV, Fault> {
    match holds(s, n) {
        Some(v) => Ok(v),
        None => Err(name_text(n) + said(" is not in scope: "@) + describe(p, s)),
    }
}

/// What the first `k` of some names hold.
pub open spec fn look_all(p: Program, s: S, ns: Seq<Name>, k: nat) -> Result<Seq<ValueV>, Fault>
    decreases k,
{
    if k == 0 || k > ns.len() {
        Ok(Seq::empty())
    } else {
        match look_all(p, s, ns, (k - 1) as nat) {
            Err(e) => Err(e),
            Ok(vs) => match look(p, s, ns[k - 1]) {
                Err(e) => Err(e),
                Ok(v) => Ok(vs.push(v)),
            },
        }
    }
}

/// How a representation is written.
pub open spec fn rep_text(r: Rep) -> Seq<PieceV> {
    match r {
        Rep::Ref => said("Ref"@),
        Rep::Int => said("Int"@),
        Rep::Float => said("Float"@),
        Rep::Bits(d) => said("Bits("@) + said(signed(d as int)) + said(")"@),
        Rep::Str => said("Str"@),
        Rep::Var(d) => said("Var("@) + said(digits(d as nat)) + said(")"@),
        Rep::Unknown => said("Unknown"@),
    }
}

/// Why a value does not fit the representation the program declares for its name, if it does
/// not. A value of a type variable's type is checked against its descriptor, which has to be
/// in the environment with it, unless not `strict`.
pub open spec fn misfit(p: Program, s: S, n: Name, v: ValueV, strict: bool) -> Option<Fault> {
    if p.reps@.len() == 0 {
        None
    } else if !p.reps@.contains_key(n) {
        Some(name_text(n) + said(" has no representation, and holds "@) + said(kind(v)))
    } else {
        let rep = p.reps@[n];
        let wrong = name_text(n) + said(" is declared "@) + rep_text(rep) + said(" but holds "@) + said(kind(v));
        match rep {
            Rep::Ref => fault_unless(is_object(v), wrong),
            Rep::Int => fault_unless(v is Int, wrong),
            Rep::Float => fault_unless(v is Float, wrong),
            Rep::Bits(d) => fault_unless(described(d, v), wrong),
            Rep::Str => fault_unless(v is Str, wrong),
            Rep::Unknown => Some(wrong),
            Rep::Var(d) => if d == NO_DESC {
                Some(
                    name_text(n) + said(" holds "@) + said(kind(v)) + said(", of a type variable nothing describes"@),
                )
            } else {
                match holds(s, d) {
                    Some(ValueV::Int(code)) => fault_unless(0 <= code <= 255 && described(code as u8, v), wrong),
                    Some(other) => Some(
                        name_text(n) + said("'s descriptor "@) + name_text(d) + said(" holds "@) + said(kind(other))
                            + said(", not a descriptor"@),
                    ),
                    None => if strict {
                        Some(
                            name_text(n) + said(" holds "@) + said(kind(v)) + said(" without its descriptor "@)
                                + name_text(d) + said(": "@) + describe(p, s),
                        )
                    } else {
                        None
                    },
                }
            },
        }
    }
}

pub open spec fn fault_unless(b: bool, f: Fault) -> Option<Fault> {
    if b {
        None
    } else {
        Some(f)
    }
}

/// The first of the slots from `i` on that does not fit.
pub open spec fn first_misfit(p: Program, s: S, strict: bool, i: nat) -> Option<Fault>
    decreases s.names.len() - i,
{
    if i >= s.names.len() || i >= s.env.len() {
        None
    } else {
        match misfit(p, s, s.names[i as int], s.env[i as int], strict) {
            Some(f) => Some(f),
            None => first_misfit(p, s, strict, i + 1),
        }
    }
}

/// A block entered with `vals` as the environment. Its parameters name the whole of it, so
/// where they disagree the program has no meaning.
pub open spec fn entered(p: Program, s: S, b: Block, vals: Seq<ValueV>) -> Stepped {
    if b.params@.len() != vals.len() {
        Err(
            said("block takes "@) + said(digits(b.params@.len())) + said(" parameters but the environment has "@)
                + said(digits(vals.len())) + said(" values"@),
        )
    } else {
        let t = S { stmt: b.body, names: b.params@, env: vals, ..s };
        match first_misfit(p, t, transfer(stmt_view(b.body)) is None, 0) {
            Some(f) => Err(f),
            None => Ok((t, OutV::Next)),
        }
    }
}

/// A value bound in front of the environment, and on to `rest`.
pub open spec fn bound(p: Program, s: S, n: Name, v: ValueV, rest: Statement) -> Stepped {
    let t = S { stmt: rest, names: seq![n] + s.names, env: seq![v] + s.env, ..s };
    match misfit(p, t, n, v, true) {
        Some(f) => Err(f),
        None => Ok((t, OutV::Next)),
    }
}

/// The environment without the first slot named `n`.
pub open spec fn without(s: S, n: Name) -> Seq<ValueV> {
    let i = name_at(s.names, n, 0);
    if i < s.names.len() && i < s.env.len() {
        s.env.remove(i as int)
    } else {
        s.env
    }
}

/// A method of an object entered: its captures, and what is left behind the object.
pub open spec fn invoked(p: Program, s: S, n: Name, tag: Tag) -> Stepped {
    match look(p, s, n) {
        Err(e) => Err(e),
        Ok(v) => {
            let rest = without(s, n);
            match v {
                ValueV::Halt => if rest.len() == 1 {
                    Ok((s, OutV::Done(rest[0])))
                } else {
                    Err(said("halted with "@) + said(digits(rest.len())) + said(" values, expected 1"@))
                },
                ValueV::Obj(captures, methods) => if tag < methods@.len() {
                    entered(p, s, methods@[tag as int], captures + rest)
                } else {
                    Err(
                        said("invoked method #"@) + said(digits(tag as nat)) + said(" of an object with "@) + said(
                            digits(methods@.len()),
                        ) + said(" methods"@),
                    )
                },
                other => Err(said("invoked a non-object value ("@) + said(kind(other)) + said(")"@)),
            }
        },
    }
}

/// The arm from `i` on for a tag.
pub open spec fn arm_at(arms: Seq<(Tag, Block)>, tag: Tag, i: nat) -> nat
    decreases arms.len() - i,
{
    if i >= arms.len() || arms[i as int].0 == tag {
        i
    } else {
        arm_at(arms, tag, i + 1)
    }
}

/// A branch on a tag: the fields go in front of the environment, and what was matched on
/// stays in it.
pub open spec fn switched(p: Program, s: S, n: Name, arms: Seq<(Tag, Block)>, default: Block) -> Stepped {
    match look(p, s, n) {
        Err(e) => Err(e),
        Ok(ValueV::Data(_, tag, fields)) => {
            let i = arm_at(arms, tag, 0);
            if i < arms.len() {
                entered(p, s, arms[i as int].1, fields + s.env)
            } else {
                entered(p, s, default, s.env)
            }
        },
        Ok(_) => entered(p, s, default, s.env),
    }
}

/// What a literal is.
pub open spec fn literal(l: Lit, names: Seq<Seq<char>>) -> ValueV {
    match l {
        Lit::Int(n) => ValueV::Int(n),
        Lit::AnyInt(n, _) => ValueV::Int(n),
        Lit::BigInt(n) => ValueV::BigInt(n as int),
        Lit::Float(b) => ValueV::Float(b),
        Lit::AnyFloat(b, _) => ValueV::Float(b),
        Lit::Word(w, b) => ValueV::Word(w, b),
        Lit::Float32(b) => ValueV::Float32(b),
        Lit::Str(s) => ValueV::Str(text_at(names, s)),
        Lit::Sym(s) => ValueV::Str(text_at(names, s)),
        Lit::Char(c) => ValueV::Char(c),
        Lit::Bool(b) => ValueV::Bool(b),
        Lit::Unit => ValueV::Unit,
    }
}

/// What a branch treats as false: a literal, or the constructor by its name.
pub open spec fn falsey(v: ValueV) -> bool {
    match v {
        ValueV::Bool(b) => !b,
        ValueV::Data(c, _, fs) => c == symbol::BOOL_FALSE && fs.len() == 0,
        _ => false,
    }
}

/// What is behind the last `::` of the first `n` characters.
pub open spec fn behind_colons(t: Seq<char>, n: nat) -> Seq<char>
    decreases n,
{
    if n < 2 || n > t.len() {
        t
    } else if t[n - 2] == ':' && t[n - 1] == ':' {
        t.skip(n as int)
    } else {
        behind_colons(t, (n - 1) as nat)
    }
}

} // verus!
