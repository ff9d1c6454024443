//! The machine.

use super::prim::{fail, Table};
use super::show::show;
use super::shown::{parted, shown, Heap, HeapV};
use super::state::{
    arm_at, behind_colons, bound, describe, described, entered, falsey, first_misfit, holds, invoked, is_object,
    kind, look, look_all, misfit, name_at, name_text, rep_text, slot_count, slots_shown, switched, without,
    word_desc, Fault, OutV, Stepped, S,
};
use super::value::{append_all, copies, val, vals, value_facts, Value, ValueV};
use crate::eval::prim::RuntimeError;
use crate::eval::show::say;
use crate::eval::shown::{pieces, said, Piece};
use crate::seq::describe::hands_to;
use crate::seq::ir::{defined, Block, Label, Name, Program, Rep, Statement, Tag, NO_DESC};
use crate::seq::view::copy_names;
use crate::terms::desc::{self, Desc};
use crate::terms::prim::{Prim, Width};
use crate::terms::symbol;
use crate::text::{decimal, digits, signed_decimal};
use vstd::prelude::*;

verus! {

broadcast use {value_facts, vstd::std_specs::hash::group_hash_axioms};

/// The machine: where it is, and what is in scope.
pub struct Machine<'p> {
    pub program: &'p Program,
    pub stmt: &'p Statement,
    /// Names for the environment's slots: the parameters of the block it is inside.
    pub names: Vec<Name>,
    pub env: Vec<Value<'p>>,
    /// Top-level values evaluated so far, by definition.
    pub globals: Vec<Option<Value<'p>>>,
    pub heap: Heap<'p>,
    /// Transitions taken.
    pub steps: u64,
}

/// What a transition comes to.
pub enum Out<'p> {
    Next,
    Done(Value<'p>),
    Ask(Prim, Vec<Value<'p>>),
    Print(Vec<Piece>),
}

pub open spec fn out_view(o: Out) -> OutV {
    match o {
        Out::Next => OutV::Next,
        Out::Done(v) => OutV::Done(val(v)),
        Out::Ask(op, args) => OutV::Ask(op, vals(args@)),
        Out::Print(ps) => OutV::Print(pieces(ps@)),
    }
}

pub open spec fn global_view(g: Option<Value>) -> Option<ValueV> {
    match g {
        Some(v) => Some(val(v)),
        None => None,
    }
}

pub open spec fn globals_view(gs: Seq<Option<Value>>) -> Seq<Option<ValueV>> {
    gs.map_values(|g: Option<Value>| global_view(g))
}

impl<'p> View for Machine<'p> {
    type V = S;

    open spec fn view(&self) -> S {
        S {
            stmt: *self.stmt,
            names: self.names@,
            env: vals(self.env@),
            globals: globals_view(self.globals@),
            heap: self.heap@,
        }
    }
}

/// `r` and the machine are what was wanted.
pub open spec fn is_step(r: Result<Out, RuntimeError>, s: S, want: Stepped) -> bool {
    match (r, want) {
        (Ok(o), Ok((w, v))) => s == w && out_view(o) == v,
        (Err(e), Err(w)) => pieces(e.msg@) == w,
        _ => false,
    }
}

pub open spec fn is_value(r: Result<Value, RuntimeError>, want: Result<ValueV, Fault>) -> bool {
    match (r, want) {
        (Ok(v), Ok(w)) => val(v) == w,
        (Err(e), Err(w)) => pieces(e.msg@) == w,
        _ => false,
    }
}

pub fn say_name(out: &mut Vec<Piece>, n: u32)
    ensures
        pieces(final(out)@) == pieces(old(out)@) + name_text(n),
{
    let ghost was = pieces(out@);
    say(out, "VarId(");
    say(out, decimal(n as u64).as_str());
    say(out, ")");
    proof {
        assert(pieces(out@) =~= was + name_text(n));
    }
}

/// A fault that begins with a name.
pub fn fault_of(n: u32) -> (e: RuntimeError)
    ensures
        pieces(e.msg@) == name_text(n),
{
    let mut msg: Vec<Piece> = Vec::new();
    say_name(&mut msg, n);
    proof {
        assert(pieces(msg@) =~= name_text(n));
    }
    RuntimeError { msg }
}

pub fn kind_of(v: &Value<'_>) -> (r: &'static str)
    ensures
        r@ == kind(val(*v)),
{
    match v {
        Value::Int(_) => "Int",
        Value::BigInt(_) => "BigInt",
        Value::Float(_) => "Float",
        Value::Word(w, _) => w.name(),
        Value::Float32(_) => "Float32",
        Value::Bool(_) => "Bool",
        Value::Str(_) => "String",
        Value::Char(_) => "Char",
        Value::Unit => "()",
        Value::Data(_, _, _) => "data",
        Value::Array(_) => "Array",
        Value::Record(_) => "record",
        Value::Ref(_) => "Ref",
        Value::MutArray(_) => "StArray",
        Value::Obj(_, _) => "codata",
        Value::Halt => "halt",
        Value::Compact(_, _) => "Compact",
    }
}

pub fn object(v: &Value<'_>) -> (r: bool)
    ensures
        r == is_object(val(*v)),
{
    match v {
        Value::Data(_, _, _)
        | Value::Array(_)
        | Value::Record(_)
        | Value::Ref(_)
        | Value::MutArray(_)
        | Value::Obj(_, _)
        | Value::Halt
        | Value::Compact(_, _)
        | Value::BigInt(_)
        | Value::Str(_) => true,
        _ => false,
    }
}

pub fn desc_of_word(w: Width) -> (d: Desc)
    ensures
        d == word_desc(w),
{
    match w {
        Width::I8 => desc::INT8,
        Width::I16 => desc::INT16,
        Width::I32 => desc::INT32,
        Width::U8 => desc::UINT8,
        Width::U16 => desc::UINT16,
        Width::U32 => desc::UINT32,
        Width::U64 => desc::UINT64,
    }
}

pub fn is_described(d: Desc, v: &Value<'_>) -> (r: bool)
    ensures
        r == described(d, val(*v)),
{
    if d == desc::REF {
        return object(v);
    }
    if d == desc::ANY {
        return true;
    }
    match v {
        Value::Int(_) => d == desc::INT,
        Value::Float(_) => d == desc::FLOAT,
        Value::Str(_) => d == desc::STR,
        Value::Unit => d == desc::UNIT,
        Value::Bool(_) => d == desc::BOOL,
        Value::Char(_) => d == desc::CHAR,
        Value::Float32(_) => d == desc::FLOAT32,
        Value::Word(w, _) => desc_of_word(*w) == d,
        _ => false,
    }
}

pub fn say_rep(out: &mut Vec<Piece>, r: Rep)
    ensures
        pieces(final(out)@) == pieces(old(out)@) + rep_text(r),
{
    let ghost was = pieces(out@);
    match r {
        Rep::Ref => say(out, "Ref"),
        Rep::Int => say(out, "Int"),
        Rep::Float => say(out, "Float"),
        Rep::Bits(d) => {
            say(out, "Bits(");
            say(out, signed_decimal(d as i64).as_str());
            say(out, ")");
        },
        Rep::Str => say(out, "Str"),
        Rep::Var(d) => {
            say(out, "Var(");
            say(out, decimal(d as u64).as_str());
            say(out, ")");
        },
        Rep::Unknown => say(out, "Unknown"),
    }
    proof {
        assert(pieces(out@) =~= was + rep_text(r));
    }
}

pub fn is_falsey(v: &Value<'_>) -> (r: bool)
    ensures
        r == falsey(val(*v)),
{
    match v {
        Value::Bool(b) => !*b,
        Value::Data(c, _, fs) => *c == symbol::BOOL_FALSE && fs.len() == 0,
        _ => false,
    }
}

pub fn name_position(ns: &Vec<Name>, n: Name) -> (r: usize)
    ensures
        r == name_at(ns@, n, 0),
        r <= ns@.len(),
{
    let mut i: usize = 0;
    while i < ns.len()
        invariant
            i <= ns@.len(),
            name_at(ns@, n, 0) == name_at(ns@, n, i as nat),
        decreases ns@.len() - i,
    {
        if ns[i] == n {
            return i;
        }
        i = i + 1;
    }
    i
}

pub fn last_part(t: &str) -> (r: String)
    ensures
        r@ == behind_colons(t@, t@.len()),
{
    let cs: Vec<char> = crate::text::chars(t);
    let mut n: usize = cs.len();
    while n >= 2 && !(cs[n - 2] == ':' && cs[n - 1] == ':')
        invariant
            n <= cs@.len(),
            cs@ == t@,
            behind_colons(t@, t@.len()) == behind_colons(t@, n as nat),
        decreases n,
    {
        n = n - 1;
    }
    if n < 2 {
        return crate::text::text(cs.as_slice());
    }
    let mut out: Vec<char> = Vec::new();
    let mut i: usize = n;
    while i < cs.len()
        invariant
            n <= i <= cs@.len(),
            out@ == cs@.subrange(n as int, i as int),
        decreases cs@.len() - i,
    {
        out.push(cs[i]);
        i = i + 1;
        proof {
            assert(out@ =~= cs@.subrange(n as int, i as int));
        }
    }
    proof {
        assert(out@ =~= t@.skip(n as int));
    }
    crate::text::text(out.as_slice())
}

impl<'p> Machine<'p> {
    /// The machine at the definition labelled `entry`. Its block takes one parameter, the
    /// continuation to answer with.
    pub fn at(program: &'p Program, entry: Label) -> (r: Result<Machine<'p>, RuntimeError>)
        ensures
            ({
                let i = defined(program.defs@, entry, 0);
                if i >= program.defs@.len() {
                    r is Err && pieces(r->Err_0.msg@) == said("entry label Label("@) + said(digits(entry.0 as nat)) + said(
                        ") is not defined"@,
                    )
                } else {
                    let b = program.defs@[i as int].block;
                    if b.params@.len() != 1 {
                        r is Err && pieces(r->Err_0.msg@) == said("entry block takes "@) + said(digits(b.params@.len()))
                            + said(" parameters, expected 1 (the continuation)"@)
                    } else {
                        r is Ok && r->Ok_0.program == program && r->Ok_0.steps == 0 && r->Ok_0@ == (S {
                            stmt: b.body,
                            names: b.params@,
                            env: seq![ValueV::Halt],
                            globals: Seq::empty(),
                            heap: HeapV { cells: Seq::empty(), arrays: Seq::empty() },
                        })
                    }
                }
            }),
    {
        match program.block(entry) {
            None => {
                let mut e: RuntimeError = fail("entry label Label(");
                say(&mut e.msg, decimal(entry.0 as u64).as_str());
                say(&mut e.msg, ") is not defined");
                Err(e)
            },
            Some(block) => {
                if block.params.len() != 1 {
                    let mut e: RuntimeError = fail("entry block takes ");
                    say(&mut e.msg, decimal(block.params.len() as u64).as_str());
                    say(&mut e.msg, " parameters, expected 1 (the continuation)");
                    return Err(e);
                }
                let mut env: Vec<Value<'p>> = Vec::new();
                env.push(Value::Halt);
                let m: Machine<'p> = Machine {
                    program,
                    stmt: &block.body,
                    names: copy_names(&block.params),
                    env,
                    globals: Vec::new(),
                    heap: Heap { cells: Vec::new(), arrays: Vec::new() },
                    steps: 0,
                };
                proof {
                    assert(m@.env =~= seq![ValueV::Halt]);
                    assert(m@.globals =~= Seq::<Option<ValueV>>::empty());
                    assert(m@.heap.arrays =~= Seq::<Seq<ValueV>>::empty());
                }
                Ok(m)
            },
        }
    }

    pub fn table(&self) -> (t: Table<'p>)
        ensures
            t.names@ == self.program.symbols@,
            t.tags@ == self.program.tags@,
    {
        Table { names: &self.program.symbols, tags: &self.program.tags }
    }

    /// Behind `out`, the environment, named.
    pub fn describe(&self, out: &mut Vec<Piece>)
        ensures
            pieces(final(out)@) == pieces(old(out)@) + describe(*self.program, self@),
    {
        let ghost was = pieces(out@);
        let ghost p = *self.program;
        let n: usize = if self.names.len() <= self.env.len() {
            self.names.len()
        } else {
            self.env.len()
        };
        say(out, "[");
        let ghost all = slots_shown(p, self@, n as nat);
        proof {
            lemma_slots_shown(p, self@, n as nat, n as nat);
        }
        let mut i: usize = 0;
        proof {
            assert(pieces(out@) =~= was + said("["@) + parted(all, ", "@, 0));
        }
        while i < n
            invariant
                i <= n,
                n == slot_count(self@),
                n <= self.names@.len(),
                n <= self.env@.len(),
                p == *self.program,
                all == slots_shown(p, self@, n as nat),
                all.len() == n,
                pieces(out@) == was + said("["@) + parted(all, ", "@, i as nat),
            decreases n - i,
        {
            let ghost mid = pieces(out@);
            if i > 0 {
                say(out, ", ");
            }
            proof {
                lemma_slots_shown(p, self@, n as nat, (i + 1) as nat);
                assert(vals(self.env@)[i as int] == val(self.env@[i as int]));
            }
            say_name(out, self.names[i]);
            say(out, " = ");
            show(out, &self.env[i], &self.program.symbols, &self.heap);
            i = i + 1;
            proof {
                assert(pieces(out@) =~= was + said("["@) + parted(all, ", "@, i as nat));
            }
        }
        say(out, "]");
        proof {
            assert(pieces(out@) =~= was + describe(p, self@));
        }
    }

    pub fn held(&self, n: Name) -> (r: Option<Value<'p>>)
        ensures
            match (r, holds(self@, n)) {
                (Some(v), Some(w)) => val(v) == w,
                (None, None) => true,
                _ => false,
            },
    {
        let i: usize = name_position(&self.names, n);
        if i < self.names.len() && i < self.env.len() {
            proof {
                assert(vals(self.env@)[i as int] == val(self.env@[i as int]));
            }
            Some(self.env[i].copy())
        } else {
            None
        }
    }

    pub fn lookup(&self, n: Name) -> (r: Result<Value<'p>, RuntimeError>)
        ensures
            is_value(r, look(*self.program, self@, n)),
    {
        match self.held(n) {
            Some(v) => Ok(v),
            None => {
                let mut e: RuntimeError = fault_of(n);
                say(&mut e.msg, " is not in scope: ");
                self.describe(&mut e.msg);
                Err(e)
            },
        }
    }

    pub fn lookup_all(&self, ns: &Vec<Name>) -> (r: Result<Vec<Value<'p>>, RuntimeError>)
        ensures
            match (r, look_all(*self.program, self@, ns@, ns@.len())) {
                (Ok(vs), Ok(w)) => vals(vs@) == w,
                (Err(e), Err(w)) => pieces(e.msg@) == w,
                _ => false,
            },
    {
        let mut out: Vec<Value<'p>> = Vec::new();
        let mut failed: Option<RuntimeError> = None;
        let mut i: usize = 0;
        while i < ns.len()
            invariant
                i <= ns@.len(),
                match look_all(*self.program, self@, ns@, i as nat) {
                    Ok(w) => failed is None && vals(out@) == w,
                    Err(w) => failed is Some && pieces(failed->0.msg@) == w,
                },
            decreases ns@.len() - i,
        {
            if failed.is_none() {
                match self.lookup(ns[i]) {
                    Ok(v) => out.push(v),
                    Err(e) => {
                        failed = Some(e);
                    },
                }
            }
            i = i + 1;
        }
        match failed {
            None => Ok(out),
            Some(e) => Err(e),
        }
    }

    fn wrong(&self, n: Name, rep: Rep, v: &Value<'p>) -> (e: RuntimeError)
        ensures
            pieces(e.msg@) == name_text(n) + said(" is declared "@) + rep_text(rep) + said(" but holds "@) + said(
                kind(val(*v)),
            ),
    {
        let mut e: RuntimeError = fault_of(n);
        say(&mut e.msg, " is declared ");
        say_rep(&mut e.msg, rep);
        say(&mut e.msg, " but holds ");
        say(&mut e.msg, kind_of(v));
        e
    }

    /// Does `v` fit the representation the program declares for `n`?
    pub fn check(&self, n: Name, v: &Value<'p>, strict: bool) -> (r: Option<RuntimeError>)
        ensures
            match (r, misfit(*self.program, self@, n, val(*v), strict)) {
                (Some(e), Some(w)) => pieces(e.msg@) == w,
                (None, None) => true,
                _ => false,
            },
    {
        if self.program.reps.len() == 0 {
            return None;
        }
        let rep: Rep = match self.program.reps.get(&n) {
            Some(r) => *r,
            None => {
                let mut e: RuntimeError = fault_of(n);
                say(&mut e.msg, " has no representation, and holds ");
                say(&mut e.msg, kind_of(v));
                return Some(e);
            },
        };
        let fits: bool = match rep {
            Rep::Ref => object(v),
            Rep::Int => match v {
                Value::Int(_) => true,
                _ => false,
            },
            Rep::Float => match v {
                Value::Float(_) => true,
                _ => false,
            },
            Rep::Bits(d) => is_described(d, v),
            Rep::Str => match v {
                Value::Str(_) => true,
                _ => false,
            },
            Rep::Unknown => false,
            Rep::Var(d) => {
                if d == NO_DESC {
                    let mut e: RuntimeError = fault_of(n);
                    say(&mut e.msg, " holds ");
                    say(&mut e.msg, kind_of(v));
                    say(&mut e.msg, ", of a type variable nothing describes");
                    return Some(e);
                }
                match self.held(d) {
                    Some(Value::Int(code)) => code >= 0 && code <= 255 && is_described(code as u8, v),
                    Some(other) => {
                        let mut e: RuntimeError = fault_of(n);
                        say(&mut e.msg, "'s descriptor ");
                        say_name(&mut e.msg, d);
                        say(&mut e.msg, " holds ");
                        say(&mut e.msg, kind_of(&other));
                        say(&mut e.msg, ", not a descriptor");
                        return Some(e);
                    },
                    None => {
                        if strict {
                            let mut e: RuntimeError = fault_of(n);
                            say(&mut e.msg, " holds ");
                            say(&mut e.msg, kind_of(v));
                            say(&mut e.msg, " without its descriptor ");
                            say_name(&mut e.msg, d);
                            say(&mut e.msg, ": ");
                            self.describe(&mut e.msg);
                            return Some(e);
                        }
                        true
                    },
                }
            },
        };
        if fits {
            None
        } else {
            Some(self.wrong(n, rep, v))
        }
    }

    /// Enter a block with `vals` as the environment.
    pub fn enter(&mut self, block: &'p Block, values: Vec<Value<'p>>) -> (r: Result<Out<'p>, RuntimeError>)
        ensures
            final(self).program == old(self).program,
            final(self).steps == old(self).steps,
            is_step(r, final(self)@, entered(*old(self).program, old(self)@, *block, vals(values@))),
    {
        if block.params.len() != values.len() {
            let mut e: RuntimeError = fail("block takes ");
            say(&mut e.msg, decimal(block.params.len() as u64).as_str());
            say(&mut e.msg, " parameters but the environment has ");
            say(&mut e.msg, decimal(values.len() as u64).as_str());
            say(&mut e.msg, " values");
            return Err(e);
        }
        self.names = copy_names(&block.params);
        self.env = values;
        self.stmt = &block.body;
        // A block that only hands control over need not carry the descriptors of what it
        // holds: nothing looks at them before the next block does.
        let strict: bool = hands_to(&block.body).is_none();
        let ghost t = self@;
        let mut i: usize = 0;
        while i < self.names.len()
            invariant
                i <= self.names@.len(),
                self@ == t,
                self.names@.len() == self.env@.len(),
                self.program == old(self).program,
                self.steps == old(self).steps,
                first_misfit(*self.program, t, strict, 0) == first_misfit(*self.program, t, strict, i as nat),
                entered(*old(self).program, old(self)@, *block, vals(values@)) == (match first_misfit(
                    *self.program,
                    t,
                    strict,
                    0,
                ) {
                    Some(f) => Err::<(S, OutV), Fault>(f),
                    None => Ok((t, OutV::Next)),
                }),
            decreases self.names@.len() - i,
        {
            proof {
                assert(vals(self.env@)[i as int] == val(self.env@[i as int]));
            }
            if let Some(e) = self.check(self.names[i], &self.env[i], strict) {
                return Err(e);
            }
            i = i + 1;
        }
        Ok(Out::Next)
    }

    /// The environment, taken.
    pub fn take_env(&mut self) -> (r: Vec<Value<'p>>)
        ensures
            r@ == old(self).env@,
            *final(self) == *old(self),
    {
        let r: Vec<Value<'p>> = copies(&self.env, 0, self.env.len());
        proof {
            assert(r@ =~= self.env@);
        }
        r
    }

    pub fn bind(&mut self, n: Name, v: Value<'p>, rest: &'p Statement) -> (r: Result<Out<'p>, RuntimeError>)
        ensures
            final(self).program == old(self).program,
            final(self).steps == old(self).steps,
            is_step(r, final(self)@, bound(*old(self).program, old(self)@, n, val(v), *rest)),
    {
        let ghost s = self@;
        let mut names: Vec<Name> = Vec::new();
        names.push(n);
        let mut i: usize = 0;
        proof {
            assert(names@ =~= seq![n] + self.names@.take(0));
        }
        while i < self.names.len()
            invariant
                i <= self.names@.len(),
                names@ == seq![n] + self.names@.take(i as int),
            decreases self.names@.len() - i,
        {
            names.push(self.names[i]);
            i = i + 1;
            proof {
                assert(names@ =~= seq![n] + self.names@.take(i as int));
            }
        }
        proof {
            assert(self.names@.take(i as int) =~= self.names@);
        }
        let mut env: Vec<Value<'p>> = Vec::new();
        env.push(v.copy());
        append_all(&mut env, &self.env);
        proof {
            assert(vals(env@) =~= seq![val(v)] + vals(self.env@));
        }
        self.names = names;
        self.env = env;
        self.stmt = rest;
        match self.check(n, &v, true) {
            Some(e) => Err(e),
            None => Ok(Out::Next),
        }
    }

    pub fn left_behind(&self, n: Name) -> (r: Vec<Value<'p>>)
        ensures
            vals(r@) == without(self@, n),
    {
        let i: usize = name_position(&self.names, n);
        let len: usize = self.env.len();
        if i < self.names.len() && i < len {
            let mut r: Vec<Value<'p>> = copies(&self.env, 0, i);
            let tail: Vec<Value<'p>> = copies(&self.env, i + 1, len);
            append_all(&mut r, &tail);
            proof {
                assert(vals(r@) =~= vals(self.env@).remove(i as int));
            }
            r
        } else {
            let r: Vec<Value<'p>> = copies(&self.env, 0, len);
            proof {
                assert(r@ =~= self.env@);
            }
            r
        }
    }

    pub fn invoke(&mut self, n: Name, tag: Tag) -> (r: Result<Out<'p>, RuntimeError>)
        ensures
            final(self).program == old(self).program,
            final(self).steps == old(self).steps,
            is_step(r, final(self)@, invoked(*old(self).program, old(self)@, n, tag)),
    {
        let v: Value<'p> = match self.lookup(n) {
            Ok(v) => v,
            Err(e) => return Err(e),
        };
        let rest: Vec<Value<'p>> = self.left_behind(n);
        match &v {
            // Invoking the entry point's continuation is how a program ends: the
            // substitution before it left exactly the answer.
            Value::Halt => {
                if rest.len() == 1 {
                    proof {
                        assert(vals(rest@)[0] == val(rest@[0]));
                    }
                    Ok(Out::Done(rest[0].copy()))
                } else {
                    let mut e: RuntimeError = fail("halted with ");
                    say(&mut e.msg, decimal(rest.len() as u64).as_str());
                    say(&mut e.msg, " values, expected 1");
                    Err(e)
                }
            },
            Value::Obj(captures, methods) => {
                let methods: &'p Vec<Block> = methods;
                if (tag as usize) < methods.len() {
                    let mut all: Vec<Value<'p>> = copies(captures, 0, captures.len());
                    append_all(&mut all, &rest);
                    proof {
                        assert(vals(all@) =~= vals(captures@) + vals(rest@));
                    }
                    self.enter(&methods[tag as usize], all)
                } else {
                    let mut e: RuntimeError = fail("invoked method #");
                    say(&mut e.msg, decimal(tag as u64).as_str());
                    say(&mut e.msg, " of an object with ");
                    say(&mut e.msg, decimal(methods.len() as u64).as_str());
                    say(&mut e.msg, " methods");
                    Err(e)
                }
            },
            other => {
                let mut e: RuntimeError = fail("invoked a non-object value (");
                say(&mut e.msg, kind_of(other));
                say(&mut e.msg, ")");
                Err(e)
            },
        }
    }

    pub fn switch(&mut self, n: Name, arms: &'p Vec<(Tag, Block)>, default: &'p Block) -> (r: Result<Out<'p>, RuntimeError>)
        ensures
            final(self).program == old(self).program,
            final(self).steps == old(self).steps,
            is_step(r, final(self)@, switched(*old(self).program, old(self)@, n, arms@, *default)),
    {
        let v: Value<'p> = match self.lookup(n) {
            Ok(v) => v,
            Err(e) => return Err(e),
        };
        let env: Vec<Value<'p>> = self.take_env();
        if let Value::Data(_, tag, fs) = &v {
            let mut i: usize = 0;
            while i < arms.len() && arms[i].0 != *tag
                invariant
                    i <= arms@.len(),
                    arm_at(arms@, *tag, 0) == arm_at(arms@, *tag, i as nat),
                decreases arms@.len() - i,
            {
                i = i + 1;
            }
            if i < arms.len() {
                // The fields go on the front and the scrutinee stays.
                let mut all: Vec<Value<'p>> = copies(fs, 0, fs.len());
                append_all(&mut all, &env);
                proof {
                    assert(vals(all@) =~= vals(fs@) + vals(env@));
                }
                return self.enter(&arms[i].1, all);
            }
        }
        self.enter(default, env)
    }
}

proof fn lemma_slots_shown(p: Program, s: S, n: nat, k: nat)
    requires
        k <= n <= s.names.len(),
        n <= s.env.len(),
    ensures
        slots_shown(p, s, n).len() == n,
        k > 0 ==> slots_shown(p, s, n)[k - 1] == name_text(s.names[k - 1]) + said(" = "@) + shown(
            s.env[k - 1],
            p.symbols@,
            s.heap,
        ),
    decreases n,
{
    if n > 0 {
        lemma_slots_shown(
            p,
            s,
            (n - 1) as nat,
            if k < n {
                k
            } else {
                (n - 1) as nat
            },
        );
    }
}

} // verus!
