//! The machine's operations, and running it.

use super::equal::field;
use super::prim::{fail, Answer, Table};
use super::run_prim::prim;
use super::show::show;
use super::shown::shown;
use super::state::{literal, S};
use super::trans::{
    answered, bare_prim, branch_op, branched, data_field, def_index, element, extern_op, global, jumped, labelled,
    machine_prim, native, produce_answer, produced, put_label, room_for, select, stepped, substituted, take_once,
    value_op, with_cell, Answered,
};
use super::value::{append_all, fields, val, vals, value_facts, Value, ValueV};
use crate::eval::machine::{ctor_at, label_at};
use crate::eval::prim::RuntimeError;
use crate::eval::show::say;
use crate::eval::shown::{pieces, said, Piece};
use crate::seq::ir::{Block, Extern, Label, Name, Program, Statement};
use crate::terms::big;
use crate::terms::prim::{Lit, Prim};
use crate::terms::symbol::Sym;
use crate::text::{decimal, same};
use std::rc::Rc;
use vstd::prelude::*;

use super::step::{global_view, globals_view, is_falsey, is_step, is_value, kind_of, last_part, Machine, Out};

verus! {

broadcast use {value_facts, vstd::std_specs::hash::group_hash_axioms};

/// A primitive's answer and the machine are what was wanted.
pub open spec fn is_answer(r: Result<Answer, RuntimeError>, s: S, want: Answered) -> bool {
    match (r, want) {
        (Ok(a), Ok((w, b))) => s == w && a@ == b,
        (Err(e), Err(w)) => pieces(e.msg@) == w,
        _ => false,
    }
}

fn put<'p>(fs: Vec<(Sym, Value<'p>)>, l: Sym, v: Value<'p>) -> (r: Vec<(Sym, Value<'p>)>)
    ensures
        fields(r@) == put_label(fields(fs@), l, val(v)),
    decreases fs@.len(),
{
    let ghost was = fields(fs@);
    let mut fs: Vec<(Sym, Value<'p>)> = fs;
    let n: usize = fs.len();
    if n == 0 || fs[n - 1].0 < l {
        fs.push((l, v));
        proof {
            assert(fields(fs@) =~= was.push((l, val(v))));
        }
        fs
    } else {
        let last: (Sym, Value<'p>) = fs.pop().unwrap();
        proof {
            assert(fields(fs@) =~= was.drop_last());
            assert(was.last() == (last.0, val(last.1)));
        }
        if last.0 == l {
            fs.push((l, v));
            proof {
                assert(fields(fs@) =~= was.drop_last().push((l, val(v))));
            }
            fs
        } else {
            let mut r: Vec<(Sym, Value<'p>)> = put(fs, l, v);
            let ghost mid = fields(r@);
            r.push(last);
            proof {
                assert(fields(r@) =~= mid.push((last.0, val(last.1))));
            }
            r
        }
    }
}

fn copy_fields<'p>(fs: &Vec<(Sym, Value<'p>)>) -> (r: Vec<(Sym, Value<'p>)>)
    ensures
        r@ == fs@,
{
    let mut r: Vec<(Sym, Value<'p>)> = Vec::new();
    let mut i: usize = 0;
    while i < fs.len()
        invariant
            i <= fs@.len(),
            r@ == fs@.take(i as int),
        decreases fs@.len() - i,
    {
        r.push((fs[i].0, fs[i].1.copy()));
        i = i + 1;
        proof {
            assert(r@ =~= fs@.take(i as int));
        }
    }
    proof {
        assert(fs@.take(i as int) =~= fs@);
    }
    r
}

fn record<'p>(ls: &Vec<Sym>, vs: &Vec<Value<'p>>) -> (r: Vec<(Sym, Value<'p>)>)
    requires
        ls@.len() == vs@.len(),
    ensures
        fields(r@) == labelled(ls@, vals(vs@), ls@.len()),
{
    let mut r: Vec<(Sym, Value<'p>)> = Vec::new();
    let mut i: usize = 0;
    proof {
        assert(fields(r@) =~= Seq::<(Sym, ValueV)>::empty());
    }
    while i < ls.len()
        invariant
            i <= ls@.len(),
            ls@.len() == vs@.len(),
            fields(r@) == labelled(ls@, vals(vs@), i as nat),
        decreases ls@.len() - i,
    {
        proof {
            assert(vals(vs@)[i as int] == val(vs@[i as int]));
        }
        r = put(r, ls[i], vs[i].copy());
        i = i + 1;
    }
    r
}

fn literal_value<'p>(l: &Lit, p: &'p Program) -> (r: Value<'p>)
    ensures
        val(r) == literal(*l, p.symbols@),
{
    match l {
        Lit::Int(n) => Value::Int(*n),
        Lit::AnyInt(n, _) => Value::Int(*n),
        Lit::BigInt(n) => Value::BigInt(Rc::new(big::from_i64(*n))),
        Lit::Float(b) => Value::Float(*b),
        Lit::AnyFloat(b, _) => Value::Float(*b),
        Lit::Word(w, b) => Value::Word(*w, *b),
        Lit::Float32(b) => Value::Float32(*b),
        Lit::Str(s) => Value::Str(Rc::new(p.symbols.text(*s))),
        Lit::Sym(s) => Value::Str(Rc::new(p.symbols.text(*s))),
        Lit::Char(c) => Value::Char(*c),
        Lit::Bool(b) => Value::Bool(*b),
        Lit::Unit => Value::Unit,
    }
}

fn selected<'p>(p: &'p Program, l: Sym, v: &Value<'p>) -> (r: Result<Value<'p>, RuntimeError>)
    ensures
        is_value(r, select(*p, l, val(*v))),
{
    match v {
        Value::Record(fs) => match field(fs, l) {
            Some(x) => Ok(x),
            None => {
                let mut e: RuntimeError = fail("no field `");
                say(&mut e.msg, p.symbols.text(l).as_str());
                say(&mut e.msg, "` on this record");
                Err(e)
            },
        },
        Value::Data(c, _, vs) => match field_by_label(p, *c, l, vs) {
            Some(x) => Ok(x),
            None => {
                let mut e: RuntimeError = fail("`");
                say(&mut e.msg, last_part(p.symbols.text(*c).as_str()).as_str());
                say(&mut e.msg, "` has no field `");
                say(&mut e.msg, p.symbols.text(l).as_str());
                say(&mut e.msg, "`");
                Err(e)
            },
        },
        other => {
            let mut e: RuntimeError = fail("selected `.");
            say(&mut e.msg, p.symbols.text(l).as_str());
            say(&mut e.msg, "` from ");
            say(&mut e.msg, kind_of(other));
            Err(e)
        },
    }
}

fn field_by_label<'p>(p: &'p Program, c: Sym, l: Sym, vs: &Vec<Value<'p>>) -> (r: Option<Value<'p>>)
    ensures
        match (r, data_field(*p, c, l, vals(vs@))) {
            (Some(v), Some(w)) => val(v) == w,
            (None, None) => true,
            _ => false,
        },
{
    let mut i: usize = 0;
    while i < p.ctor_fields.len() && p.ctor_fields[i].0 != c
        invariant
            i <= p.ctor_fields@.len(),
            ctor_at(p.ctor_fields@, c, 0) == ctor_at(p.ctor_fields@, c, i as nat),
        decreases p.ctor_fields@.len() - i,
    {
        i = i + 1;
    }
    if i >= p.ctor_fields.len() {
        return None;
    }
    let ls: &Vec<Sym> = &p.ctor_fields[i].1;
    let mut k: usize = 0;
    while k < ls.len() && ls[k] != l
        invariant
            k <= ls@.len(),
            label_at(ls@, l, 0) == label_at(ls@, l, k as nat),
        decreases ls@.len() - k,
    {
        k = k + 1;
    }
    if k < ls.len() && k < vs.len() {
        proof {
            assert(vals(vs@)[k as int] == val(vs@[k as int]));
        }
        Some(vs[k].copy())
    } else {
        None
    }
}

fn element_of<'p>(p: &'p Program, i: usize, v: &Value<'p>) -> (r: Result<Value<'p>, RuntimeError>)
    ensures
        is_value(r, element(*p, i, val(*v))),
{
    match v {
        Value::Data(c, _, fs) => if i < fs.len() {
            proof {
                assert(vals(fs@)[i as int] == val(fs@[i as int]));
            }
            Ok(fs[i].copy())
        } else {
            let mut e: RuntimeError = fail("`");
            say(&mut e.msg, p.symbols.text(*c).as_str());
            say(&mut e.msg, "` has no field ");
            say(&mut e.msg, decimal(i as u64).as_str());
            Err(e)
        },
        Value::Array(xs) => if i < xs.len() {
            proof {
                assert(vals(xs@)[i as int] == val(xs@[i as int]));
            }
            Ok(xs[i].copy())
        } else {
            let mut e: RuntimeError = fail("array of ");
            say(&mut e.msg, decimal(xs.len() as u64).as_str());
            say(&mut e.msg, " has no element ");
            say(&mut e.msg, decimal(i as u64).as_str());
            Err(e)
        },
        other => {
            let mut e: RuntimeError = fail("took field ");
            say(&mut e.msg, decimal(i as u64).as_str());
            say(&mut e.msg, " of ");
            say(&mut e.msg, kind_of(other));
            Err(e)
        },
    }
}

impl<'p> Machine<'p> {
    fn new_cell(&mut self, v: Value<'p>) -> (r: Result<Answer<'p>, RuntimeError>)
        ensures
            final(self).program == old(self).program,
            final(self).steps == old(self).steps,
            is_answer(r, final(self)@, with_cell(old(self)@, val(v))),
    {
        let k: usize = self.heap.cells.len();
        self.heap.cells.push(v);
        Ok(Answer::Value(Value::Ref(k)))
    }

    fn take_flag(&mut self, v: &Value<'p>) -> (r: Result<Answer<'p>, RuntimeError>)
        ensures
            final(self).program == old(self).program,
            final(self).steps == old(self).steps,
            is_answer(r, final(self)@, take_once(old(self)@, val(*v))),
    {
        match v {
            Value::Ref(k) => {
                let k: usize = *k;
                if k < self.heap.cells.len() {
                    let ghost cells = self.heap.cells@;
                    let fresh: bool = match &self.heap.cells[k] {
                        Value::Bool(b) => !*b,
                        _ => true,
                    };
                    proof {
                        assert(vals(cells)[k as int] == val(cells[k as int]));
                    }
                    self.heap.cells.set(k, Value::Bool(true));
                    proof {
                        assert(vals(self.heap.cells@) =~= vals(cells).update(k as int, ValueV::Bool(true)));
                    }
                    Ok(Answer::Value(Value::Bool(fresh)))
                } else {
                    Ok(Answer::Value(Value::Bool(true)))
                }
            },
            other => {
                let mut e: RuntimeError = fail("takeOnce: expected a flag, got ");
                say(&mut e.msg, kind_of(other));
                Err(e)
            },
        }
    }

    fn index(&self, v: &Value<'p>) -> (r: Result<usize, RuntimeError>)
        ensures
            match (r, def_index(*self.program, self@, val(*v))) {
                (Ok(i), Ok(w)) => i == w,
                (Err(e), Err(w)) => pieces(e.msg@) == w,
                _ => false,
            },
    {
        match v {
            Value::Int(i) if *i >= 0 => Ok(*i as usize),
            other => {
                let mut e: RuntimeError = fail("a definition index is ");
                show(&mut e.msg, other, &self.program.symbols, &self.heap);
                Err(e)
            },
        }
    }

    fn set_global(&mut self, i: usize, v: Value<'p>)
        ensures
            final(self).program == old(self).program,
            final(self).steps == old(self).steps,
            final(self)@ == (S {
                globals: room_for(old(self)@.globals, i).update(i as int, Some(val(v))),
                ..old(self)@
            }),
    {
        let ghost orig = self.globals@;
        let ghost g = globals_view(self.globals@);
        let ghost rest = *self;
        while self.globals.len() <= i
            invariant
                self.program == rest.program,
                self.steps == rest.steps,
                self.stmt == rest.stmt,
                self.names == rest.names,
                self.env == rest.env,
                self.heap == rest.heap,
                orig.len() <= self.globals@.len(),
                self.globals@.len() <= orig.len() || self.globals@.len() <= i + 1,
                forall|k: int| 0 <= k < orig.len() ==> self.globals@[k] == #[trigger] orig[k],
                forall|k: int| orig.len() <= k < self.globals@.len() ==> (#[trigger] self.globals@[k]) is None,
            decreases i + 1 - self.globals@.len(),
        {
            self.globals.push(None);
        }
        let ghost full = self.globals@;
        self.globals.set(i, Some(v));
        proof {
            assert(globals_view(full) =~= room_for(g, i));
            assert(globals_view(self.globals@) =~= room_for(g, i).update(i as int, Some(val(v))));
        }
    }

    fn bare(&mut self, op: Prim, args: &Vec<Value<'p>>) -> (r: Result<Answer<'p>, RuntimeError>)
        ensures
            final(self).program == old(self).program,
            final(self).steps == old(self).steps,
            is_answer(r, final(self)@, bare_prim(*old(self).program, old(self)@, op, vals(args@))),
    {
        let t: Table<'p> = self.table();
        prim(op, args, &t, &mut self.heap)
    }

    /// A primitive, with the few that need the machine answered here.
    pub fn prim(&mut self, op: Prim, args: &Vec<Value<'p>>) -> (r: Result<Answer<'p>, RuntimeError>)
        ensures
            final(self).program == old(self).program,
            final(self).steps == old(self).steps,
            is_answer(r, final(self)@, machine_prim(*old(self).program, old(self)@, op, vals(args@))),
    {
        proof {
            assert forall|k: int| 0 <= k < args@.len() implies #[trigger] vals(args@)[k] == val(args@[k]) by {}
        }
        match op {
            Prim::Once => self.new_cell(Value::Bool(false)),
            Prim::Detach => self.new_cell(Value::Unit),
            Prim::Enter | Prim::Reattach => Ok(Answer::Value(Value::Unit)),
            Prim::TakeOnce => {
                if args.len() < 1 {
                    return Err(fail("too few arguments"));
                }
                self.take_flag(&args[0])
            },
            Prim::GlobalReady => {
                if args.len() < 1 {
                    return Err(fail("too few arguments"));
                }
                match self.index(&args[0]) {
                    Err(e) => Err(e),
                    Ok(i) => {
                        let ready: bool = self.global(i).is_some();
                        Ok(Answer::Value(Value::Bool(ready)))
                    },
                }
            },
            Prim::GlobalGet => {
                if args.len() < 1 {
                    return Err(fail("too few arguments"));
                }
                match self.index(&args[0]) {
                    Err(e) => Err(e),
                    Ok(i) => match self.global(i) {
                        Some(v) => Ok(Answer::Value(v)),
                        None => Err(fail("a definition read before it was evaluated")),
                    },
                }
            },
            Prim::GlobalSet => {
                if args.len() < 2 {
                    return Err(fail("too few arguments"));
                }
                match self.index(&args[0]) {
                    Err(e) => Err(e),
                    Ok(i) => {
                        self.set_global(i, args[1].copy());
                        Ok(Answer::Value(Value::Unit))
                    },
                }
            },
            _ => self.bare(op, args),
        }
    }

    fn global(&self, i: usize) -> (r: Option<Value<'p>>)
        ensures
            match (r, global(self@, i)) {
                (Some(v), Some(w)) => val(v) == w,
                (None, None) => true,
                _ => false,
            },
    {
        if i < self.globals.len() {
            proof {
                assert(self@.globals[i as int] == global_view(self.globals@[i as int]));
            }
            match &self.globals[i] {
                Some(v) => Some(v.copy()),
                None => None,
            }
        } else {
            None
        }
    }

    fn produce(&mut self, b: &'p Block, v: Value<'p>) -> (r: Result<Out<'p>, RuntimeError>)
        ensures
            final(self).program == old(self).program,
            final(self).steps == old(self).steps,
            is_step(r, final(self)@, produced(*old(self).program, old(self)@, *b, val(v))),
    {
        let mut all: Vec<Value<'p>> = Vec::new();
        all.push(v);
        append_all(&mut all, &self.env);
        proof {
            assert(vals(all@) =~= seq![val(v)] + vals(self.env@));
        }
        self.enter(b, all)
    }

    fn branch(&mut self, blocks: &'p Vec<Block>, v: &Value<'p>) -> (r: Result<Out<'p>, RuntimeError>)
        requires
            blocks@.len() == 2,
        ensures
            final(self).program == old(self).program,
            final(self).steps == old(self).steps,
            is_step(r, final(self)@, branched(*old(self).program, old(self)@, blocks@, val(*v))),
    {
        let env: Vec<Value<'p>> = self.take_env();
        if is_falsey(v) {
            self.enter(&blocks[0], env)
        } else {
            self.enter(&blocks[1], env)
        }
    }

    fn branch_op(&mut self, op: &'p Extern, args: &'p Vec<Name>, blocks: &'p Vec<Block>) -> (r: Result<
        Out<'p>,
        RuntimeError,
    >)
        ensures
            final(self).program == old(self).program,
            final(self).steps == old(self).steps,
            is_step(r, final(self)@, branch_op(*old(self).program, old(self)@, *op, args@, blocks@)),
    {
        if blocks.len() != 2 {
            let mut e: RuntimeError = fail("a branch needs 2 continuations, got ");
            say(&mut e.msg, decimal(blocks.len() as u64).as_str());
            return Err(e);
        }
        let (f, extra) = match op {
            Extern::BranchPrim(f) => (*f, None),
            Extern::BranchPrimK(f, l) => (*f, Some(literal_value(l, self.program))),
            _ => {
                if args.len() != 1 {
                    let mut e: RuntimeError = fail("a branch needs 1 argument, got ");
                    say(&mut e.msg, decimal(args.len() as u64).as_str());
                    return Err(e);
                }
                return match self.lookup(args[0]) {
                    Err(e) => Err(e),
                    Ok(v) => self.branch(blocks, &v),
                };
            },
        };
        match self.lookup_all(args) {
            Err(e) => Err(e),
            Ok(vs) => {
                let mut vs: Vec<Value<'p>> = vs;
                if let Some(x) = extra {
                    vs.push(x);
                }
                match self.bare(f, &vs) {
                    Err(e) => Err(e),
                    Ok(Answer::Value(v)) => self.branch(blocks, &v),
                    Ok(Answer::Ask(op, args)) => Ok(Out::Ask(op, args)),
                }
            },
        }
    }

    fn native(&mut self, effect: Sym, op: Sym, vs: &Vec<Value<'p>>) -> (r: Result<Out<'p>, RuntimeError>)
        ensures
            *final(self) == *old(self),
            is_step(r, final(self)@, native(*old(self).program, old(self)@, effect, op, vals(vs@))),
    {
        let e: String = self.program.symbols.text(effect);
        let o: String = self.program.symbols.text(op);
        if vs.len() == 1 {
            proof {
                assert(vals(vs@)[0] == val(vs@[0]));
            }
            if same(e.as_str(), "Test") && same(o.as_str(), "fail") {
                let mut msg: Vec<Piece> = Vec::new();
                show(&mut msg, &vs[0], &self.program.symbols, &self.heap);
                proof {
                    assert(pieces(msg@) =~= shown(val(vs@[0]), self.program.symbols@, self.heap@));
                }
                return Err(RuntimeError { msg });
            }
            if same(e.as_str(), "Console") && same(o.as_str(), "writeOutput") {
                let mut out: Vec<Piece> = Vec::new();
                match &vs[0] {
                    Value::Str(s) => {
                        say(&mut out, s.as_str());
                        proof {
                            assert(pieces(out@) =~= said(s@));
                        }
                    },
                    v => {
                        show(&mut out, v, &self.program.symbols, &self.heap);
                        proof {
                            assert(pieces(out@) =~= shown(val(*v), self.program.symbols@, self.heap@));
                        }
                    },
                }
                return Ok(Out::Print(out));
            }
        }
        let mut f: RuntimeError = fail("unhandled effect ");
        say(&mut f.msg, last_part(e.as_str()).as_str());
        say(&mut f.msg, ".");
        say(&mut f.msg, o.as_str());
        Err(f)
    }

    fn produce_answer(&mut self, b: &'p Block, op: Prim, vs: &Vec<Value<'p>>) -> (r: Result<Out<'p>, RuntimeError>)
        ensures
            final(self).program == old(self).program,
            final(self).steps == old(self).steps,
            is_step(
                r,
                final(self)@,
                produce_answer(
                    *old(self).program,
                    *b,
                    machine_prim(*old(self).program, old(self)@, op, vals(vs@)),
                ),
            ),
    {
        match self.prim(op, vs) {
            Err(e) => Err(e),
            Ok(Answer::Value(v)) => self.produce(b, v),
            Ok(Answer::Ask(op, args)) => Ok(Out::Ask(op, args)),
        }
    }

    fn value_op(&mut self, op: &'p Extern, vs: Vec<Value<'p>>, b: &'p Block) -> (r: Result<Out<'p>, RuntimeError>)
        requires
            !op.branches(),
        ensures
            final(self).program == old(self).program,
            final(self).steps == old(self).steps,
            is_step(r, final(self)@, value_op(*old(self).program, old(self)@, *op, vals(vs@), *b)),
    {
        let p: &'p Program = self.program;
        proof {
            assert forall|k: int| 0 <= k < vs@.len() implies #[trigger] vals(vs@)[k] == val(vs@[k]) by {}
        }
        match op {
            Extern::Lit(l) => self.produce(b, literal_value(l, p)),
            Extern::Native(e, o) => self.native(*e, *o, &vs),
            Extern::Prim(f) => self.produce_answer(b, *f, &vs),
            Extern::PrimK(f, l) => {
                let mut vs: Vec<Value<'p>> = vs;
                vs.push(literal_value(l, p));
                self.produce_answer(b, *f, &vs)
            },
            Extern::Array => self.produce(b, Value::Array(Rc::new(vs))),
            Extern::Record(ls) => {
                if ls.len() != vs.len() {
                    let mut e: RuntimeError = fail("a record of ");
                    say(&mut e.msg, decimal(ls.len() as u64).as_str());
                    say(&mut e.msg, " labels given ");
                    say(&mut e.msg, decimal(vs.len() as u64).as_str());
                    say(&mut e.msg, " values");
                    return Err(e);
                }
                self.produce(b, Value::Record(Rc::new(record(ls, &vs))))
            },
            Extern::Select(l) => {
                if vs.len() < 1 {
                    return Err(fail("too few arguments"));
                }
                match selected(p, *l, &vs[0]) {
                    Ok(v) => self.produce(b, v),
                    Err(e) => Err(e),
                }
            },
            Extern::Extend(l) => {
                if vs.len() < 2 {
                    return Err(fail("too few arguments"));
                }
                match &vs[0] {
                    Value::Record(fs) => {
                        let r: Vec<(Sym, Value<'p>)> = put(copy_fields(fs), *l, vs[1].copy());
                        self.produce(b, Value::Record(Rc::new(r)))
                    },
                    other => {
                        let mut e: RuntimeError = fail("extended ");
                        say(&mut e.msg, kind_of(other));
                        say(&mut e.msg, " with `.");
                        say(&mut e.msg, p.symbols.text(*l).as_str());
                        say(&mut e.msg, "`");
                        Err(e)
                    },
                }
            },
            Extern::Field(i) => {
                if vs.len() < 1 {
                    return Err(fail("too few arguments"));
                }
                match element_of(p, *i, &vs[0]) {
                    Ok(v) => self.produce(b, v),
                    Err(e) => Err(e),
                }
            },
            _ => Err(fail("too few arguments")),
        }
    }

    fn extern_op(&mut self, op: &'p Extern, args: &'p Vec<Name>, blocks: &'p Vec<Block>) -> (r: Result<
        Out<'p>,
        RuntimeError,
    >)
        ensures
            final(self).program == old(self).program,
            final(self).steps == old(self).steps,
            is_step(r, final(self)@, extern_op(*old(self).program, old(self)@, *op, args@, blocks@)),
    {
        if op.is_branch() {
            return self.branch_op(op, args, blocks);
        }
        if blocks.len() != 1 {
            let mut e: RuntimeError = fail("a value-producing extern needs 1 continuation, got ");
            say(&mut e.msg, decimal(blocks.len() as u64).as_str());
            return Err(e);
        }
        match self.lookup_all(args) {
            Err(e) => Err(e),
            Ok(vs) => self.value_op(op, vs, &blocks[0]),
        }
    }

    fn substitute(&mut self, sel: &'p Vec<Name>, b: &'p Block) -> (r: Result<Out<'p>, RuntimeError>)
        ensures
            final(self).program == old(self).program,
            final(self).steps == old(self).steps,
            is_step(r, final(self)@, substituted(*old(self).program, old(self)@, sel@, *b)),
    {
        if sel.len() != b.params.len() {
            let mut e: RuntimeError = fail("substitute of ");
            say(&mut e.msg, decimal(sel.len() as u64).as_str());
            say(&mut e.msg, " values into a block of ");
            say(&mut e.msg, decimal(b.params.len() as u64).as_str());
            say(&mut e.msg, " parameters");
            return Err(e);
        }
        match self.lookup_all(sel) {
            Err(e) => Err(e),
            Ok(vs) => self.enter(b, vs),
        }
    }

    fn jump(&mut self, l: Label) -> (r: Result<Out<'p>, RuntimeError>)
        ensures
            final(self).program == old(self).program,
            final(self).steps == old(self).steps,
            is_step(r, final(self)@, jumped(*old(self).program, old(self)@, l)),
    {
        let p: &'p Program = self.program;
        match p.block(l) {
            None => {
                let mut e: RuntimeError = fail("jump to undefined label Label(");
                say(&mut e.msg, decimal(l.0 as u64).as_str());
                say(&mut e.msg, ")");
                Err(e)
            },
            Some(b) => {
                let env: Vec<Value<'p>> = self.take_env();
                self.enter(b, env)
            },
        }
    }

    /// One transition.
    pub fn step(&mut self) -> (r: Result<Out<'p>, RuntimeError>)
        ensures
            final(self).program == old(self).program,
            final(self).steps == (if old(self).steps < u64::MAX {
                old(self).steps + 1
            } else {
                old(self).steps as int
            }),
            is_step(r, final(self)@, stepped(*old(self).program, old(self)@)),
    {
        reveal(stepped);
        if self.steps < u64::MAX {
            self.steps = self.steps + 1;
        }
        let stmt: &'p Statement = self.stmt;
        match stmt {
            Statement::Substitute(sel, b) => self.substitute(sel, b),
            Statement::Jump(l) => self.jump(*l),
            Statement::Let { name, tag, ctor, fields: fs, rest } => match self.lookup_all(fs) {
                Err(e) => Err(e),
                Ok(vs) => self.bind(*name, Value::Data(*ctor, *tag, Rc::new(vs)), rest),
            },
            Statement::Switch { scrutinee, arms, default } => self.switch(*scrutinee, arms, default),
            Statement::New { name, captures, methods, rest } => match self.lookup_all(captures) {
                Err(e) => Err(e),
                Ok(vs) => self.bind(*name, Value::Obj(Rc::new(vs), methods), rest),
            },
            Statement::Invoke(n, tag) => self.invoke(*n, *tag),
            Statement::Extern { op, args, blocks } => self.extern_op(op, args, blocks),
            Statement::Error(msg) => Err(fail(msg)),
            Statement::Mark(_, inner) => {
                self.stmt = inner;
                Ok(Out::Next)
            },
        }
    }

    /// What was waited for has come to `v`.
    pub fn answer(&mut self, v: Value<'p>) -> (r: Result<Out<'p>, RuntimeError>)
        ensures
            final(self).program == old(self).program,
            final(self).steps == old(self).steps,
            is_step(r, final(self)@, answered(*old(self).program, old(self)@, val(v))),
    {
        let stmt: &'p Statement = self.stmt;
        match stmt {
            Statement::Extern { op, args, blocks } => {
                let forks: bool = op.is_branch();
                if forks && blocks.len() == 2 {
                    self.branch(blocks, &v)
                } else if !forks && blocks.len() == 1 {
                    self.produce(&blocks[0], v)
                } else {
                    Err(fail("nothing was asked for"))
                }
            },
            _ => Err(fail("nothing was asked for")),
        }
    }
}

} // verus!
