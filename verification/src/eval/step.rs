//! The machine's steps.

use super::equal::field;
use super::machine::{
    applied, arm_for, bound, built, clause_at, conts_of, ctor_at, ctor_field, eval_term, frames_of, fv, handler_at,
    handles, konts, konts_push, kv, label_at, lookup, performed, primed, put_field, record_built, record_of, ret_to,
    returned, saved_of, selected, slot_of, started, steps_to, unset, Control, Frame, FrameV, Machine, SeqKind, Wait,
    K, M,
};
use super::pattern::{lit_value, match_pat, matched, slots, slots_push};
use super::prim::{fail, fail_with, run_prim, Answer, RuntimeError};
use super::show::{say, show};
use super::shown::{pieces, shown, PieceV};
use super::term::{HClause, Pat, Prim, Term, Var, FS, PROCESS};
use super::value::{copies, fields, val, vals, value_facts, Env, Value, ValueV};
use crate::terms::symbol::{Sym, Symbols};
use crate::terms::ty::share;
use crate::text::decimal;
use std::rc::Rc;
use vstd::prelude::*;

verus! {

broadcast use {value_facts, slots_push, konts_push};

/// A record with a field put in its place.
fn put(fs: Vec<(Sym, Value)>, l: Sym, v: Value) -> (r: Vec<(Sym, Value)>)
    ensures
        fields(r@) == put_field(fields(fs@), l, val(v)),
    decreases fs@.len(),
{
    let ghost was = fields(fs@);
    let mut fs: Vec<(Sym, Value)> = fs;
    let n: usize = fs.len();
    if n == 0 || fs[n - 1].0 < l {
        fs.push((l, v));
        proof {
            assert(fields(fs@) =~= was.push((l, val(v))));
        }
        fs
    } else {
        let last: (Sym, Value) = fs.pop().unwrap();
        proof {
            assert(fields(fs@) =~= was.drop_last());
            assert(was.last() == (last.0, val(last.1)));
        }
        if last.0 == l {
            fs.push((l, v));
            proof {
                assert(fields(fs@) =~= was.drop_last().push((l, val(v))));
            }
            fs
        } else {
            let mut r: Vec<(Sym, Value)> = put(fs, l, v);
            let ghost mid = fields(r@);
            r.push(last);
            proof {
                assert(fields(r@) =~= mid.push((last.0, val(last.1))));
            }
            r
        }
    }
}

fn copy_fields(fs: &Vec<(Sym, Value)>) -> (r: Vec<(Sym, Value)>)
    ensures
        r@ == fs@,
{
    let mut r: Vec<(Sym, Value)> = Vec::new();
    let mut i: usize = 0;
    while i < fs.len()
        invariant
            i <= fs@.len(),
            r@ == fs@.take(i as int),
        decreases fs@.len() - i,
    {
        r.push((fs[i].0, fs[i].1.copy()));
        i = i + 1;
        proof {
            assert(r@ =~= fs@.take(i as int));
        }
    }
    proof {
        assert(fs@.take(i as int) =~= fs@);
    }
    r
}

fn record(labels: &Vec<(Sym, Rc<Term>)>, done: &Vec<Value>) -> (r: Vec<(Sym, Value)>)
    ensures
        fields(r@) == record_of(labels@, vals(done@), labels@.len()),
{
    let mut r: Vec<(Sym, Value)> = Vec::new();
    let n: usize = if labels.len() <= done.len() {
        labels.len()
    } else {
        0
    };
    let mut i: usize = 0;
    proof {
        assert(fields(r@) =~= Seq::<(Sym, ValueV)>::empty());
    }
    while i < n
        invariant
            i <= n,
            n <= labels@.len(),
            n <= done@.len(),
            fields(r@) == record_of(labels@, vals(done@), i as nat),
        decreases n - i,
    {
        proof {
            assert(vals(done@)[i as int] == val(done@[i as int]));
        }
        r = put(r, labels[i].0, done[i].copy());
        i = i + 1;
    }
    r
}

fn first_arm(arms: &Vec<(Pat, Rc<Term>)>, v: &Value, names: &Symbols) -> (r: Option<(Rc<Term>, Vec<(Var, Value)>)>)
    ensures
        match (r, arm_for(arms@, val(*v), names@, 0)) {
            (Some((t, b)), Some((u, w))) => t == u && slots(b@) == w,
            (None, None) => true,
            _ => false,
        },
{
    let mut i: usize = 0;
    while i < arms.len()
        invariant
            i <= arms@.len(),
            arm_for(arms@, val(*v), names@, 0) == arm_for(arms@, val(*v), names@, i as nat),
        decreases arms@.len() - i,
    {
        let mut out: Vec<(Var, Value)> = Vec::new();
        proof {
            assert(slots(out@) =~= Seq::<(Var, ValueV)>::empty());
        }
        if match_pat(&arms[i].0, v, names, &mut out) {
            proof {
                let b = matched(arms@[i as int].0, val(*v), names@)->0;
                assert(Seq::<(Var, ValueV)>::empty() + b =~= b);
            }
            return Some((share(&arms[i].1), out));
        }
        i = i + 1;
    }
    None
}

fn clause_position(cs: &Vec<HClause>, effect: Sym, op: Sym) -> (r: usize)
    ensures
        r == clause_at(cs@, effect, op, 0),
        r <= cs@.len(),
{
    let mut i: usize = 0;
    while i < cs.len()
        invariant
            i <= cs@.len(),
            clause_at(cs@, effect, op, 0) == clause_at(cs@, effect, op, i as nat),
        decreases cs@.len() - i,
    {
        if cs[i].effect == effect && cs[i].op == op {
            return i;
        }
        i = i + 1;
    }
    i
}

fn handler_position(ks: &Vec<K>, effect: Sym, op: Sym) -> (r: Option<usize>)
    ensures
        match (r, handler_at(konts(ks@), effect, op, ks@.len())) {
            (Some(i), Some(w)) => i == w && i < ks@.len() && handles(konts(ks@)[i as int], effect, op),
            (None, None) => true,
            _ => false,
        },
{
    let mut i: usize = ks.len();
    while i > 0
        invariant
            i <= ks@.len(),
            handler_at(konts(ks@), effect, op, ks@.len()) == handler_at(konts(ks@), effect, op, i as nat),
        decreases i,
    {
        let hit: bool = match &ks[i - 1] {
            K::HandleMark(data, _) => clause_position(&data.clauses, effect, op) < data.clauses.len(),
            _ => false,
        };
        proof {
            assert(konts(ks@)[i - 1] == kv(ks@[i - 1]));
            assert(hit == handles(konts(ks@)[i - 1], effect, op));
        }
        if hit {
            return Some(i - 1);
        }
        i = i - 1;
    }
    None
}

/// One slot.
fn slot(var: Var, v: Value) -> (r: Vec<(Var, Value)>)
    ensures
        slots(r@) == seq![(var, val(v))],
{
    let mut r: Vec<(Var, Value)> = Vec::new();
    r.push((var, v));
    proof {
        assert(slots(r@) =~= seq![(var, val(v))]);
    }
    r
}

fn unset_slots(binds: &Vec<(Var, Rc<Term>)>) -> (r: Vec<(Var, Value)>)
    ensures
        slots(r@) == unset(binds@, binds@.len()),
{
    let mut r: Vec<(Var, Value)> = Vec::new();
    let mut i: usize = 0;
    proof {
        assert(slots(r@) =~= Seq::<(Var, ValueV)>::empty());
    }
    while i < binds.len()
        invariant
            i <= binds@.len(),
            slots(r@) == unset(binds@, i as nat),
        decreases binds@.len() - i,
    {
        r.push((binds[i].0, Value::Unit));
        i = i + 1;
    }
    r
}

impl Machine {
    /// A new frame inside `env`.
    fn child(&mut self, env: Env, s: Vec<(Var, Value)>) -> (scope: Env)
        ensures
            final(self)@ == old(self)@.child(env, slots(s@)),
            scope == old(self)@.scope(),
    {
        let ghost was = self.frames@;
        let scope: Env = self.frames.len();
        self.frames.push(Frame { slots: s, parent: Some(env) });
        proof {
            assert(frames_of(self.frames@) =~= frames_of(was).push(
                FrameV { slots: slots(s@), parent: Some(env) },
            ));
        }
        scope
    }

    pub fn define(&mut self, env: Env, var: Var, v: Value)
        ensures
            final(self)@ == old(self)@.define(env, var, val(v)),
    {
        if env < self.frames.len() {
            let ghost was = self.frames@;
            let mut f: Frame = Frame { slots: Vec::new(), parent: None };
            self.frames.set_and_swap(env, &mut f);
            f.slots.push((var, v));
            self.frames.set(env, f);
            proof {
                assert(frames_of(self.frames@) =~= frames_of(was).update(env as int, fv(f)));
            }
        }
    }

    fn push(&mut self, k: K)
        ensures
            final(self)@ == old(self)@.push(kv(k)),
    {
        self.kont.push(k);
    }

    pub fn then_eval(&mut self, t: Rc<Term>, env: Env)
        ensures
            final(self)@ == old(self)@.then_eval(t, env),
    {
        self.ctrl = Control::Eval(t, env);
    }

    pub fn then_ret(&mut self, v: Value)
        ensures
            final(self)@ == old(self)@.then_ret(val(v)),
    {
        self.ctrl = Control::Ret(v);
    }

    /// What `var` is in `env`.
    pub fn lookup(&self, env: Env, var: Var) -> (r: Option<Value>)
        ensures
            match (r, lookup(self@.frames, env, var)) {
                (Some(v), Some(w)) => val(v) == w,
                (None, None) => true,
                _ => false,
            },
        decreases env,
    {
        if env >= self.frames.len() {
            return None;
        }
        let f: &Frame = &self.frames[env];
        proof {
            assert(self@.frames[env as int] == fv(self.frames@[env as int]));
        }
        let ghost fs = slots(f.slots@);
        let mut i: usize = f.slots.len();
        while i > 0
            invariant
                i <= f.slots@.len(),
                fs == slots(f.slots@),
                slot_of(fs, var, fs.len()) == slot_of(fs, var, i as nat),
                env < self.frames@.len(),
                self@.frames[env as int] == fv(self.frames@[env as int]),
                *f == self.frames@[env as int],
            decreases i,
        {
            if f.slots[i - 1].0 == var {
                return Some(f.slots[i - 1].1.copy());
            }
            i = i - 1;
        }
        match f.parent {
            Some(p) => if p < env {
                self.lookup(p, var)
            } else {
                None
            },
            None => None,
        }
    }

    fn start_seq(&mut self, items: &Rc<Vec<Rc<Term>>>, env: Env, kind: SeqKind)
        ensures
            final(self)@ == started(old(self)@, *items, env, kind),
    {
        if items.len() == 0 {
            let v: Value = match kind {
                SeqKind::Tuple => Value::Tuple(Rc::new(Vec::new())),
                SeqKind::Array => Value::Array(Rc::new(Vec::new())),
                SeqKind::List => Value::List(Rc::new(Vec::new())),
                SeqKind::Ctor(c) => Value::Ctor(c, Rc::new(Vec::new())),
                SeqKind::Prim(_) => Value::Unit,
            };
            self.then_ret(v);
        } else {
            self.push(K::Build { kind, done: Vec::new(), items: share(items), env });
            self.then_eval(share(&items[0]), env);
        }
    }

    /// A term taken apart.
    pub fn eval(&mut self, t: &Rc<Term>, env: Env) -> (r: Result<(), RuntimeError>)
        ensures
            steps_to(r, final(self)@, eval_term(old(self)@, *t, env)),
    {
        match &**t {
            Term::Var(v) => match self.lookup(env, *v) {
                Some(x) => self.then_ret(x),
                None => {
                    let mut e: RuntimeError = fail("unbound variable Var(");
                    say(&mut e.msg, decimal(*v as u64).as_str());
                    say(&mut e.msg, ")");
                    return Err(e);
                },
            },
            Term::Lit(l) => {
                let v: Value = lit_value(l, &self.names);
                self.then_ret(v);
            },
            Term::Lam(param, body) => self.then_ret(Value::Closure { param: *param, body: share(body), env }),
            Term::App(f, a) => {
                self.push(K::EvalArg { arg: share(a), env });
                self.then_eval(share(f), env);
            },
            Term::Let(v, rhs, body) => {
                self.push(K::Bind { var: *v, body: share(body), env });
                self.then_eval(share(rhs), env);
            },
            Term::LetRec(binds, body) => {
                let scope: Env = self.child(env, unset_slots(binds));
                if binds.len() == 0 {
                    self.then_eval(share(body), scope);
                } else {
                    self.push(K::LetRec { scope, binds: share(binds), at: 0, body: share(body) });
                    self.then_eval(share(&binds[0].1), scope);
                }
            },
            Term::If(c, t, e) => {
                self.push(K::If { yes: share(t), no: share(e), env });
                self.then_eval(share(c), env);
            },
            Term::Tuple(items) => self.start_seq(items, env, SeqKind::Tuple),
            Term::Array(items) => self.start_seq(items, env, SeqKind::Array),
            Term::List(items) => self.start_seq(items, env, SeqKind::List),
            Term::Ctor(c, items) => self.start_seq(items, env, SeqKind::Ctor(*c)),
            Term::Prim(op, items) => self.start_seq(items, env, SeqKind::Prim(*op)),
            Term::Record(fs) => if fs.len() == 0 {
                let none: Vec<(Sym, Value)> = Vec::new();
                proof {
                    assert(fields(none@) =~= Seq::<(Sym, ValueV)>::empty());
                }
                self.then_ret(Value::Record(Rc::new(none)));
            } else {
                self.push(K::BuildRecord { done: Vec::new(), labels: share(fs), env });
                self.then_eval(share(&fs[0].1), env);
            },
            Term::Proj(t, i) => {
                self.push(K::Proj(*i));
                self.then_eval(share(t), env);
            },
            Term::Sel(t, l) => {
                self.push(K::Sel(*l));
                self.then_eval(share(t), env);
            },
            Term::Extend(rec, label, v) => {
                self.push(K::ExtendVal { label: *label, val: share(v), env });
                self.then_eval(share(rec), env);
            },
            Term::ListCons(head, tail) => {
                self.push(K::ConsHead { tail: share(tail), env });
                self.then_eval(share(head), env);
            },
            Term::Case(scrut, arms) => {
                self.push(K::Match { arms: share(arms), env });
                self.then_eval(share(scrut), env);
            },
            Term::Perform(effect, op, arg) => {
                self.push(K::PerformWith { effect: *effect, op: *op });
                self.then_eval(share(arg), env);
            },
            Term::Handle(body, data) => {
                self.push(K::HandleMark(share(data), env));
                self.then_eval(share(body), env);
            },
            Term::Error => return Err(fail("evaluating an ill-formed expression")),
        }
        Ok(())
    }

    fn prim(&mut self, op: Prim, args: &Vec<Value>) -> (r: Result<(), RuntimeError>)
        ensures
            steps_to(r, final(self)@, primed(old(self)@, op, vals(args@))),
    {
        match run_prim(op, args, &self.names) {
            Err(e) => Err(e),
            Ok(Answer::Value(v)) => {
                self.then_ret(v);
                Ok(())
            },
            Ok(a) => {
                self.ctrl = Control::Wait(Wait::Prim(a));
                Ok(())
            },
        }
    }

    fn build(&mut self, kind: SeqKind, done: Vec<Value>, items: Rc<Vec<Rc<Term>>>, env: Env, v: Value) -> (r: Result<
        (),
        RuntimeError,
    >)
        ensures
            steps_to(r, final(self)@, built(old(self)@, kind, vals(done@), items, env, val(v))),
    {
        let mut done: Vec<Value> = done;
        done.push(v);
        if done.len() < items.len() {
            let next: Rc<Term> = share(&items[done.len()]);
            self.push(K::Build { kind, done, items, env });
            self.then_eval(next, env);
            return Ok(());
        }
        match kind {
            SeqKind::Tuple => self.then_ret(Value::Tuple(Rc::new(done))),
            SeqKind::Array => self.then_ret(Value::Array(Rc::new(done))),
            SeqKind::List => self.then_ret(Value::List(Rc::new(done))),
            SeqKind::Ctor(c) => self.then_ret(Value::Ctor(c, Rc::new(done))),
            SeqKind::Prim(op) => return self.prim(op, &done),
        }
        Ok(())
    }

    fn build_record(&mut self, done: Vec<Value>, labels: Rc<Vec<(Sym, Rc<Term>)>>, env: Env, v: Value)
        ensures
            Ok::<M, Seq<PieceV>>(final(self)@) == record_built(old(self)@, vals(done@), labels, env, val(v)),
    {
        let mut done: Vec<Value> = done;
        done.push(v);
        if done.len() < labels.len() {
            let next: Rc<Term> = share(&labels[done.len()].1);
            self.push(K::BuildRecord { done, labels, env });
            self.then_eval(next, env);
        } else {
            let fs: Vec<(Sym, Value)> = record(&labels, &done);
            self.then_ret(Value::Record(Rc::new(fs)));
        }
    }

    fn bind_next(&mut self, scope: Env, binds: Rc<Vec<(Var, Rc<Term>)>>, at: usize, body: Rc<Term>, v: Value)
        ensures
            final(self)@ == bound(old(self)@, scope, binds, at, body, val(v)),
    {
        let n: usize = binds.len();
        if at >= n {
            self.then_eval(body, scope);
        } else {
            self.define(scope, binds[at].0, v);
            if at + 1 < n {
                let next: Rc<Term> = share(&binds[at + 1].1);
                self.push(K::LetRec { scope, binds, at: at + 1, body });
                self.then_eval(next, scope);
            } else {
                self.then_eval(body, scope);
            }
        }
    }

    fn ctor_field(&self, c: Sym, l: Sym, vs: &Vec<Value>) -> (r: Option<Value>)
        ensures
            match (r, ctor_field(self@.fields, c, l, vals(vs@))) {
                (Some(v), Some(w)) => val(v) == w,
                (None, None) => true,
                _ => false,
            },
    {
        let mut i: usize = 0;
        while i < self.fields.len() && self.fields[i].0 != c
            invariant
                i <= self.fields@.len(),
                ctor_at(self@.fields, c, 0) == ctor_at(self@.fields, c, i as nat),
            decreases self.fields@.len() - i,
        {
            i = i + 1;
        }
        if i >= self.fields.len() {
            return None;
        }
        let ls: &Vec<Sym> = &self.fields[i].1;
        let mut k: usize = 0;
        while k < ls.len() && ls[k] != l
            invariant
                k <= ls@.len(),
                label_at(ls@, l, 0) == label_at(ls@, l, k as nat),
            decreases ls@.len() - k,
        {
            k = k + 1;
        }
        if k < ls.len() && k < vs.len() {
            proof {
                assert(vals(vs@)[k as int] == val(vs@[k as int]));
            }
            Some(vs[k].copy())
        } else {
            None
        }
    }

    fn select(&mut self, l: Sym, v: &Value) -> (r: Result<(), RuntimeError>)
        ensures
            steps_to(r, final(self)@, selected(old(self)@, l, val(*v))),
    {
        match v {
            Value::Record(fs) => match field(fs, l) {
                Some(x) => {
                    self.then_ret(x);
                    Ok(())
                },
                None => {
                    let mut e: RuntimeError = fail("record has no field `");
                    say(&mut e.msg, self.names.text(l).as_str());
                    say(&mut e.msg, "`");
                    Err(e)
                },
            },
            Value::Ctor(c, vs) => match self.ctor_field(*c, l, vs) {
                Some(x) => {
                    self.then_ret(x);
                    Ok(())
                },
                None => {
                    let mut e: RuntimeError = fail("`");
                    say(&mut e.msg, self.names.text(*c).as_str());
                    say(&mut e.msg, "` has no field `");
                    say(&mut e.msg, self.names.text(l).as_str());
                    say(&mut e.msg, "`");
                    Err(e)
                },
            },
            _ => {
                let mut e: RuntimeError = fail("cannot select `.");
                say(&mut e.msg, self.names.text(l).as_str());
                say(&mut e.msg, "` from ");
                show(&mut e.msg, v, &self.names);
                Err(e)
            },
        }
    }

    fn apply(&mut self, func: &Value, arg: Value) -> (r: Result<(), RuntimeError>)
        ensures
            steps_to(r, final(self)@, applied(old(self)@, val(*func), val(arg))),
    {
        match func {
            Value::Closure { param, body, env } => {
                let scope: Env = self.child(*env, slot(*param, arg));
                self.then_eval(share(body), scope);
                Ok(())
            },
            Value::Builtin { op, args } => {
                let mut all: Vec<Value> = copies(args, 0, args.len());
                proof {
                    assert(all@ =~= args@);
                }
                all.push(arg);
                if all.len() >= op.arity() {
                    self.prim(*op, &all)
                } else {
                    self.then_ret(Value::Builtin { op: *op, args: Rc::new(all) });
                    Ok(())
                }
            },
            Value::Cont(k) => {
                let k: usize = *k;
                if k < self.conts.len() {
                    let ghost (ks, cs) = (self.kont@, self.conts@);
                    let mut saved: Option<Vec<K>> = None;
                    self.conts.set_and_swap(k, &mut saved);
                    proof {
                        assert(conts_of(self.conts@) =~= conts_of(cs).update(k as int, None));
                        assert(conts_of(cs)[k as int] == saved_of(cs[k as int]));
                    }
                    match saved {
                        Some(frames) => {
                            let mut frames: Vec<K> = frames;
                            let ghost fs = frames@;
                            self.kont.append(&mut frames);
                            proof {
                                assert(konts(self.kont@) =~= konts(ks) + konts(fs));
                            }
                            self.then_ret(arg);
                            return Ok(());
                        },
                        None => {},
                    }
                }
                Err(fail("continuation resumed more than once"))
            },
            _ => {
                let mut e: RuntimeError = RuntimeError { msg: Vec::new() };
                show(&mut e.msg, func, &self.names);
                proof {
                    assert(pieces(e.msg@) =~= shown(val(*func), self.names@));
                }
                say(&mut e.msg, " is not a function");
                Err(e)
            },
        }
    }

    /// An operation performed.
    fn perform(&mut self, effect: Sym, op: Sym, arg: Value) -> (r: Result<(), RuntimeError>)
        ensures
            steps_to(r, final(self)@, performed(old(self)@, effect, op, val(arg))),
    {
        let ghost start = self@;
        let found: Option<usize> = handler_position(&self.kont, effect, op);
        match found {
            Some(i) => {
                let ghost (ks, cs) = (self.kont@, self.conts@);
                let captured: Vec<K> = self.kont.split_off(i);
                proof {
                    assert(konts(captured@) =~= konts(ks).skip(i as int));
                    assert(konts(self.kont@) =~= konts(ks).take(i as int));
                    assert(kv(captured@[0]) == konts(ks)[i as int]);
                }
                let (data, henv) = match &captured[0] {
                    K::HandleMark(d, e) => (share(d), *e),
                    _ => {
                        proof {
                            assert(false);
                        }
                        return Ok(());
                    },
                };
                let at: usize = clause_position(&data.clauses, effect, op);
                let c: &HClause = &data.clauses[at];
                let cont: Value = Value::Cont(self.conts.len());
                let mut s: Vec<(Var, Value)> = slot(c.param, arg);
                let ghost one = s@;
                s.push((c.resume, cont));
                self.conts.push(Some(captured));
                proof {
                    assert(conts_of(self.conts@) =~= conts_of(cs).push(Some(konts(captured@))));
                    assert(slots(s@) =~= seq![(c.param, val(arg)), (c.resume, ValueV::Cont(cs.len() as usize))]);
                }
                let scope: Env = self.child(henv, s);
                self.then_eval(share(&c.body), scope);
                Ok(())
            },
            None => if effect == FS || effect == PROCESS {
                self.ctrl = Control::Wait(Wait::Native { effect, op, arg });
                Ok(())
            } else {
                let mut e: RuntimeError = fail("unhandled effect ");
                say(&mut e.msg, self.names.text(effect).as_str());
                say(&mut e.msg, ".");
                say(&mut e.msg, self.names.text(op).as_str());
                Err(e)
            },
        }
    }

    fn give(&mut self, k: K, v: Value) -> (r: Result<(), RuntimeError>)
        ensures
            steps_to(r, final(self)@, ret_to(old(self)@, kv(k), val(v))),
    {
        match k {
            K::EvalArg { arg, env } => {
                self.push(K::ApplyTo { func: v });
                self.then_eval(arg, env);
            },
            K::ApplyTo { func } => return self.apply(&func, v),
            K::If { yes, no, env } => match v {
                Value::Bool(b) => self.then_eval(
                    if b {
                        yes
                    } else {
                        no
                    },
                    env,
                ),
                _ => return Err(fail_with("`if` condition is not a Bool: ", &v, &self.names)),
            },
            K::Bind { var, body, env } => {
                let scope: Env = self.child(env, slot(var, v));
                self.then_eval(body, scope);
            },
            K::LetRec { scope, binds, at, body } => self.bind_next(scope, binds, at, body, v),
            K::Build { kind, done, items, env } => return self.build(kind, done, items, env, v),
            K::BuildRecord { done, labels, env } => self.build_record(done, labels, env, v),
            K::Proj(i) => match &v {
                Value::Tuple(xs) => if i < xs.len() {
                    proof {
                        assert(vals(xs@)[i as int] == val(xs@[i as int]));
                    }
                    self.then_ret(xs[i].copy());
                } else {
                    let mut e: RuntimeError = fail("tuple projection ");
                    say(&mut e.msg, decimal(i as u64).as_str());
                    say(&mut e.msg, " out of range");
                    return Err(e);
                },
                _ => {
                    let mut e: RuntimeError = fail("cannot project field ");
                    say(&mut e.msg, decimal(i as u64).as_str());
                    say(&mut e.msg, " out of ");
                    show(&mut e.msg, &v, &self.names);
                    return Err(e);
                },
            },
            K::Sel(l) => return self.select(l, &v),
            K::ExtendVal { label, val: t, env } => {
                self.push(K::ExtendWith { label, rec: v });
                self.then_eval(t, env);
            },
            K::ExtendWith { label, rec } => match &rec {
                Value::Record(fs) => {
                    let r: Vec<(Sym, Value)> = put(copy_fields(fs), label, v);
                    self.then_ret(Value::Record(Rc::new(r)));
                },
                _ => return Err(fail_with("cannot extend non-record ", &rec, &self.names)),
            },
            K::ConsHead { tail, env } => {
                self.push(K::ConsBuild { head: v });
                self.then_eval(tail, env);
            },
            K::ConsBuild { head } => match &v {
                Value::List(xs) => {
                    let mut all: Vec<Value> = Vec::new();
                    all.push(head);
                    super::value::append_all(&mut all, xs);
                    proof {
                        assert(vals(all@) =~= seq![val(head)] + vals(xs@));
                    }
                    self.then_ret(Value::List(Rc::new(all)));
                },
                _ => return Err(fail_with("`Cons` tail is not a list: ", &v, &self.names)),
            },
            K::Match { arms, env } => match first_arm(&arms, &v, &self.names) {
                Some((body, b)) => {
                    let scope: Env = self.child(env, b);
                    self.then_eval(body, scope);
                },
                None => return Err(fail("non-exhaustive pattern match")),
            },
            K::PerformWith { effect, op } => return self.perform(effect, op, v),
            K::HandleMark(data, henv) => match &data.ret {
                Some((param, body)) => {
                    let scope: Env = self.child(henv, slot(*param, v));
                    self.then_eval(share(body), scope);
                },
                None => self.then_ret(v),
            },
        }
        Ok(())
    }

    /// A value came back: it goes to the frame on top.
    pub fn ret(&mut self, v: Value) -> (r: Result<(), RuntimeError>)
        ensures
            steps_to(r, final(self)@, returned(old(self)@, val(v))),
    {
        let ghost ks = self.kont@;
        match self.kont.pop() {
            None => {
                self.then_ret(v);
                Ok(())
            },
            Some(k) => {
                proof {
                    assert(konts(self.kont@) =~= konts(ks).drop_last());
                    assert(kv(k) == konts(ks).last());
                }
                self.give(k, v)
            },
        }
    }
}

} // verus!
