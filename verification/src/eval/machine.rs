//! The machine: a control, environments, and a stack of what is left to do.
//!
//! The stack is of frames, one per "hole" in a partly evaluated term, which is what
//! makes effects possible:
//!
//! * `perform E.op arg` looks down the stack for the nearest matching handler, **splits
//!   the stack there**, and hands the part above it to the handler's clause as a
//!   resumption.
//! * Resuming puts the captured frames back.
//!
//! Handlers are **deep** (what is captured has the handler in it, so a resumption is
//! under the same handler) and **one-shot** (each resumption may be called once).

use super::equal::field_of;
use super::pattern::{lit_of, matched, slots};
use super::prim::{run_op, Answer, AnswerV, RuntimeError};
use super::shown::{pieces, said, shown, PieceV};
use super::term::{HClause, HandlerData, Pat, Prim, Term, Var, FS, PROCESS};
use super::value::{val, vals, Env, Value, ValueV};
use crate::terms::symbol::{text_at, Sym, Symbols};
use crate::text::digits;
use std::rc::Rc;
use vstd::prelude::*;

verus! {

/// What a list of terms is built into.
#[derive(Debug, Clone, Copy, PartialEq, Eq, Structural)]
pub enum SeqKind {
    Tuple,
    Array,
    List,
    Ctor(Sym),
    Prim(Prim),
}

/// One frame of the stack: given the value of what is being evaluated, what to do next.
pub enum K {
    /// The function is evaluated; evaluate this argument next.
    EvalArg { arg: Rc<Term>, env: Env },
    /// The argument is evaluated; apply the saved function to it.
    ApplyTo { func: Value },
    If { yes: Rc<Term>, no: Rc<Term>, env: Env },
    /// Bind `var` to the incoming value, run `body`.
    Bind { var: Var, body: Rc<Term>, env: Env },
    /// The value is binding `at`'s.
    LetRec { scope: Env, binds: Rc<Vec<(Var, Rc<Term>)>>, at: usize, body: Rc<Term> },
    /// The value is the next of `items`, behind the ones that are done.
    Build { kind: SeqKind, done: Vec<Value>, items: Rc<Vec<Rc<Term>>>, env: Env },
    BuildRecord { done: Vec<Value>, labels: Rc<Vec<(Sym, Rc<Term>)>>, env: Env },
    Proj(usize),
    Sel(Sym),
    /// The record is evaluated; evaluate the new field's value.
    ExtendVal { label: Sym, val: Rc<Term>, env: Env },
    /// The field's value is evaluated; put it into the saved record.
    ExtendWith { label: Sym, rec: Value },
    /// The head is evaluated; evaluate the tail.
    ConsHead { tail: Rc<Term>, env: Env },
    /// The tail is evaluated; put the saved head before it.
    ConsBuild { head: Value },
    Match { arms: Rc<Vec<(Pat, Rc<Term>)>>, env: Env },
    /// The operation's argument is evaluated; unwind to a handler.
    PerformWith { effect: Sym, op: Sym },
    /// A handler's boundary.
    HandleMark(Rc<HandlerData>, Env),
}

/// [`K`], as what it is.
pub enum KV {
    EvalArg { arg: Rc<Term>, env: Env },
    ApplyTo { func: ValueV },
    If { yes: Rc<Term>, no: Rc<Term>, env: Env },
    Bind { var: Var, body: Rc<Term>, env: Env },
    LetRec { scope: Env, binds: Rc<Vec<(Var, Rc<Term>)>>, at: usize, body: Rc<Term> },
    Build { kind: SeqKind, done: Seq<ValueV>, items: Rc<Vec<Rc<Term>>>, env: Env },
    BuildRecord { done: Seq<ValueV>, labels: Rc<Vec<(Sym, Rc<Term>)>>, env: Env },
    Proj(usize),
    Sel(Sym),
    ExtendVal { label: Sym, val: Rc<Term>, env: Env },
    ExtendWith { label: Sym, rec: ValueV },
    ConsHead { tail: Rc<Term>, env: Env },
    ConsBuild { head: ValueV },
    Match { arms: Rc<Vec<(Pat, Rc<Term>)>>, env: Env },
    PerformWith { effect: Sym, op: Sym },
    HandleMark(Rc<HandlerData>, Env),
}

pub open spec fn kv(k: K) -> KV {
    match k {
        K::EvalArg { arg, env } => KV::EvalArg { arg, env },
        K::ApplyTo { func } => KV::ApplyTo { func: val(func) },
        K::If { yes, no, env } => KV::If { yes, no, env },
        K::Bind { var, body, env } => KV::Bind { var, body, env },
        K::LetRec { scope, binds, at, body } => KV::LetRec { scope, binds, at, body },
        K::Build { kind, done, items, env } => KV::Build { kind, done: vals(done@), items, env },
        K::BuildRecord { done, labels, env } => KV::BuildRecord { done: vals(done@), labels, env },
        K::Proj(i) => KV::Proj(i),
        K::Sel(l) => KV::Sel(l),
        K::ExtendVal { label, val: t, env } => KV::ExtendVal { label, val: t, env },
        K::ExtendWith { label, rec } => KV::ExtendWith { label, rec: val(rec) },
        K::ConsHead { tail, env } => KV::ConsHead { tail, env },
        K::ConsBuild { head } => KV::ConsBuild { head: val(head) },
        K::Match { arms, env } => KV::Match { arms, env },
        K::PerformWith { effect, op } => KV::PerformWith { effect, op },
        K::HandleMark(h, env) => KV::HandleMark(h, env),
    }
}

pub open spec fn konts(ks: Seq<K>) -> Seq<KV> {
    ks.map_values(|k: K| kv(k))
}

pub broadcast proof fn konts_push(ks: Seq<K>, k: K)
    ensures
        #[trigger] konts(ks.push(k)) == konts(ks).push(kv(k)),
{
    assert(konts(ks.push(k)) =~= konts(ks).push(kv(k)));
}

/// A frame of an environment: what is defined in it, the newest last, and what it is in.
pub struct Frame {
    pub slots: Vec<(Var, Value)>,
    pub parent: Option<Env>,
}

pub struct FrameV {
    pub slots: Seq<(Var, ValueV)>,
    pub parent: Option<Env>,
}

pub open spec fn fv(f: Frame) -> FrameV {
    FrameV { slots: slots(f.slots@), parent: f.parent }
}

pub open spec fn frames_of(fs: Seq<Frame>) -> Seq<FrameV> {
    fs.map_values(|f: Frame| fv(f))
}

/// A captured stack, until it is resumed.
pub open spec fn saved_of(s: Option<Vec<K>>) -> Option<Seq<KV>> {
    match s {
        Some(ks) => Some(konts(ks@)),
        None => None,
    }
}

pub open spec fn conts_of(cs: Seq<Option<Vec<K>>>) -> Seq<Option<Seq<KV>>> {
    cs.map_values(|c: Option<Vec<K>>| saved_of(c))
}

/// Something that is done outside the machine, which answers it with a value.
pub enum Wait {
    Prim(Answer),
    /// An operation of the runtime's own effects.
    Native { effect: Sym, op: Sym, arg: Value },
}

pub enum WaitV {
    Prim(AnswerV),
    Native { effect: Sym, op: Sym, arg: ValueV },
}

pub enum Control {
    Eval(Rc<Term>, Env),
    Ret(Value),
    Wait(Wait),
}

pub enum ControlV {
    Eval(Rc<Term>, Env),
    Ret(ValueV),
    Wait(WaitV),
}

pub open spec fn cv(c: Control) -> ControlV {
    match c {
        Control::Eval(t, env) => ControlV::Eval(t, env),
        Control::Ret(v) => ControlV::Ret(val(v)),
        Control::Wait(Wait::Prim(a)) => ControlV::Wait(WaitV::Prim(a@)),
        Control::Wait(Wait::Native { effect, op, arg }) => ControlV::Wait(
            WaitV::Native { effect, op, arg: val(arg) },
        ),
    }
}

pub struct Machine {
    pub ctrl: Control,
    pub kont: Vec<K>,
    pub frames: Vec<Frame>,
    pub conts: Vec<Option<Vec<K>>>,
    pub names: Symbols,
    /// The order of each constructor's named fields.
    pub fields: Vec<(Sym, Vec<Sym>)>,
}

/// [`Machine`], as what it is.
pub struct M {
    pub ctrl: ControlV,
    pub kont: Seq<KV>,
    pub frames: Seq<FrameV>,
    pub conts: Seq<Option<Seq<KV>>>,
    pub names: Seq<Seq<char>>,
    pub fields: Seq<(Sym, Vec<Sym>)>,
}

impl View for Machine {
    type V = M;

    open spec fn view(&self) -> M {
        M {
            ctrl: cv(self.ctrl),
            kont: konts(self.kont@),
            frames: frames_of(self.frames@),
            conts: conts_of(self.conts@),
            names: self.names@,
            fields: self.fields@,
        }
    }
}

/// What a step comes to: the machine it leaves, or why it stopped.
pub type Stepped = Result<M, Seq<PieceV>>;

/// A step done in place is the one that was to be done.
pub open spec fn steps_to(r: Result<(), RuntimeError>, m: M, want: Stepped) -> bool {
    match (r, want) {
        (Ok(()), Ok(w)) => m == w,
        (Err(e), Err(w)) => pieces(e.msg@) == w,
        _ => false,
    }
}

impl M {
    pub open spec fn push(self, k: KV) -> M {
        M { kont: self.kont.push(k), ..self }
    }

    pub open spec fn then_eval(self, t: Rc<Term>, env: Env) -> M {
        M { ctrl: ControlV::Eval(t, env), ..self }
    }

    pub open spec fn then_ret(self, v: ValueV) -> M {
        M { ctrl: ControlV::Ret(v), ..self }
    }

    /// A new frame inside `env`, with these slots; it is the last.
    pub open spec fn child(self, env: Env, s: Seq<(Var, ValueV)>) -> M {
        M { frames: self.frames.push(FrameV { slots: s, parent: Some(env) }), ..self }
    }

    /// Where the next new frame is.
    pub open spec fn scope(self) -> Env {
        self.frames.len() as usize
    }

    /// With `var` defined in `env`, over what it was.
    pub open spec fn define(self, env: Env, var: Var, v: ValueV) -> M {
        if env < self.frames.len() {
            let f = self.frames[env as int];
            M { frames: self.frames.update(env as int, FrameV { slots: f.slots.push((var, v)), ..f }), ..self }
        } else {
            self
        }
    }
}

/// The newest of the first `n` slots that is `var`'s.
pub open spec fn slot_of(s: Seq<(Var, ValueV)>, var: Var, n: nat) -> Option<ValueV>
    decreases n,
{
    if n == 0 || n > s.len() {
        None
    } else if s[n - 1].0 == var {
        Some(s[n - 1].1)
    } else {
        slot_of(s, var, (n - 1) as nat)
    }
}

/// What `var` is in `env`: the newest definition in the innermost frame that has one.
pub open spec fn lookup(frames: Seq<FrameV>, env: Env, var: Var) -> Option<ValueV>
    decreases env,
{
    if env >= frames.len() {
        None
    } else {
        let f = frames[env as int];
        match slot_of(f.slots, var, f.slots.len()) {
            Some(v) => Some(v),
            None => match f.parent {
                Some(p) => if p < env {
                    lookup(frames, p, var)
                } else {
                    None
                },
                None => None,
            },
        }
    }
}

/// What a list of nothing is built into.
pub open spec fn nothing(kind: SeqKind) -> ValueV {
    match kind {
        SeqKind::Tuple => ValueV::Tuple(Seq::empty()),
        SeqKind::Array => ValueV::Array(Seq::empty()),
        SeqKind::List => ValueV::List(Seq::empty()),
        SeqKind::Ctor(c) => ValueV::Ctor(c, Seq::empty()),
        SeqKind::Prim(_) => ValueV::Unit,
    }
}

/// A list of terms started on.
pub open spec fn started(m: M, items: Rc<Vec<Rc<Term>>>, env: Env, kind: SeqKind) -> M {
    if items@.len() == 0 {
        m.then_ret(nothing(kind))
    } else {
        m.push(KV::Build { kind, done: Seq::empty(), items, env }).then_eval(items@[0], env)
    }
}

/// The first `n` of some bindings, with nothing in them yet.
pub open spec fn unset(binds: Seq<(Var, Rc<Term>)>, n: nat) -> Seq<(Var, ValueV)>
    decreases n,
{
    if n == 0 || n > binds.len() {
        Seq::empty()
    } else {
        unset(binds, (n - 1) as nat).push((binds[n - 1].0, ValueV::Unit))
    }
}

/// A term taken apart: frames for its parts and a start on the first one, or, where it
/// is a value, the value.
pub open spec fn eval_term(m: M, t: Rc<Term>, env: Env) -> Stepped {
    match *t {
        Term::Var(v) => match lookup(m.frames, env, v) {
            Some(x) => Ok(m.then_ret(x)),
            None => Err(said("unbound variable Var("@) + said(digits(v as nat)) + said(")"@)),
        },
        Term::Lit(l) => Ok(m.then_ret(lit_of(l, m.names))),
        Term::Lam(param, body) => Ok(m.then_ret(ValueV::Closure { param, body, env })),
        Term::App(f, a) => Ok(m.push(KV::EvalArg { arg: a, env }).then_eval(f, env)),
        Term::Let(v, rhs, body) => Ok(m.push(KV::Bind { var: v, body, env }).then_eval(rhs, env)),
        Term::LetRec(binds, body) => {
            let scope = m.scope();
            let m1 = m.child(env, unset(binds@, binds@.len()));
            if binds@.len() == 0 {
                Ok(m1.then_eval(body, scope))
            } else {
                Ok(m1.push(KV::LetRec { scope, binds, at: 0, body }).then_eval(binds@[0].1, scope))
            }
        },
        Term::If(c, t, e) => Ok(m.push(KV::If { yes: t, no: e, env }).then_eval(c, env)),
        Term::Tuple(items) => Ok(started(m, items, env, SeqKind::Tuple)),
        Term::Array(items) => Ok(started(m, items, env, SeqKind::Array)),
        Term::List(items) => Ok(started(m, items, env, SeqKind::List)),
        Term::Ctor(c, items) => Ok(started(m, items, env, SeqKind::Ctor(c))),
        Term::Prim(op, items) => Ok(started(m, items, env, SeqKind::Prim(op))),
        Term::Record(fs) => if fs@.len() == 0 {
            Ok(m.then_ret(ValueV::Record(Seq::empty())))
        } else {
            Ok(m.push(KV::BuildRecord { done: Seq::empty(), labels: fs, env }).then_eval(fs@[0].1, env))
        },
        Term::Proj(t, i) => Ok(m.push(KV::Proj(i)).then_eval(t, env)),
        Term::Sel(t, l) => Ok(m.push(KV::Sel(l)).then_eval(t, env)),
        Term::Extend(rec, label, v) => Ok(m.push(KV::ExtendVal { label, val: v, env }).then_eval(rec, env)),
        Term::ListCons(head, tail) => Ok(m.push(KV::ConsHead { tail, env }).then_eval(head, env)),
        Term::Case(scrut, arms) => Ok(m.push(KV::Match { arms, env }).then_eval(scrut, env)),
        Term::Perform(effect, op, arg) => Ok(m.push(KV::PerformWith { effect, op }).then_eval(arg, env)),
        Term::Handle(body, data) => Ok(m.push(KV::HandleMark(data, env)).then_eval(body, env)),
        Term::Error => Err(said("evaluating an ill-formed expression"@)),
    }
}

/// What a primitive comes to, as the machine goes on.
pub open spec fn primed(m: M, op: Prim, args: Seq<ValueV>) -> Stepped {
    match run_op(op, args, m.names) {
        Err(e) => Err(e),
        Ok(AnswerV::Value(v)) => Ok(m.then_ret(v)),
        Ok(a) => Ok(M { ctrl: ControlV::Wait(WaitV::Prim(a)), ..m }),
    }
}

/// A list that is done.
pub open spec fn finished(m: M, kind: SeqKind, done: Seq<ValueV>) -> Stepped {
    match kind {
        SeqKind::Tuple => Ok(m.then_ret(ValueV::Tuple(done))),
        SeqKind::Array => Ok(m.then_ret(ValueV::Array(done))),
        SeqKind::List => Ok(m.then_ret(ValueV::List(done))),
        SeqKind::Ctor(c) => Ok(m.then_ret(ValueV::Ctor(c, done))),
        SeqKind::Prim(op) => primed(m, op, done),
    }
}

/// A record with a field put in its place, over what it was.
pub open spec fn put_field(fs: Seq<(Sym, ValueV)>, l: Sym, v: ValueV) -> Seq<(Sym, ValueV)>
    decreases fs.len(),
{
    if fs.len() == 0 || fs.last().0 < l {
        fs.push((l, v))
    } else if fs.last().0 == l {
        fs.drop_last().push((l, v))
    } else {
        put_field(fs.drop_last(), l, v).push(fs.last())
    }
}

/// The record of the first `n` of some labels, with their values: the last of a label
/// is the one that counts.
pub open spec fn record_of(items: Seq<(Sym, Rc<Term>)>, done: Seq<ValueV>, n: nat) -> Seq<(Sym, ValueV)>
    decreases n,
{
    if n == 0 || n > items.len() || n > done.len() {
        Seq::empty()
    } else {
        put_field(record_of(items, done, (n - 1) as nat), items[n - 1].0, done[n - 1])
    }
}

/// Where constructor `c`'s fields are listed, from `i` on.
pub open spec fn ctor_at(fs: Seq<(Sym, Vec<Sym>)>, c: Sym, i: nat) -> nat
    decreases fs.len() - i,
{
    if i >= fs.len() || fs[i as int].0 == c {
        i
    } else {
        ctor_at(fs, c, i + 1)
    }
}

/// Where label `l` is among some, from `i` on.
pub open spec fn label_at(ls: Seq<Sym>, l: Sym, i: nat) -> nat
    decreases ls.len() - i,
{
    if i >= ls.len() || ls[i as int] == l {
        i
    } else {
        label_at(ls, l, i + 1)
    }
}

/// A constructor's field, by its label.
pub open spec fn ctor_field(fs: Seq<(Sym, Vec<Sym>)>, c: Sym, l: Sym, vs: Seq<ValueV>) -> Option<ValueV> {
    let i = ctor_at(fs, c, 0);
    if i < fs.len() {
        let ls = fs[i as int].1@;
        let k = label_at(ls, l, 0);
        if k < ls.len() && k < vs.len() {
            Some(vs[k as int])
        } else {
            None
        }
    } else {
        None
    }
}

/// A field selected.
pub open spec fn selected(m: M, l: Sym, v: ValueV) -> Stepped {
    match v {
        ValueV::Record(fs) => match field_of(fs, l) {
            Some(x) => Ok(m.then_ret(x)),
            None => Err(said("record has no field `"@) + said(text_at(m.names, l)) + said("`"@)),
        },
        ValueV::Ctor(c, vs) => match ctor_field(m.fields, c, l, vs) {
            Some(x) => Ok(m.then_ret(x)),
            None => Err(
                said("`"@) + said(text_at(m.names, c)) + said("` has no field `"@) + said(text_at(m.names, l)) + said(
                    "`"@,
                ),
            ),
        },
        _ => Err(
            said("cannot select `."@) + said(text_at(m.names, l)) + said("` from "@) + shown(v, m.names),
        ),
    }
}

/// The first arm from `i` on that matches.
pub open spec fn arm_for(arms: Seq<(Pat, Rc<Term>)>, v: ValueV, names: Seq<Seq<char>>, i: nat) -> Option<
    (Rc<Term>, Seq<(Var, ValueV)>),
>
    decreases arms.len() - i,
{
    if i >= arms.len() {
        None
    } else {
        match matched(arms[i as int].0, v, names) {
            Some(b) => Some((arms[i as int].1, b)),
            None => arm_for(arms, v, names, i + 1),
        }
    }
}

/// A function applied.
pub open spec fn applied(m: M, func: ValueV, arg: ValueV) -> Stepped {
    match func {
        ValueV::Closure { param, body, env } => {
            Ok(m.child(env, seq![(param, arg)]).then_eval(body, m.scope()))
        },
        ValueV::Builtin { op, args } => if args.len() + 1 >= op.takes() {
            primed(m, op, args.push(arg))
        } else {
            Ok(m.then_ret(ValueV::Builtin { op, args: args.push(arg) }))
        },
        ValueV::Cont(k) => if k < m.conts.len() && m.conts[k as int] is Some {
            Ok(
                M {
                    kont: m.kont + m.conts[k as int]->0,
                    conts: m.conts.update(k as int, None),
                    ..m
                }.then_ret(arg),
            )
        } else {
            Err(said("continuation resumed more than once"@))
        },
        _ => Err(shown(func, m.names) + said(" is not a function"@)),
    }
}

/// Where the clause for an operation is, from `i` on.
pub open spec fn clause_at(cs: Seq<HClause>, effect: Sym, op: Sym, i: nat) -> nat
    decreases cs.len() - i,
{
    if i >= cs.len() || (cs[i as int].effect == effect && cs[i as int].op == op) {
        i
    } else {
        clause_at(cs, effect, op, i + 1)
    }
}

/// A frame is a handler of an operation.
pub open spec fn handles(k: KV, effect: Sym, op: Sym) -> bool {
    match k {
        KV::HandleMark(data, _) => clause_at(data.clauses@, effect, op, 0) < data.clauses@.len(),
        _ => false,
    }
}

/// The topmost of the first `n` frames that handles an operation.
pub open spec fn handler_at(ks: Seq<KV>, effect: Sym, op: Sym, n: nat) -> Option<nat>
    decreases n,
{
    if n == 0 || n > ks.len() {
        None
    } else if handles(ks[n - 1], effect, op) {
        Some((n - 1) as nat)
    } else {
        handler_at(ks, effect, op, (n - 1) as nat)
    }
}

/// An operation performed: the stack is cut at the nearest handler of it, and the part
/// above, with the handler, is the resumption its clause is given. Where there is none,
/// the runtime's own effects are for the outside.
pub open spec fn performed(m: M, effect: Sym, op: Sym, arg: ValueV) -> Stepped {
    match handler_at(m.kont, effect, op, m.kont.len()) {
        Some(i) => {
            let (data, henv) = (m.kont[i as int]->HandleMark_0, m.kont[i as int]->HandleMark_1);
            let c = data.clauses@[clause_at(data.clauses@, effect, op, 0) as int];
            let m1 = M {
                kont: m.kont.take(i as int),
                conts: m.conts.push(Some(m.kont.skip(i as int))),
                ..m
            };
            Ok(
                m1.child(
                    henv,
                    seq![(c.param, arg), (c.resume, ValueV::Cont(m.conts.len() as usize))],
                ).then_eval(c.body, m.scope()),
            )
        },
        None => if effect == FS || effect == PROCESS {
            Ok(M { ctrl: ControlV::Wait(WaitV::Native { effect, op, arg }), ..m })
        } else {
            Err(
                said("unhandled effect "@) + said(text_at(m.names, effect)) + said("."@) + said(
                    text_at(m.names, op),
                ),
            )
        },
    }
}

/// The next of a list of terms.
pub open spec fn built(m: M, kind: SeqKind, done: Seq<ValueV>, items: Rc<Vec<Rc<Term>>>, env: Env, v: ValueV) -> Stepped {
    let d = done.push(v);
    if d.len() < items@.len() {
        Ok(m.push(KV::Build { kind, done: d, items, env }).then_eval(items@[d.len() as int], env))
    } else {
        finished(m, kind, d)
    }
}

pub open spec fn record_built(m: M, done: Seq<ValueV>, labels: Rc<Vec<(Sym, Rc<Term>)>>, env: Env, v: ValueV) -> Stepped {
    let d = done.push(v);
    if d.len() < labels@.len() {
        Ok(m.push(KV::BuildRecord { done: d, labels, env }).then_eval(labels@[d.len() as int].1, env))
    } else {
        Ok(m.then_ret(ValueV::Record(record_of(labels@, d, labels@.len()))))
    }
}

pub open spec fn bound(m: M, scope: Env, binds: Rc<Vec<(Var, Rc<Term>)>>, at: usize, body: Rc<Term>, v: ValueV) -> M {
    if at >= binds@.len() {
        m.then_eval(body, scope)
    } else {
        let m1 = m.define(scope, binds@[at as int].0, v);
        if at + 1 < binds@.len() {
            m1.push(KV::LetRec { scope, binds, at: (at + 1) as usize, body }).then_eval(binds@[at + 1].1, scope)
        } else {
            m1.then_eval(body, scope)
        }
    }
}

/// A value given to the frame on top.
pub open spec fn ret_to(m: M, k: KV, v: ValueV) -> Stepped {
    match k {
        KV::EvalArg { arg, env } => Ok(m.push(KV::ApplyTo { func: v }).then_eval(arg, env)),
        KV::ApplyTo { func } => applied(m, func, v),
        KV::If { yes, no, env } => match v {
            ValueV::Bool(b) => Ok(
                m.then_eval(
                    if b {
                        yes
                    } else {
                        no
                    },
                    env,
                ),
            ),
            _ => Err(said("`if` condition is not a Bool: "@) + shown(v, m.names)),
        },
        KV::Bind { var, body, env } => Ok(m.child(env, seq![(var, v)]).then_eval(body, m.scope())),
        KV::LetRec { scope, binds, at, body } => Ok(bound(m, scope, binds, at, body, v)),
        KV::Build { kind, done, items, env } => built(m, kind, done, items, env, v),
        KV::BuildRecord { done, labels, env } => record_built(m, done, labels, env, v),
        KV::Proj(i) => match v {
            ValueV::Tuple(xs) => if i < xs.len() {
                Ok(m.then_ret(xs[i as int]))
            } else {
                Err(said("tuple projection "@) + said(digits(i as nat)) + said(" out of range"@))
            },
            _ => Err(
                said("cannot project field "@) + said(digits(i as nat)) + said(" out of "@) + shown(v, m.names),
            ),
        },
        KV::Sel(l) => selected(m, l, v),
        KV::ExtendVal { label, val: t, env } => Ok(m.push(KV::ExtendWith { label, rec: v }).then_eval(t, env)),
        KV::ExtendWith { label, rec } => match rec {
            ValueV::Record(fs) => Ok(m.then_ret(ValueV::Record(put_field(fs, label, v)))),
            _ => Err(said("cannot extend non-record "@) + shown(rec, m.names)),
        },
        KV::ConsHead { tail, env } => Ok(m.push(KV::ConsBuild { head: v }).then_eval(tail, env)),
        KV::ConsBuild { head } => match v {
            ValueV::List(xs) => Ok(m.then_ret(ValueV::List(seq![head] + xs))),
            _ => Err(said("`Cons` tail is not a list: "@) + shown(v, m.names)),
        },
        KV::Match { arms, env } => match arm_for(arms@, v, m.names, 0) {
            Some((body, b)) => Ok(m.child(env, b).then_eval(body, m.scope())),
            None => Err(said("non-exhaustive pattern match"@)),
        },
        KV::PerformWith { effect, op } => performed(m, effect, op, v),
        KV::HandleMark(data, henv) => match data.ret {
            Some((param, body)) => Ok(m.child(henv, seq![(param, v)]).then_eval(body, m.scope())),
            None => Ok(m.then_ret(v)),
        },
    }
}

/// A value came back: it goes to the frame on top.
pub open spec fn returned(m: M, v: ValueV) -> Stepped {
    if m.kont.len() == 0 {
        Ok(m.then_ret(v))
    } else {
        ret_to(M { kont: m.kont.drop_last(), ..m }, m.kont.last(), v)
    }
}

/// One step.
#[verifier::opaque]
pub open spec fn stepped(m: M) -> Stepped {
    match m.ctrl {
        ControlV::Eval(t, env) => eval_term(m, t, env),
        ControlV::Ret(v) => returned(m, v),
        ControlV::Wait(_) => Ok(m),
    }
}

} // verus!
