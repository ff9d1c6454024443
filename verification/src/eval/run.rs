//! Running a program.

use super::machine::{
    applied, handler_at, lookup, performed, stepped, steps_to, Control, ControlV, Frame, FrameV, Machine, Wait, KV,
    M,
};
use super::pattern::{slots, slots_push};
use super::prim::{fail, RuntimeError};
use super::shown::{pieces, said, PieceV};
use super::term::{Def, Program, Term, Var};
use super::value::{val, value_facts, Value, ValueV};
use crate::terms::symbol::Sym;
use crate::terms::ty::share;
use std::rc::Rc;
use vstd::prelude::*;

verus! {

broadcast use {value_facts, slots_push};

/// A program being run: its machine, and which definition it is at.
pub struct Session {
    pub machine: Machine,
    pub defs: Vec<Def>,
    pub at: usize,
    pub entry: Option<Var>,
}

/// How far a program has come.
pub enum Status {
    /// It has not ended yet.
    More,
    /// It waits for something outside.
    Waiting,
    Done(Value),
}

/// The first `n` definitions, with nothing in them yet.
pub open spec fn placeholders(defs: Seq<Def>, n: nat) -> Seq<(Var, ValueV)>
    decreases n,
{
    if n == 0 || n > defs.len() {
        Seq::empty()
    } else {
        placeholders(defs, (n - 1) as nat).push((defs[n - 1].var, ValueV::Unit))
    }
}

/// What the machine does at definition `at`.
pub open spec fn started_on(m: M, defs: Seq<Def>, at: nat) -> M {
    if at < defs.len() {
        m.then_eval(defs[at as int].term, 0)
    } else {
        m
    }
}

/// The machine a program starts with: each definition is there from the start, so that
/// a reference to a later one is found.
pub open spec fn loaded(p: Program) -> M {
    started_on(
        M {
            ctrl: ControlV::Ret(ValueV::Unit),
            kont: Seq::empty(),
            frames: seq![FrameV { slots: placeholders(p.defs@, p.defs@.len()), parent: None }],
            conts: Seq::empty(),
            names: p.symbols@,
            fields: p.ctor_fields@,
        },
        p.defs@,
        0,
    )
}

/// One step of a program: of its machine, or on to the next definition.
pub open spec fn ticked(m: M, defs: Seq<Def>, at: nat) -> Result<(M, nat), Seq<PieceV>> {
    if at >= defs.len() || m.ctrl is Wait {
        Ok((m, at))
    } else if m.ctrl is Ret && m.kont.len() == 0 {
        Ok((started_on(m.define(0, defs[at as int].var, m.ctrl->Ret_0), defs, at + 1), at + 1))
    } else {
        match stepped(m) {
            Ok(m1) => Ok((m1, at)),
            Err(e) => Err(e),
        }
    }
}

/// `n` steps of a program.
pub open spec fn ticks(m: M, defs: Seq<Def>, at: nat, n: nat) -> Result<(M, nat), Seq<PieceV>>
    decreases n,
{
    if n == 0 {
        Ok((m, at))
    } else {
        match ticks(m, defs, at, (n - 1) as nat) {
            Ok((m1, at1)) => ticked(m1, defs, at1),
            Err(e) => Err(e),
        }
    }
}

/// What a program that has ended comes to.
pub open spec fn outcome(m: M, entry: Option<Var>) -> Result<ValueV, Seq<PieceV>> {
    match entry {
        None => Ok(ValueV::Unit),
        Some(v) => match lookup(m.frames, 0, v) {
            Some(x) => Ok(x),
            None => Err(said("entry point not found"@)),
        },
    }
}

/// What is said of a program that came to `m` at definition `at`.
pub open spec fn status_of(r: Result<Status, RuntimeError>, m: M, defs: Seq<Def>, at: nat, entry: Option<Var>) -> bool {
    if at >= defs.len() {
        match (r, outcome(m, entry)) {
            (Ok(Status::Done(v)), Ok(w)) => val(v) == w,
            (Err(e), Err(w)) => pieces(e.msg@) == w,
            _ => false,
        }
    } else if m.ctrl is Wait {
        r == Ok::<Status, RuntimeError>(Status::Waiting)
    } else {
        r == Ok::<Status, RuntimeError>(Status::More)
    }
}

impl Machine {
    /// One step.
    pub fn step(&mut self) -> (r: Result<(), RuntimeError>)
        ensures
            steps_to(r, final(self)@, stepped(old(self)@)),
    {
        reveal(stepped);
        match &self.ctrl {
            Control::Eval(t, env) => {
                let (t, env) = (share(t), *env);
                self.eval(&t, env)
            },
            Control::Ret(v) => {
                let v: Value = v.copy();
                self.ret(v)
            },
            Control::Wait(_) => Ok(()),
        }
    }
}

impl Session {
    /// A program at its start.
    pub fn new(program: Program) -> (s: Session)
        requires
            program.valid(),
        ensures
            s.machine@ == loaded(program),
            s.defs@ == program.defs@,
            s.at == 0,
            s.entry == program.entry,
    {
        let ghost defs = program.defs@;
        let mut root: Vec<(Var, Value)> = Vec::new();
        let mut i: usize = 0;
        proof {
            assert(slots(root@) =~= Seq::<(Var, ValueV)>::empty());
        }
        while i < program.defs.len()
            invariant
                i <= program.defs@.len(),
                slots(root@) == placeholders(program.defs@, i as nat),
            decreases program.defs@.len() - i,
        {
            root.push((program.defs[i].var, Value::Unit));
            i = i + 1;
        }
        let mut frames: Vec<Frame> = Vec::new();
        frames.push(Frame { slots: root, parent: None });
        let ctrl: Control = if program.defs.len() > 0 {
            Control::Eval(share(&program.defs[0].term), 0)
        } else {
            Control::Ret(Value::Unit)
        };
        let machine: Machine = Machine {
            ctrl,
            kont: Vec::new(),
            frames,
            conts: Vec::new(),
            names: program.symbols,
            fields: program.ctor_fields,
        };
        proof {
            assert(machine@.kont =~= Seq::<KV>::empty());
            assert(machine@.conts =~= Seq::<Option<Seq<KV>>>::empty());
            assert(machine@.frames =~= seq![
                FrameV { slots: placeholders(defs, defs.len()), parent: None },
            ]);
        }
        Session { machine, defs: program.defs, at: 0, entry: program.entry }
    }

    /// One step of the program.
    fn tick(&mut self) -> (r: Result<(), RuntimeError>)
        ensures
            final(self).defs == old(self).defs,
            final(self).entry == old(self).entry,
            match (r, ticked(old(self).machine@, old(self).defs@, old(self).at as nat)) {
                (Ok(()), Ok((m, at))) => final(self).machine@ == m && final(self).at == at,
                (Err(e), Err(w)) => pieces(e.msg@) == w,
                _ => false,
            },
    {
        let n: usize = self.defs.len();
        if self.at >= n {
            return Ok(());
        }
        let bare: bool = self.machine.kont.len() == 0;
        let answer: Option<Value> = match &self.machine.ctrl {
            Control::Wait(_) => return Ok(()),
            Control::Ret(v) => if bare {
                Some(v.copy())
            } else {
                None
            },
            Control::Eval(_, _) => None,
        };
        match answer {
            Some(v) => {
                let var: Var = self.defs[self.at].var;
                self.machine.define(0, var, v);
                self.at = self.at + 1;
                if self.at < n {
                    let t: Rc<Term> = share(&self.defs[self.at].term);
                    self.machine.then_eval(t, 0);
                }
                Ok(())
            },
            None => self.machine.step(),
        }
    }

    /// Run on, for no more than `most` steps.
    pub fn advance(&mut self, most: u64) -> (r: Result<Status, RuntimeError>)
        ensures
            final(self).defs == old(self).defs,
            final(self).entry == old(self).entry,
            match ticks(old(self).machine@, old(self).defs@, old(self).at as nat, most as nat) {
                Ok((m, at)) => final(self).machine@ == m && final(self).at == at && status_of(
                    r,
                    m,
                    old(self).defs@,
                    at,
                    old(self).entry,
                ),
                Err(w) => r is Err && pieces(r->Err_0.msg@) == w,
            },
    {
        let ghost (m0, at0) = (self.machine@, self.at as nat);
        let mut left: u64 = most;
        let mut still: bool = false;
        while left > 0 && !still
            invariant
                left <= most,
                self.defs == old(self).defs,
                self.entry == old(self).entry,
                ticks(m0, self.defs@, at0, (most - left) as nat) == Ok::<(M, nat), Seq<PieceV>>(
                    (self.machine@, self.at as nat),
                ),
                still ==> self.at >= self.defs@.len() || self.machine@.ctrl is Wait,
                m0 == old(self).machine@,
                at0 == old(self).at,
            decreases left, (if still { 0nat } else { 1nat }),
        {
            still = self.at >= self.defs.len() || match &self.machine.ctrl {
                Control::Wait(_) => true,
                _ => false,
            };
            if !still {
                match self.tick() {
                    Ok(()) => {},
                    Err(e) => {
                        proof {
                            lemma_stays_failed(m0, self.defs@, at0, (most - left + 1) as nat, most as nat);
                        }
                        return Err(e);
                    },
                }
                left = left - 1;
            }
        }
        proof {
            if still {
                lemma_stays(m0, self.defs@, at0, (most - left) as nat, most as nat);
            }
        }
        if self.at >= self.defs.len() {
            return match self.entry {
                None => Ok(Status::Done(Value::Unit)),
                Some(v) => match self.machine.lookup(0, v) {
                    Some(x) => Ok(Status::Done(x)),
                    None => Err(fail("entry point not found")),
                },
            };
        }
        match &self.machine.ctrl {
            Control::Wait(_) => Ok(Status::Waiting),
            _ => Ok(Status::More),
        }
    }

    /// What was waited for has come to `v`.
    pub fn resume(&mut self, v: Value)
        ensures
            final(self).defs == old(self).defs,
            final(self).entry == old(self).entry,
            final(self).at == old(self).at,
            final(self).machine@ == old(self).machine@.then_ret(val(v)),
    {
        self.machine.then_ret(v);
    }
}

proof fn lemma_stays(m: M, defs: Seq<Def>, at: nat, i: nat, n: nat)
    requires
        i <= n,
        ticks(m, defs, at, i) matches Ok(p) && (p.1 >= defs.len() || p.0.ctrl is Wait),
    ensures
        ticks(m, defs, at, n) == ticks(m, defs, at, i),
    decreases n,
{
    if i < n {
        lemma_stays(m, defs, at, i, (n - 1) as nat);
    }
}

proof fn lemma_stays_failed(m: M, defs: Seq<Def>, at: nat, i: nat, n: nat)
    requires
        i <= n,
        ticks(m, defs, at, i) is Err,
    ensures
        ticks(m, defs, at, n) == ticks(m, defs, at, i),
    decreases n,
{
    if i < n {
        lemma_stays_failed(m, defs, at, i, (n - 1) as nat);
    }
}

/// Run a program from its start, for no more than `most` steps.
pub fn run(program: Program, most: u64) -> (r: (Session, Result<Status, RuntimeError>))
    requires
        program.valid(),
    ensures
        match ticks(loaded(program), program.defs@, 0, most as nat) {
            Ok((m, at)) => r.0.machine@ == m && r.0.at == at && status_of(r.1, m, program.defs@, at, program.entry),
            Err(w) => r.1 is Err && pieces(r.1->Err_0.msg@) == w,
        },
{
    let mut s: Session = Session::new(program);
    let status: Result<Status, RuntimeError> = s.advance(most);
    (s, status)
}

/// Running on after running is running for both.
pub proof fn running_adds_up(m: M, defs: Seq<Def>, at: nat, i: nat, n: nat)
    ensures
        match ticks(m, defs, at, i) {
            Ok((m1, at1)) => ticks(m, defs, at, i + n) == ticks(m1, defs, at1, n),
            Err(e) => ticks(m, defs, at, i + n) == Err::<(M, nat), Seq<PieceV>>(e),
        },
    decreases n,
{
    if n > 0 {
        running_adds_up(m, defs, at, i, (n - 1) as nat);
        assert(ticks(m, defs, at, i + n) == match ticks(m, defs, at, (i + n - 1) as nat) {
            Ok((m1, at1)) => ticked(m1, defs, at1),
            Err(e) => Err(e),
        });
    }
}

/// Handlers are one-shot: a resumption that has been called stays called whatever the
/// machine does next, and calling it again is an error.
pub proof fn a_resumption_is_called_once(m: M, k: usize, arg: ValueV)
    requires
        k < m.conts.len(),
        m.conts[k as int] is None,
    ensures
        applied(m, ValueV::Cont(k), arg) is Err,
        match stepped(m) {
            Ok(m1) => k < m1.conts.len() && m1.conts[k as int] is None,
            Err(_) => true,
        },
{
    reveal(stepped);
}

/// Calling a resumption calls it.
pub proof fn calling_a_resumption_spends_it(m: M, k: usize, arg: ValueV)
    ensures
        match applied(m, ValueV::Cont(k), arg) {
            Ok(m1) => k < m1.conts.len() && m1.conts[k as int] is None,
            Err(_) => true,
        },
{
}

/// Handlers are deep: when an operation is performed under a handler of it, calling the
/// resumption at once gives back the whole stack, with the handler still on it.
pub proof fn resuming_puts_the_stack_back(m: M, effect: Sym, op: Sym, arg: ValueV, answer: ValueV)
    requires
        handler_at(m.kont, effect, op, m.kont.len()) is Some,
        m.conts.len() <= usize::MAX,
    ensures
        match performed(m, effect, op, arg) {
            Ok(m1) => match applied(m1, ValueV::Cont(m.conts.len() as usize), answer) {
                Ok(m2) => m2.kont == m.kont && m2.ctrl == ControlV::Ret(answer),
                Err(_) => false,
            },
            Err(_) => false,
        },
{
    lemma_handler_at(m.kont, effect, op, m.kont.len());
    let i = handler_at(m.kont, effect, op, m.kont.len())->0;
    assert(m.kont.take(i as int) + m.kont.skip(i as int) =~= m.kont);
}

proof fn lemma_handler_at(ks: Seq<KV>, effect: Sym, op: Sym, n: nat)
    ensures
        match handler_at(ks, effect, op, n) {
            Some(i) => i < n && i < ks.len(),
            None => true,
        },
    decreases n,
{
    if n > 0 && n <= ks.len() {
        lemma_handler_at(ks, effect, op, (n - 1) as nat);
    }
}

} // verus!
