//! Running the machine.

use super::shown::HeapV;
use super::state::{look_all, Fault, OutV, Stepped, S};
use super::step::{is_step, out_view, Machine, Out};
use super::trans::stepped;
use super::value::{value_facts, ValueV};
use crate::eval::prim::RuntimeError;
use crate::eval::show::say;
use crate::eval::shown::{pieces, said};
use crate::seq::ir::{defined, Block, Label, Name, Program, Statement};
use crate::text::{decimal, digits};
use vstd::prelude::*;

verus! {

broadcast use value_facts;

/// Up to `n` transitions, until one does more than go on.
pub open spec fn runs(p: Program, s: S, n: nat) -> Stepped
    decreases n,
{
    if n == 0 {
        Ok((s, OutV::Next))
    } else {
        match stepped(p, s) {
            Ok((t, OutV::Next)) => runs(p, t, (n - 1) as nat),
            other => other,
        }
    }
}

/// How many transitions that takes, the last and one that fails among them.
pub open spec fn taken(p: Program, s: S, n: nat) -> nat
    decreases n,
{
    if n == 0 {
        0
    } else {
        match stepped(p, s) {
            Ok((t, OutV::Next)) => 1 + taken(p, t, (n - 1) as nat),
            _ => 1,
        }
    }
}

/// A count of `had` and `more`, which stays at the highest there is.
pub open spec fn counted(had: u64, more: nat) -> u64 {
    if had + more < u64::MAX {
        (had + more) as u64
    } else {
        u64::MAX
    }
}

/// No more transitions are taken than were asked for.
pub proof fn no_more_is_taken_than_asked(p: Program, s: S, n: nat)
    ensures
        taken(p, s, n) <= n,
    decreases n,
{
    if n > 0 {
        if let Ok((t, OutV::Next)) = stepped(p, s) {
            no_more_is_taken_than_asked(p, t, (n - 1) as nat);
        }
    }
}

/// Where a program starts, or why it does not.
pub open spec fn started(p: Program) -> Result<S, Fault> {
    match p.entry {
        None => Err(said("program has no entry point"@)),
        Some(l) => {
            let i = defined(p.defs@, l, 0);
            if i >= p.defs@.len() {
                Err(said("entry label Label("@) + said(digits(l.0 as nat)) + said(") is not defined"@))
            } else {
                let b = p.defs@[i as int].block;
                if b.params@.len() != 1 {
                    Err(
                        said("entry block takes "@) + said(digits(b.params@.len())) + said(
                            " parameters, expected 1 (the continuation)"@,
                        ),
                    )
                } else {
                    Ok(
                        S {
                            stmt: b.body,
                            names: b.params@,
                            env: seq![ValueV::Halt],
                            globals: Seq::empty(),
                            heap: HeapV { cells: Seq::empty(), arrays: Seq::empty() },
                        },
                    )
                }
            }
        },
    }
}

/// What a program comes to within `fuel` transitions: a machine that goes on is one that
/// did not finish.
pub open spec fn ran(p: Program, fuel: u64) -> Stepped {
    match started(p) {
        Err(e) => Err(e),
        Ok(s) => match runs(p, s, fuel as nat) {
            Ok((_, OutV::Next)) => Err(
                said("ran for "@) + said(digits(fuel as nat)) + said(" steps without finishing"@),
            ),
            other => other,
        },
    }
}

impl<'p> Machine<'p> {
    /// The machine at the program's entry point. Its block takes one parameter, the
    /// continuation to answer with, and that continuation is [`Value::Halt`].
    pub fn new(program: &'p Program) -> (r: Result<Machine<'p>, RuntimeError>)
        ensures
            match (r, started(*program)) {
                (Ok(m), Ok(s)) => m@ == s && m.program == program && m.steps == 0,
                (Err(e), Err(w)) => pieces(e.msg@) == w,
                _ => false,
            },
    {
        match program.entry {
            None => Err(super::prim::fail("program has no entry point")),
            Some(l) => Machine::at(program, l),
        }
    }

    /// Run on for up to `most` transitions, until one does more than go on.
    pub fn advance(&mut self, most: u64) -> (r: Result<Out<'p>, RuntimeError>)
        ensures
            final(self).program == old(self).program,
            is_step(r, final(self)@, runs(*old(self).program, old(self)@, most as nat)),
            final(self).steps == counted(old(self).steps, taken(*old(self).program, old(self)@, most as nat)),
    {
        let ghost goal = runs(*self.program, self@, most as nat);
        let ghost all = taken(*self.program, self@, most as nat);
        let mut left: u64 = most;
        while left > 0
            invariant
                self.program == old(self).program,
                goal == runs(*self.program, self@, left as nat),
                goal == runs(*old(self).program, old(self)@, most as nat),
                all == taken(*old(self).program, old(self)@, most as nat),
                counted(self.steps, taken(*self.program, self@, left as nat)) == counted(old(self).steps, all),
            decreases left,
        {
            match self.step() {
                Ok(Out::Next) => {},
                other => return other,
            }
            left = left - 1;
        }
        Ok(Out::Next)
    }

    /// Run a program to completion, or until `fuel` transitions have been taken. Bounded
    /// rather than open-ended, so that a program that loops fails rather than hangs.
    pub fn run(program: &'p Program, fuel: u64) -> (r: (Option<Machine<'p>>, Result<Out<'p>, RuntimeError>))
        ensures
            match (r.1, ran(*program, fuel)) {
                (Ok(o), Ok((s, w))) => r.0 is Some && r.0->0@ == s && out_view(o) == w,
                (Err(e), Err(w)) => pieces(e.msg@) == w,
                _ => false,
            },
            r.0 is Some <==> started(*program) is Ok,
            r.0 is Some ==> r.0->0.program == program && r.0->0.steps == taken(
                *program,
                started(*program)->Ok_0,
                fuel as nat,
            ),
    {
        let mut m: Machine<'p> = match Machine::new(program) {
            Ok(m) => m,
            Err(e) => return (None, Err(e)),
        };
        proof {
            no_more_is_taken_than_asked(*program, m@, fuel as nat);
        }
        match m.advance(fuel) {
            Ok(Out::Next) => {
                let mut e: RuntimeError = super::prim::fail("ran for ");
                say(&mut e.msg, decimal(fuel).as_str());
                say(&mut e.msg, " steps without finishing");
                (Some(m), Err(e))
            },
            other => (Some(m), other),
        }
    }
}

/// A block's parameters name the whole environment: whatever transition is taken, there are
/// as many names as values.
pub proof fn names_cover_the_environment(p: Program, s: S)
    requires
        s.names.len() == s.env.len(),
    ensures
        match stepped(p, s) {
            Ok((t, _)) => t.names.len() == t.env.len(),
            Err(_) => true,
        },
{
    reveal(stepped);
}

/// However far a program runs, there are as many names as values.
pub proof fn a_run_covers_the_environment(p: Program, s: S, n: nat)
    requires
        s.names.len() == s.env.len(),
    ensures
        match runs(p, s, n) {
            Ok((t, _)) => t.names.len() == t.env.len(),
            Err(_) => true,
        },
    decreases n,
{
    if n > 0 {
        names_cover_the_environment(p, s);
        if let Ok((t, OutV::Next)) = stepped(p, s) {
            a_run_covers_the_environment(p, t, (n - 1) as nat);
        }
    }
}

/// A jump leaves the environment alone.
pub proof fn a_jump_keeps_the_environment(p: Program, s: S, l: Label)
    requires
        s.stmt == Statement::Jump(l),
    ensures
        match stepped(p, s) {
            Ok((t, _)) => t.env == s.env,
            Err(_) => true,
        },
{
    reveal(stepped);
}

/// A substitution leaves what it names, in that order, and nothing else.
pub proof fn a_substitution_keeps_what_it_names(p: Program, s: S, sel: Vec<Name>, b: Box<Block>)
    requires
        s.stmt == Statement::Substitute(sel, b),
    ensures
        match stepped(p, s) {
            Ok((t, _)) => look_all(p, s, sel@, sel@.len()) == Ok::<Seq<ValueV>, Fault>(t.env) && t.env.len()
                == sel@.len(),
            Err(_) => true,
        },
{
    reveal(stepped);
}

/// More fuel does not change what a run came to.
pub proof fn more_fuel_changes_nothing(p: Program, s: S, n: nat, m: nat)
    requires
        n <= m,
        match runs(p, s, n) {
            Ok((_, OutV::Next)) => false,
            _ => true,
        },
    ensures
        runs(p, s, m) == runs(p, s, n),
    decreases n,
{
    if n > 0 {
        if let Ok((t, OutV::Next)) = stepped(p, s) {
            more_fuel_changes_nothing(p, t, (n - 1) as nat, (m - 1) as nat);
        }
    }
}

} // verus!
