//! A machine-level sequent-calculus program.
//!
//! Every statement is a cut with the rule it cuts against fused into it. `Jump`
//! and `Invoke` take no arguments: the arguments are already in the environment,
//! in the right order, because a `Substitute` put them there.

use crate::terms::desc::{self, Desc};
use crate::terms::prim::{Lit, Prim};
use crate::terms::symbol::{Sym, Symbols};
use std::collections::{HashMap, HashSet};
use vstd::prelude::*;

verus! {

broadcast use vstd::std_specs::hash::group_hash_axioms;

/// A name in the environment: a position in a register file.
pub type Name = u32;

/// Which constructor of a data type, or which method of a codata object.
pub type Tag = u32;

/// Where a person wrote something.
#[derive(Debug, Clone, Copy, PartialEq, Eq, Structural)]
pub struct Loc {
    pub file: u32,
    pub line: u32,
    pub col: u32,
}

/// How the value a name holds is represented at run time.
#[derive(Debug, Clone, Copy, PartialEq, Eq, Structural, Hash)]
pub enum Rep {
    /// A heap object.
    Ref,
    /// A 64-bit `Int`.
    Int,
    /// A 64-bit `Float`.
    Float,
    /// Any other immediate, as its descriptor.
    Bits(Desc),
    /// A `String`.
    Str,
    /// Whatever the descriptor in this name says: [`NO_DESC`] when no abstraction
    /// binds the variable.
    Var(u32),
    /// A type the compiler could not work out.
    Unknown,
}

/// [`Rep::Var`] of a type variable no enclosing abstraction binds.
pub const NO_DESC: u32 = 0xffff_ffff;

impl Rep {
    /// The descriptor of a value of this representation, when it is known without
    /// looking at one.
    pub open spec fn described(self) -> Option<Desc> {
        match self {
            Rep::Ref => Some(desc::REF),
            Rep::Int => Some(desc::INT),
            Rep::Float => Some(desc::FLOAT),
            Rep::Str => Some(desc::STR),
            Rep::Bits(d) => Some(d),
            Rep::Var(_) | Rep::Unknown => None,
        }
    }

    pub fn desc(self) -> (r: Option<Desc>)
        ensures
            r == self.described(),
    {
        match self {
            Rep::Ref => Some(desc::REF),
            Rep::Int => Some(desc::INT),
            Rep::Float => Some(desc::FLOAT),
            Rep::Str => Some(desc::STR),
            Rep::Bits(d) => Some(d),
            Rep::Var(_) | Rep::Unknown => None,
        }
    }
}

/// A top-level block, reachable by [`Statement::Jump`].
#[derive(Debug, Clone, Copy, PartialEq, Eq, Structural, Hash, PartialOrd, Ord)]
pub struct Label(pub u32);

/// A block: parameter names, which name the whole environment in order, and a body
/// that runs with those names bound.
#[derive(Debug)]
pub struct Block {
    pub params: Vec<Name>,
    pub body: Statement,
}

#[derive(Debug)]
pub enum Statement {
    /// Rebuild the environment from the named values, in that order, and run the
    /// block.
    Substitute(Vec<Name>, Box<Block>),
    /// Transfer control, environment unchanged.
    Jump(Label),
    /// Build a data value and bind it.
    Let { name: Name, tag: Tag, ctor: Sym, fields: Vec<Name>, rest: Box<Statement> },
    /// Branch on a constructor tag. An arm's parameters bind that constructor's
    /// fields, followed by the environment as it stands.
    Switch { scrutinee: Name, arms: Vec<(Tag, Block)>, default: Box<Block> },
    /// Build codata: a closure, a continuation, a handler's clause.
    New { name: Name, captures: Vec<Name>, methods: Vec<Block>, rest: Box<Statement> },
    /// Enter a method of a codata object: its captures, followed by what was left
    /// behind the object.
    Invoke(Name, Tag),
    /// A primitive. The blocks are its continuations.
    Extern { op: Extern, args: Vec<Name>, blocks: Vec<Block> },
    /// Reaching one is a runtime error.
    Error(&'static str),
    /// What a person wrote at a position. It does nothing.
    Mark(Loc, Box<Statement>),
}

/// What an [`Statement::Extern`] does.
#[derive(Debug)]
pub enum Extern {
    /// Produce a constant.
    Lit(Lit),
    Prim(Prim),
    /// A binary primitive whose right operand is a literal.
    PrimK(Prim, Lit),
    /// Two continuations, taken on false and true.
    Branch,
    /// Branch on a binary primitive.
    BranchPrim(Prim),
    /// The same with a literal right operand.
    BranchPrimK(Prim, Lit),
    /// Build a record. The labels name the arguments, in the same order.
    Record(Vec<Sym>),
    Select(Sym),
    /// One argument the record, one the value.
    Extend(Sym),
    /// Build an array from its arguments.
    Array,
    /// An effect operation no handler in the program answers.
    Native(Sym, Sym),
    /// A field of a data value, tuple or array.
    Field(usize),
}

/// A labelled block in the program table.
#[derive(Debug)]
pub struct Def {
    pub label: Label,
    pub name: Sym,
    pub block: Block,
}

pub struct Program {
    pub symbols: Symbols,
    pub defs: Vec<Def>,
    /// Where execution starts.
    pub entry: Option<Label>,
    /// Constructor name to tag, so `switch` arms and `let` agree on numbering.
    pub tags: HashMap<Sym, Tag>,
    /// Every name that is a function's own return continuation.
    pub returns: HashSet<Name>,
    /// The other continuations: the ones a function makes for itself.
    pub continuations: HashSet<Name>,
    /// The continuations that are entered once and leave nothing behind.
    pub frames: HashSet<Name>,
    /// Named-field order per constructor.
    pub ctor_fields: Vec<(Sym, Vec<Sym>)>,
    /// What every name holds.
    pub reps: HashMap<Name, Rep>,
    /// Names that are copies of a variable the program was written with.
    pub origins: HashMap<Name, Name>,
    /// What a definition's block answers its continuation with, by label.
    pub results: HashMap<u32, Rep>,
    /// For a name holding a thread, what the thread answers with.
    pub threads: HashMap<Name, Rep>,
}

/// The first definition from `from` on that `label` names, and how many there are
/// if none is.
pub open spec fn defined(defs: Seq<Def>, label: Label, from: nat) -> nat
    decreases defs.len() - from,
{
    if from >= defs.len() || defs[from as int].label == label {
        from
    } else {
        defined(defs, label, from + 1)
    }
}

impl Program {
    /// The block `label` names.
    pub fn block(&self, label: Label) -> (r: Option<&Block>)
        ensures
            match r {
                Some(b) => defined(self.defs@, label, 0) < self.defs@.len() && *b == self.defs@[defined(
                    self.defs@,
                    label,
                    0,
                ) as int].block,
                None => defined(self.defs@, label, 0) >= self.defs@.len(),
            },
    {
        let mut i: usize = 0;
        while i < self.defs.len()
            invariant
                i <= self.defs@.len(),
                defined(self.defs@, label, 0) == defined(self.defs@, label, i as nat),
            decreases self.defs@.len() - i,
        {
            if self.defs[i].label.0 == label.0 {
                return Some(&self.defs[i].block);
            }
            i = i + 1;
        }
        None
    }
}

impl Extern {
    /// Chooses between two continuations rather than produce a value.
    pub open spec fn branches(self) -> bool {
        match self {
            Extern::Branch | Extern::BranchPrim(_) | Extern::BranchPrimK(_, _) => true,
            _ => false,
        }
    }

    /// Does this `extern` choose between two continuations rather than produce a
    /// value?
    pub fn is_branch(&self) -> (r: bool)
        ensures
            r == self.branches(),
    {
        match self {
            Extern::Branch | Extern::BranchPrim(_) | Extern::BranchPrimK(_, _) => true,
            _ => false,
        }
    }
}

/// The primitives whose operands can be given in either order.
pub open spec fn commuting(p: Prim) -> bool {
    match p {
        Prim::Add | Prim::Mul | Prim::Eq | Prim::Ne | Prim::AddF | Prim::MulF | Prim::BitAnd | Prim::BitOr
        | Prim::BitXor => true,
        _ => false,
    }
}

/// Can `p`'s operands be given in either order?
pub fn commutes(p: Prim) -> (r: bool)
    ensures
        r == commuting(p),
{
    match p {
        Prim::Add | Prim::Mul | Prim::Eq | Prim::Ne | Prim::AddF | Prim::MulF | Prim::BitAnd | Prim::BitOr
        | Prim::BitXor => true,
        _ => false,
    }
}

/// Does `s` read `n` out of the environment it starts in, in the activation it
/// starts in? What a `new`'s methods do with their captures is theirs; taking the
/// captures is a read here.
pub open spec fn reads(s: Statement, n: Name) -> bool
    decreases s,
{
    match s {
        Statement::Substitute(sel, _) => sel@.contains(n),
        Statement::Jump(_) | Statement::Invoke(_, _) | Statement::Error(_) => false,
        Statement::Let { fields, rest, .. } => fields@.contains(n) || reads(*rest, n),
        Statement::New { captures, rest, .. } => captures@.contains(n) || reads(*rest, n),
        Statement::Switch { scrutinee, arms, default } => {
            ||| scrutinee == n
            ||| reads(default.body, n)
            ||| exists|i: int| 0 <= i < arms@.len() && reads((#[trigger] arms@[i]).1.body, n)
        },
        Statement::Extern { args, blocks, .. } => {
            ||| args@.contains(n)
            ||| exists|i: int| 0 <= i < blocks@.len() && reads((#[trigger] blocks@[i]).body, n)
        },
        Statement::Mark(_, inner) => reads(*inner, n),
    }
}

/// Does some way through `s` hand the whole environment on, to a block or a method
/// that no `substitute` has chosen for?
pub open spec fn hands_on(s: Statement) -> bool
    decreases s,
{
    match s {
        Statement::Substitute(_, _) | Statement::Error(_) => false,
        Statement::Jump(_) | Statement::Invoke(_, _) => true,
        Statement::Let { rest, .. } => hands_on(*rest),
        Statement::New { rest, .. } => hands_on(*rest),
        Statement::Switch { arms, default, .. } => {
            ||| hands_on(default.body)
            ||| exists|i: int| 0 <= i < arms@.len() && hands_on((#[trigger] arms@[i]).1.body)
        },
        Statement::Extern { blocks, .. } => exists|i: int|
            0 <= i < blocks@.len() && hands_on((#[trigger] blocks@[i]).body),
        Statement::Mark(_, inner) => hands_on(*inner),
    }
}

/// The names `s` still needs from the environment it starts in: nothing can be
/// said, where `s` hands its whole environment on.
pub fn still_used(s: &Statement) -> (r: Option<HashSet<Name>>)
    ensures
        r is None <==> hands_on(*s),
        r is Some ==> forall|n: Name| r->0@.contains(n) <==> reads(*s, n),
{
    let mut out: HashSet<Name> = HashSet::new();
    if gather_uses(s, &mut out) {
        Some(out)
    } else {
        None
    }
}

/// Add every name of `ns` to `out`.
pub fn extend(out: &mut HashSet<Name>, ns: &Vec<Name>)
    ensures
        forall|n: Name| #[trigger] final(out)@.contains(n) <==> old(out)@.contains(n) || ns@.contains(n),
{
    let ghost was = out@;
    let mut i: usize = 0;
    while i < ns.len()
        invariant
            i <= ns@.len(),
            forall|n: Name| #[trigger] out@.contains(n) <==> was.contains(n) || ns@.take(i as int).contains(n),
        decreases ns@.len() - i,
    {
        let ghost before = out@;
        out.insert(ns[i]);
        proof {
            assert(out@ == before.insert(ns@[i as int]));
            let more = ns@.take(i + 1);
            assert(more =~= ns@.take(i as int).push(ns@[i as int]));
            assert forall|n: Name| more.contains(n) <==> ns@.take(i as int).contains(n) || n == ns@[i as int] by {
                if ns@.take(i as int).contains(n) {
                    let j = choose|j: int| 0 <= j < i && ns@.take(i as int)[j] == n;
                    assert(more[j] == n);
                }
                assert(more[i as int] == ns@[i as int]);
            }
        }
        i = i + 1;
    }
    proof {
        assert(ns@.take(i as int) =~= ns@);
    }
}

/// Collects into `out`; `false` means the statement hands its whole environment on
/// and nothing may be dropped.
fn gather_uses(s: &Statement, out: &mut HashSet<Name>) -> (r: bool)
    ensures
        r == !hands_on(*s),
        forall|n: Name| #[trigger] final(out)@.contains(n) <==> old(out)@.contains(n) || reads(*s, n),
    decreases s,
{
    match s {
        Statement::Substitute(sel, _) => {
            extend(out, sel);
            true
        },
        Statement::Jump(_) => false,
        Statement::Invoke(_, _) => false,
        Statement::Let { fields, rest, .. } => {
            extend(out, fields);
            gather_uses(rest, out)
        },
        Statement::New { captures, rest, .. } => {
            extend(out, captures);
            gather_uses(rest, out)
        },
        Statement::Switch { scrutinee, arms, default } => {
            out.insert(*scrutinee);
            let mut ok: bool = gather_uses(&default.body, out);
            let ghost was = out@;
            let ghost first = ok;
            let mut i: usize = 0;
            while i < arms.len()
                invariant
                    i <= arms@.len(),
                    decreases_to!(s => arms),
                    ok == (first && forall|j: int| 0 <= j < i ==> !hands_on((#[trigger] arms@[j]).1.body)),
                    forall|n: Name|
                        #[trigger] out@.contains(n) <==> was.contains(n) || exists|j: int|
                            0 <= j < i && reads((#[trigger] arms@[j]).1.body, n),
                decreases arms@.len() - i,
            {
                let ghost before = out@;
                let (_, block) = &arms[i];
                assert(decreases_to!(arms => arms@[i as int]));
                let more: bool = gather_uses(&block.body, out);
                ok = ok && more;
                i = i + 1;
                proof {
                    assert forall|n: Name|
                        #[trigger] out@.contains(n) <==> was.contains(n) || exists|j: int|
                            0 <= j < i && reads((#[trigger] arms@[j]).1.body, n) by {
                        assert(out@.contains(n) <==> before.contains(n) || reads(arms@[i - 1].1.body, n));
                        if reads(arms@[i - 1].1.body, n) {
                            assert(exists|j: int| 0 <= j < i && reads((#[trigger] arms@[j]).1.body, n));
                        }
                    }
                }
            }
            ok
        },
        Statement::Extern { args, blocks, .. } => {
            extend(out, args);
            let mut ok: bool = true;
            let ghost was = out@;
            let mut i: usize = 0;
            while i < blocks.len()
                invariant
                    i <= blocks@.len(),
                    decreases_to!(s => blocks),
                    ok == (forall|j: int| 0 <= j < i ==> !hands_on((#[trigger] blocks@[j]).body)),
                    forall|n: Name|
                        #[trigger] out@.contains(n) <==> was.contains(n) || exists|j: int|
                            0 <= j < i && reads((#[trigger] blocks@[j]).body, n),
                decreases blocks@.len() - i,
            {
                let ghost before = out@;
                let block = &blocks[i];
                assert(decreases_to!(blocks => blocks@[i as int]));
                let more: bool = gather_uses(&block.body, out);
                ok = ok && more;
                i = i + 1;
                proof {
                    assert forall|n: Name|
                        #[trigger] out@.contains(n) <==> was.contains(n) || exists|j: int|
                            0 <= j < i && reads((#[trigger] blocks@[j]).body, n) by {
                        assert(out@.contains(n) <==> before.contains(n) || reads(blocks@[i - 1].body, n));
                        if reads(blocks@[i - 1].body, n) {
                            assert(exists|j: int| 0 <= j < i && reads((#[trigger] blocks@[j]).body, n));
                        }
                    }
                }
            }
            ok
        },
        Statement::Mark(_, inner) => gather_uses(inner, out),
        Statement::Error(_) => true,
    }
}

/// Once a `new` has taken its captures, what its methods do is not a use of the
/// frame: after the `new`, a name is read only if what follows reads it.
pub proof fn capturing_is_the_last_use(s: Statement, n: Name)
    requires
        s is New,
        !reads(*s->New_rest, n),
    ensures
        reads(s, n) <==> s->captures@.contains(n),
{
}

/// A `substitute` is the complete interface to what follows it.
pub proof fn a_substitute_reads_its_selection(sel: Vec<Name>, block: Box<Block>, n: Name)
    ensures
        !hands_on(Statement::Substitute(sel, block)),
        reads(Statement::Substitute(sel, block), n) <==> sel@.contains(n),
{
}

} // verus!
