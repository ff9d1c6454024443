//! Statements as values: what a block, a statement or a definition is, whatever
//! vectors it is kept in.

use super::ir::{Block, Def, Extern, Label, Loc, Name, Statement, Tag};
use crate::terms::prim::{Lit, Prim};
use crate::terms::symbol::Sym;
use vstd::prelude::*;

verus! {

pub struct BlockV {
    pub params: Seq<Name>,
    pub body: StmtV,
}

pub enum StmtV {
    Substitute(Seq<Name>, Box<BlockV>),
    Jump(Label),
    Let { name: Name, tag: Tag, ctor: Sym, fields: Seq<Name>, rest: Box<StmtV> },
    Switch { scrutinee: Name, arms: Seq<(Tag, BlockV)>, default: Box<BlockV> },
    New { name: Name, captures: Seq<Name>, methods: Seq<BlockV>, rest: Box<StmtV> },
    Invoke(Name, Tag),
    Extern { op: ExternV, args: Seq<Name>, blocks: Seq<BlockV> },
    Error(Seq<char>),
    Mark(Loc, Box<StmtV>),
}

pub enum ExternV {
    Lit(Lit),
    Prim(Prim),
    PrimK(Prim, Lit),
    Branch,
    BranchPrim(Prim),
    BranchPrimK(Prim, Lit),
    Record(Seq<Sym>),
    Select(Sym),
    Extend(Sym),
    Array,
    Native(Sym, Sym),
    Field(usize),
}

pub struct DefV {
    pub label: Label,
    pub name: Sym,
    pub block: BlockV,
}

/// An operation, as a value.
pub open spec fn op_view(op: Extern) -> ExternV {
    match op {
        Extern::Lit(l) => ExternV::Lit(l),
        Extern::Prim(p) => ExternV::Prim(p),
        Extern::PrimK(p, l) => ExternV::PrimK(p, l),
        Extern::Branch => ExternV::Branch,
        Extern::BranchPrim(p) => ExternV::BranchPrim(p),
        Extern::BranchPrimK(p, l) => ExternV::BranchPrimK(p, l),
        Extern::Record(ls) => ExternV::Record(ls@),
        Extern::Select(l) => ExternV::Select(l),
        Extern::Extend(l) => ExternV::Extend(l),
        Extern::Array => ExternV::Array,
        Extern::Native(e, o) => ExternV::Native(e, o),
        Extern::Field(i) => ExternV::Field(i),
    }
}

/// A statement, as a value.
pub open spec fn stmt_view(s: Statement) -> StmtV
    decreases s,
{
    match s {
        Statement::Substitute(sel, block) => StmtV::Substitute(
            sel@,
            Box::new(BlockV { params: block.params@, body: stmt_view(block.body) }),
        ),
        Statement::Jump(l) => StmtV::Jump(l),
        Statement::Let { name, tag, ctor, fields, rest } => StmtV::Let {
            name,
            tag,
            ctor,
            fields: fields@,
            rest: Box::new(stmt_view(*rest)),
        },
        Statement::Switch { scrutinee, arms, default } => StmtV::Switch {
            scrutinee,
            arms: Seq::new(
                arms@.len(),
                |i: int|
                    if 0 <= i < arms@.len() {
                        (arms@[i].0, BlockV { params: arms@[i].1.params@, body: stmt_view(arms@[i].1.body) })
                    } else {
                        arbitrary()
                    },
            ),
            default: Box::new(BlockV { params: default.params@, body: stmt_view(default.body) }),
        },
        Statement::New { name, captures, methods, rest } => StmtV::New {
            name,
            captures: captures@,
            methods: Seq::new(
                methods@.len(),
                |i: int|
                    if 0 <= i < methods@.len() {
                        BlockV { params: methods@[i].params@, body: stmt_view(methods@[i].body) }
                    } else {
                        arbitrary()
                    },
            ),
            rest: Box::new(stmt_view(*rest)),
        },
        Statement::Invoke(n, tag) => StmtV::Invoke(n, tag),
        Statement::Extern { op, args, blocks } => StmtV::Extern {
            op: op_view(op),
            args: args@,
            blocks: Seq::new(
                blocks@.len(),
                |i: int|
                    if 0 <= i < blocks@.len() {
                        BlockV { params: blocks@[i].params@, body: stmt_view(blocks@[i].body) }
                    } else {
                        arbitrary()
                    },
            ),
        },
        Statement::Error(msg) => StmtV::Error(msg@),
        Statement::Mark(loc, inner) => StmtV::Mark(loc, Box::new(stmt_view(*inner))),
    }
}

impl View for Statement {
    type V = StmtV;

    open spec fn view(&self) -> StmtV {
        stmt_view(*self)
    }
}

impl View for Block {
    type V = BlockV;

    open spec fn view(&self) -> BlockV {
        BlockV { params: self.params@, body: stmt_view(self.body) }
    }
}

impl View for Def {
    type V = DefV;

    open spec fn view(&self) -> DefV {
        DefV { label: self.label, name: self.name, block: self.block@ }
    }
}

/// Arms, as values.
pub open spec fn arms_view(arms: Seq<(Tag, Block)>) -> Seq<(Tag, BlockV)> {
    Seq::new(arms.len(), |i: int| (arms[i].0, arms[i].1@))
}

/// Definitions, as values.
pub open spec fn defs_view(defs: Seq<Def>) -> Seq<DefV> {
    Seq::new(defs.len(), |i: int| defs[i]@)
}

// --- the shapes lowering writes ---

pub open spec fn sub_v(sel: Seq<Name>, params: Seq<Name>, body: StmtV) -> StmtV {
    StmtV::Substitute(sel, Box::new(BlockV { params, body }))
}

pub fn sub_s(sel: Vec<Name>, params: Vec<Name>, body: Statement) -> (r: Statement)
    ensures
        r@ == sub_v(sel@, params@, body@),
{
    Statement::Substitute(sel, Box::new(Block { params, body }))
}

/// Arrange the environment as `sel`, and jump.
pub open spec fn jump_v(sel: Seq<Name>, label: Label) -> StmtV {
    sub_v(sel, sel, StmtV::Jump(label))
}

pub fn jump_s(sel: Vec<Name>, label: Label) -> (r: Statement)
    ensures
        r@ == jump_v(sel@, label),
{
    let params: Vec<Name> = copy_names(&sel);
    sub_s(sel, params, Statement::Jump(label))
}

/// Arrange the environment as `sel`, and enter `f`, its first.
pub open spec fn invoke_v(sel: Seq<Name>, f: Name) -> StmtV {
    sub_v(sel, sel, StmtV::Invoke(f, 0))
}

pub fn invoke_s(sel: Vec<Name>, f: Name) -> (r: Statement)
    ensures
        r@ == invoke_v(sel@, f),
{
    let params: Vec<Name> = copy_names(&sel);
    sub_s(sel, params, Statement::Invoke(f, 0))
}

/// Return `v` to `k`.
pub open spec fn ret_v(k: Name, v: Name) -> StmtV {
    invoke_v(seq![k, v], k)
}

pub fn ret_s(k: Name, v: Name) -> (r: Statement)
    ensures
        r@ == ret_v(k, v),
{
    let sel: Vec<Name> = vec![k, v];
    proof {
        assert(sel@ =~= seq![k, v]);
    }
    invoke_s(sel, k)
}

/// Enter `f` with nothing to hand it.
pub open spec fn enter_v(f: Name) -> StmtV {
    invoke_v(seq![f], f)
}

pub fn enter_s(f: Name) -> (r: Statement)
    ensures
        r@ == enter_v(f),
{
    let sel: Vec<Name> = vec![f];
    proof {
        assert(sel@ =~= seq![f]);
    }
    invoke_s(sel, f)
}

/// An `extern` with one continuation.
pub open spec fn one_v(op: ExternV, args: Seq<Name>, params: Seq<Name>, body: StmtV) -> StmtV {
    StmtV::Extern { op, args, blocks: seq![BlockV { params, body }] }
}

pub fn one_s(op: Extern, args: Vec<Name>, params: Vec<Name>, body: Statement) -> (r: Statement)
    ensures
        r@ == one_v(op_view(op), args@, params@, body@),
{
    let blocks: Vec<Block> = vec![Block { params, body }];
    let r: Statement = Statement::Extern { op, args, blocks };
    proof {
        assert(r@->blocks =~= seq![BlockV { params: params@, body: body@ }]);
    }
    r
}

/// An `extern` with two continuations, each taking `env`: for false, and for true.
pub open spec fn two_v(op: ExternV, args: Seq<Name>, env: Seq<Name>, no: StmtV, yes: StmtV) -> StmtV {
    StmtV::Extern {
        op,
        args,
        blocks: seq![BlockV { params: env, body: no }, BlockV { params: env, body: yes }],
    }
}

pub fn two_s(op: Extern, args: Vec<Name>, env: &Vec<Name>, no: Statement, yes: Statement) -> (r: Statement)
    ensures
        r@ == two_v(op_view(op), args@, env@, no@, yes@),
{
    let a: Vec<Name> = copy_names(env);
    let b: Vec<Name> = copy_names(env);
    let blocks: Vec<Block> = vec![Block { params: a, body: no }, Block { params: b, body: yes }];
    let r: Statement = Statement::Extern { op, args, blocks };
    proof {
        assert(r@->blocks =~= seq![BlockV { params: env@, body: no@ }, BlockV { params: env@, body: yes@ }]);
    }
    r
}

/// The same on one value.
pub fn test_s(op: Extern, arg: Name, env: &Vec<Name>, no: Statement, yes: Statement) -> (r: Statement)
    ensures
        r@ == two_v(op_view(op), seq![arg], env@, no@, yes@),
{
    let args: Vec<Name> = vec![arg];
    proof {
        assert(args@ =~= seq![arg]);
    }
    two_s(op, args, env, no, yes)
}

/// An object with one method.
pub open spec fn new_v(name: Name, captures: Seq<Name>, method: BlockV, rest: StmtV) -> StmtV {
    StmtV::New { name, captures, methods: seq![method], rest: Box::new(rest) }
}

pub fn new_s(name: Name, captures: Vec<Name>, method: Block, rest: Statement) -> (r: Statement)
    ensures
        r@ == new_v(name, captures@, method@, rest@),
{
    let methods: Vec<Block> = vec![method];
    let r: Statement = Statement::New { name, captures, methods, rest: Box::new(rest) };
    proof {
        assert(r@->methods =~= seq![method@]);
    }
    r
}

/// The same, from the parts of its method.
pub fn object_s(name: Name, captures: Vec<Name>, params: Vec<Name>, body: Statement, rest: Statement) -> (r: Statement)
    ensures
        r@ == new_v(name, captures@, BlockV { params: params@, body: body@ }, rest@),
{
    new_s(name, captures, Block { params, body }, rest)
}

pub open spec fn let_v(name: Name, tag: Tag, ctor: Sym, fields: Seq<Name>, rest: StmtV) -> StmtV {
    StmtV::Let { name, tag, ctor, fields, rest: Box::new(rest) }
}

pub fn let_s(name: Name, tag: Tag, ctor: Sym, fields: Vec<Name>, rest: Statement) -> (r: Statement)
    ensures
        r@ == let_v(name, tag, ctor, fields@, rest@),
{
    Statement::Let { name, tag, ctor, fields, rest: Box::new(rest) }
}

pub open spec fn switch_v(scrutinee: Name, arms: Seq<(Tag, BlockV)>, env: Seq<Name>, otherwise: StmtV) -> StmtV {
    StmtV::Switch { scrutinee, arms, default: Box::new(BlockV { params: env, body: otherwise }) }
}

pub fn switch_s(scrutinee: Name, arms: Vec<(Tag, Block)>, env: Vec<Name>, otherwise: Statement) -> (r: Statement)
    ensures
        r@ == switch_v(scrutinee, arms_view(arms@), env@, otherwise@),
{
    let r: Statement = Statement::Switch {
        scrutinee,
        arms,
        default: Box::new(Block { params: env, body: otherwise }),
    };
    proof {
        assert(r@->arms =~= arms_view(arms@));
    }
    r
}

pub fn copy_names(v: &Vec<Name>) -> (r: Vec<Name>)
    ensures
        r@ == v@,
{
    let mut r: Vec<Name> = Vec::new();
    let mut i: usize = 0;
    while i < v.len()
        invariant
            i <= v@.len(),
            r@ == v@.take(i as int),
        decreases v@.len() - i,
    {
        r.push(v[i]);
        i = i + 1;
        proof {
            assert(v@.take(i as int) =~= v@.take(i - 1).push(v@[i - 1]));
        }
    }
    proof {
        assert(v@.take(i as int) =~= v@);
    }
    r
}

/// `x` in front of `v`.
pub fn before(x: Name, v: &Vec<Name>) -> (r: Vec<Name>)
    ensures
        r@ == seq![x] + v@,
{
    let mut r: Vec<Name> = copy_names(v);
    r.insert(0, x);
    proof {
        assert(r@ =~= seq![x] + v@);
    }
    r
}

/// `x` behind `v`.
pub fn after(v: &Vec<Name>, x: Name) -> (r: Vec<Name>)
    ensures
        r@ == v@.push(x),
{
    let mut r: Vec<Name> = copy_names(v);
    r.push(x);
    r
}

/// `b` behind `a`.
pub fn both(a: &Vec<Name>, b: &Vec<Name>) -> (r: Vec<Name>)
    ensures
        r@ == a@ + b@,
{
    let mut r: Vec<Name> = copy_names(a);
    let mut s: Vec<Name> = copy_names(b);
    r.append(&mut s);
    r
}

} // verus!
