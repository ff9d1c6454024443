//! What dependency analysis reads of a resolved module: which variables each
//! declaration binds, and which its body mentions.

use vstd::prelude::*;

verus! {

/// A variable, unique across the whole program.
pub type VarId = u32;

/// A resolved expression. A pattern is the variables it binds.
pub enum Expr {
    Var(VarId),
    Lam(Vec<VarId>, Box<Expr>),
    App(Box<Expr>, Vec<Expr>),
    Let(Vec<Bind>, Box<Expr>),
    If(Box<Expr>, Box<Expr>, Box<Expr>),
    Match(Box<Expr>, Vec<(Vec<VarId>, Expr)>),
    Tuple(Vec<Expr>),
    Array(Vec<Expr>),
    List(Vec<Expr>),
    Cons(String, Vec<Expr>),
    Record(Vec<(String, Expr)>, Option<Box<Expr>>),
    Field(Box<Expr>, String),
    Handle(Box<Expr>, Vec<(String, Expr)>, Option<(VarId, Box<Expr>)>),
    Lit,
    Unit,
    Error,
}

/// A binding, of a function or of a pattern.
pub enum Bind {
    Fun(VarId, Vec<VarId>, Expr),
    Pat(Vec<VarId>, Expr),
    Error,
}

/// A declaration.
pub enum Decl {
    Bind(Bind),
    Data(String),
    Record(String),
    Effect(String),
    Use(String),
    Mod(String),
}

/// Bindings that are inferred together.
pub struct BindGroup {
    /// Where its members are, among the module's declarations.
    pub members: Vec<usize>,
    /// A member mentions itself or another.
    pub recursive: bool,
}

/// A module.
pub struct Module {
    pub decls: Vec<Decl>,
    pub groups: Vec<BindGroup>,
}

/// `e` mentions `v`.
pub open spec fn mentions(e: Expr, v: VarId) -> bool
    decreases e,
{
    match e {
        Expr::Var(x) => x == v,
        Expr::Lam(_, body) => mentions(*body, v),
        Expr::App(f, args) => mentions(*f, v) || exists|i: int| 0 <= i < args@.len() && mentions(#[trigger] args@[i], v),
        Expr::Let(binds, body) => mentions(*body, v) || exists|i: int|
            0 <= i < binds@.len() && bind_mentions(#[trigger] binds@[i], v),
        Expr::If(c, t, e) => mentions(*c, v) || mentions(*t, v) || mentions(*e, v),
        Expr::Match(s, arms) => mentions(*s, v) || exists|i: int|
            0 <= i < arms@.len() && mentions((#[trigger] arms@[i]).1, v),
        Expr::Tuple(xs) => exists|i: int| 0 <= i < xs@.len() && mentions(#[trigger] xs@[i], v),
        Expr::Array(xs) => exists|i: int| 0 <= i < xs@.len() && mentions(#[trigger] xs@[i], v),
        Expr::List(xs) => exists|i: int| 0 <= i < xs@.len() && mentions(#[trigger] xs@[i], v),
        Expr::Cons(_, xs) => exists|i: int| 0 <= i < xs@.len() && mentions(#[trigger] xs@[i], v),
        Expr::Record(fields, base) => (exists|i: int|
            0 <= i < fields@.len() && mentions((#[trigger] fields@[i]).1, v)) || (match base {
            Some(b) => mentions(*b, v),
            None => false,
        }),
        Expr::Field(o, _) => mentions(*o, v),
        Expr::Handle(body, arms, ret) => mentions(*body, v) || (exists|i: int|
            0 <= i < arms@.len() && mentions((#[trigger] arms@[i]).1, v)) || (match ret {
            Some(r) => mentions(*r.1, v),
            None => false,
        }),
        Expr::Lit | Expr::Unit | Expr::Error => false,
    }
}

/// The body of `b` mentions `v`.
pub open spec fn bind_mentions(b: Bind, v: VarId) -> bool
    decreases b,
{
    match b {
        Bind::Fun(_, _, body) => mentions(body, v),
        Bind::Pat(_, body) => mentions(body, v),
        Bind::Error => false,
    }
}

/// `b` binds `v`.
pub open spec fn binds(b: Bind, v: VarId) -> bool {
    match b {
        Bind::Fun(f, _, _) => f == v,
        Bind::Pat(vs, _) => vs@.contains(v),
        Bind::Error => false,
    }
}

} // verus!
