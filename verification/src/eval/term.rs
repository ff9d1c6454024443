//! The terms the evaluator runs.

use crate::terms::symbol::{put, text_at, Sym, Symbols};
use crate::text::same;
use std::rc::Rc;
use vstd::prelude::*;

verus! {

/// A variable, unique across the whole program.
pub type Var = u32;

/// The names every program's table starts with.
pub const NONE: Sym = 0;

pub const JUST: Sym = 1;

pub const OK: Sym = 2;

pub const ERR: Sym = 3;

pub const VECTOR_EMPTY: Sym = 4;

pub const VECTOR_SINGLE: Sym = 5;

pub const VECTOR_FULL: Sym = 6;

pub const VNODE_LEAF: Sym = 7;

pub const VNODE_BRANCH: Sym = 8;

pub const FS: Sym = 9;

pub const PROCESS: Sym = 10;

/// The table every program starts with.
pub open spec fn first_names() -> Seq<Seq<char>> {
    seq![
        "None"@,
        "Just"@,
        "Ok"@,
        "Err"@,
        "VEmpty"@,
        "VSingle"@,
        "VFull"@,
        "VLeaf"@,
        "VBranch"@,
        "Fs"@,
        "Process"@,
    ]
}

pub fn names() -> (s: Symbols)
    ensures
        s@ == first_names(),
{
    let mut v: Vec<String> = Vec::new();
    proof {
        assert(crate::text::texts(v@) =~= Seq::<Seq<char>>::empty());
    }
    put(&mut v, "None");
    put(&mut v, "Just");
    put(&mut v, "Ok");
    put(&mut v, "Err");
    put(&mut v, "VEmpty");
    put(&mut v, "VSingle");
    put(&mut v, "VFull");
    put(&mut v, "VLeaf");
    put(&mut v, "VBranch");
    put(&mut v, "Fs");
    put(&mut v, "Process");
    proof {
        assert(crate::text::texts(v@) =~= first_names());
    }
    Symbols { texts: v }
}

#[derive(Debug, Clone, Copy, PartialEq, Eq, Structural)]
pub enum Lit {
    Int(i64),
    BigInt(i64),
    /// A float, as its bits.
    Float(u64),
    Str(Sym),
    Bool(bool),
    Unit,
}

/// A primitive.
#[derive(Debug, Clone, Copy, PartialEq, Eq, Structural)]
pub enum Prim {
    Add,
    Sub,
    Mul,
    Div,
    Mod,
    Pow,
    Lt,
    Gt,
    Le,
    Ge,
    AddB,
    SubB,
    MulB,
    DivB,
    ModB,
    PowB,
    LtB,
    GtB,
    LeB,
    GeB,
    AddF,
    SubF,
    MulF,
    DivF,
    LtF,
    GtF,
    LeF,
    GeF,
    ToFloat,
    Floor,
    ToBig,
    ToInt,
    Eq,
    Ne,
    Neg,
    Print,
    Println,
    ArrayLen,
    ArrayGet,
    ArrayGetOr,
    ArraySet,
    ArrayPush,
    ArrayPop,
    ArraySlice,
    ArrayConcat,
    Shl,
    Shr,
    Ushr,
    BitAnd,
    BitOr,
    BitXor,
    BitNot,
    PopCount,
    StringToBytes,
    BytesToString,
    BytesToHex,
    BytesFromHex,
}

impl Prim {
    /// How many arguments it takes.
    pub open spec fn takes(self) -> nat {
        match self {
            Prim::ToFloat | Prim::Floor | Prim::ToBig | Prim::ToInt | Prim::Neg | Prim::Print | Prim::Println => 1,
            Prim::ArrayLen | Prim::ArrayPop | Prim::BitNot | Prim::PopCount => 1,
            Prim::StringToBytes | Prim::BytesToString | Prim::BytesToHex | Prim::BytesFromHex => 1,
            Prim::ArrayGetOr | Prim::ArraySet | Prim::ArraySlice => 3,
            _ => 2,
        }
    }

    pub fn arity(self) -> (r: usize)
        ensures
            r == self.takes(),
    {
        match self {
            Prim::ToFloat | Prim::Floor | Prim::ToBig | Prim::ToInt | Prim::Neg | Prim::Print | Prim::Println => 1,
            Prim::ArrayLen | Prim::ArrayPop | Prim::BitNot | Prim::PopCount => 1,
            Prim::StringToBytes | Prim::BytesToString | Prim::BytesToHex | Prim::BytesFromHex => 1,
            Prim::ArrayGetOr | Prim::ArraySet | Prim::ArraySlice => 3,
            _ => 2,
        }
    }
}

#[derive(Debug)]
pub enum Pat {
    Wild,
    Var(Var),
    As(Var, Box<Pat>),
    Lit(Lit),
    Tuple(Vec<Pat>),
    Array(Vec<Pat>),
    List(Vec<Pat>),
    ListNil,
    ListCons(Box<Pat>, Box<Pat>),
    Ctor(Sym, Vec<Pat>),
    Record(Vec<(Sym, Pat)>),
}

/// A clause of a handler: what to do for one operation.
#[derive(Debug)]
pub struct HClause {
    pub effect: Sym,
    pub op: Sym,
    pub param: Var,
    pub resume: Var,
    pub body: Rc<Term>,
}

/// A handler: its clauses, and what to do with what the body answers.
#[derive(Debug)]
pub struct HandlerData {
    pub clauses: Vec<HClause>,
    pub ret: Option<(Var, Rc<Term>)>,
}

#[derive(Debug)]
pub enum Term {
    Var(Var),
    Lit(Lit),
    Lam(Var, Rc<Term>),
    App(Rc<Term>, Rc<Term>),
    Let(Var, Rc<Term>, Rc<Term>),
    LetRec(Rc<Vec<(Var, Rc<Term>)>>, Rc<Term>),
    If(Rc<Term>, Rc<Term>, Rc<Term>),
    Tuple(Rc<Vec<Rc<Term>>>),
    Array(Rc<Vec<Rc<Term>>>),
    List(Rc<Vec<Rc<Term>>>),
    Ctor(Sym, Rc<Vec<Rc<Term>>>),
    Prim(Prim, Rc<Vec<Rc<Term>>>),
    Record(Rc<Vec<(Sym, Rc<Term>)>>),
    Proj(Rc<Term>, usize),
    Sel(Rc<Term>, Sym),
    Extend(Rc<Term>, Sym, Rc<Term>),
    ListCons(Rc<Term>, Rc<Term>),
    Case(Rc<Term>, Rc<Vec<(Pat, Rc<Term>)>>),
    Perform(Sym, Sym, Rc<Term>),
    Handle(Rc<Term>, Rc<HandlerData>),
    Error,
}

pub struct Def {
    pub var: Var,
    pub term: Rc<Term>,
}

/// A whole program.
pub struct Program {
    pub symbols: Symbols,
    pub defs: Vec<Def>,
    pub entry: Option<Var>,
    /// The order of each constructor's named fields.
    pub ctor_fields: Vec<(Sym, Vec<Sym>)>,
}

impl Program {
    /// The program's table starts with the names the evaluator builds values by, so that
    /// `JUST` is `Just` in it, and so on.
    pub open spec fn valid(self) -> bool {
        first_names().is_prefix_of(self.symbols@)
    }

    /// Does it?
    pub fn is_valid(&self) -> (r: bool)
        ensures
            r == self.valid(),
    {
        let first: Symbols = names();
        if self.symbols.texts.len() < first.texts.len() {
            return false;
        }
        let mut i: usize = 0;
        while i < first.texts.len()
            invariant
                i <= first@.len() <= self.symbols@.len(),
                first@ == first_names(),
                first@.len() == first.texts@.len(),
                first@.len() <= u32::MAX,
                forall|j: int| 0 <= j < i ==> first@[j] == #[trigger] self.symbols@[j],
            decreases first.texts.len() - i,
        {
            let (a, b): (String, String) = (first.text(i as Sym), self.symbols.text(i as Sym));
            if !same(a.as_str(), b.as_str()) {
                assert(first@[i as int] != self.symbols@[i as int]);
                proof {
                    if self.valid() {
                        assert(self.symbols@.subrange(0, first@.len() as int)[i as int] == self.symbols@[i as int]);
                    }
                }
                return false;
            }
            i = i + 1;
        }
        proof {
            assert(self.symbols@.subrange(0, first@.len() as int) =~= first@);
        }
        true
    }
}

/// A valid program's table says of each name the evaluator builds by what it is.
pub proof fn a_valid_table_names_what_it_builds(p: Program)
    requires
        p.valid(),
    ensures
        text_at(p.symbols@, NONE) == "None"@,
        text_at(p.symbols@, JUST) == "Just"@,
        text_at(p.symbols@, OK) == "Ok"@,
        text_at(p.symbols@, ERR) == "Err"@,
        text_at(p.symbols@, VECTOR_EMPTY) == "VEmpty"@,
        text_at(p.symbols@, VECTOR_SINGLE) == "VSingle"@,
        text_at(p.symbols@, VECTOR_FULL) == "VFull"@,
        text_at(p.symbols@, VNODE_LEAF) == "VLeaf"@,
        text_at(p.symbols@, VNODE_BRANCH) == "VBranch"@,
        text_at(p.symbols@, FS) == "Fs"@,
        text_at(p.symbols@, PROCESS) == "Process"@,
{
    let n = first_names().len() as int;
    assert forall|i: int| 0 <= i < n implies #[trigger] p.symbols@[i] == first_names()[i] by {
        assert(p.symbols@.subrange(0, n)[i] == p.symbols@[i]);
    }
}

} // verus!
