//! Literals, and the primitives a program calls by name.

use super::symbol::Sym;
use vstd::prelude::*;

verus! {

/// The width of a sized integer.
#[derive(Debug, Clone, Copy, PartialEq, Eq, Structural, Hash)]
pub enum Width {
    I8,
    I16,
    I32,
    U8,
    U16,
    U32,
    U64,
}

/// A literal.
#[derive(Debug, Clone, Copy, PartialEq, Eq, Structural, Hash)]
pub enum Lit {
    Int(i64),
    BigInt(i64),
    /// The bits of a `Float`.
    Float(u64),
    Word(Width, u64),
    /// The bits of a `Float32`.
    Float32(u32),
    /// A number at the type a variable stands for.
    AnyInt(i64, u32),
    AnyFloat(u64, u32),
    Str(Sym),
    /// A symbol: a string the program compares and nothing else.
    Sym(Sym),
    Char(char),
    Bool(bool),
    Unit,
}

/// A primitive.
#[derive(Debug, Clone, Copy, PartialEq, Eq, Structural, Hash)]
pub enum Prim {
    Add,
    Sub,
    Mul,
    Div,
    Mod,
    Pow,
    Neg,
    Lt,
    Gt,
    Le,
    Ge,
    Eq,
    Ne,
    AddF,
    SubF,
    MulF,
    DivF,
    LtF,
    GtF,
    LeF,
    GeF,
    ToFloat,
    ToFloat32,
    Floor,
    ToBig,
    ToInt,
    ToWord(Width),
    Hash,
    Display,
    Show,
    ArrayLen,
    ArrayGet,
    ArrayGetOr,
    ArraySet,
    ArrayPush,
    ArrayPop,
    ArraySlice,
    ArrayConcat,
    Shl,
    Shr,
    Ushr,
    BitAnd,
    BitOr,
    BitXor,
    BitNot,
    PopCount,
    BitWidth,
    StringToBytes,
    BytesToString,
    BytesToHex,
    BytesFromHex,
    CharCode,
    CharFromCode,
    StringToChars,
    CharsToString,
    ConcatStrings,
    StringByteLength,
    StringByteAt,
    StringSlice,
    StringCompare,
    StringIndexOf,
    NewRef,
    GetRef,
    SetRef,
    RunSt,
    StNewArray,
    StGetArray,
    StSetArray,
    StArrayLen,
    StFreeze,
    StThaw,
    Compact,
    GetCompact,
    CompactAdd,
    CompactSize,
    ThreadSpawn,
    ThreadAwait,
    ThreadYield,
    ChannelNew,
    ChannelSend,
    ChannelReceive,
    StmNew,
    StmRead,
    StmWrite,
    StmBegin,
    StmCommit,
    StmWait,
    StmNest,
    StmMerge,
    StmRollback,
    GlobalReady,
    GlobalGet,
    GlobalSet,
    Once,
    TakeOnce,
    Enter,
    Detach,
    Reattach,
    IntAdd,
    IntSub,
    IntMul,
    IntDiv,
    IntMod,
    IntEq,
    IntNe,
    IntLt,
    IntLe,
    IntGt,
    IntGe,
    FloatAdd,
    FloatSub,
    FloatMul,
    FloatDiv,
    FloatEq,
    FloatNe,
    FloatLt,
    FloatLe,
    FloatGt,
    FloatGe,
}

impl Prim {
    /// The primitives that compare, and so answer a `Bool` a branch can test.
    pub open spec fn is_comparison(self) -> bool {
        match self {
            Prim::Lt | Prim::Gt | Prim::Le | Prim::Ge | Prim::Eq | Prim::Ne | Prim::LtF | Prim::GtF | Prim::LeF
            | Prim::GeF | Prim::IntEq | Prim::IntNe | Prim::IntLt | Prim::IntLe | Prim::IntGt | Prim::IntGe
            | Prim::FloatEq | Prim::FloatNe | Prim::FloatLt | Prim::FloatLe | Prim::FloatGt | Prim::FloatGe => true,
            _ => false,
        }
    }

    pub fn compares(self) -> (r: bool)
        ensures
            r == self.is_comparison(),
    {
        match self {
            Prim::Lt | Prim::Gt | Prim::Le | Prim::Ge | Prim::Eq | Prim::Ne | Prim::LtF | Prim::GtF | Prim::LeF
            | Prim::GeF | Prim::IntEq | Prim::IntNe | Prim::IntLt | Prim::IntLe | Prim::IntGt | Prim::IntGe
            | Prim::FloatEq | Prim::FloatNe | Prim::FloatLt | Prim::FloatLe | Prim::FloatGt | Prim::FloatGe => true,
            _ => false,
        }
    }

    /// The primitive this one is, at a type of its own.
    pub open spec fn plain(self) -> Prim {
        match self {
            Prim::IntAdd => Prim::Add,
            Prim::IntSub => Prim::Sub,
            Prim::IntMul => Prim::Mul,
            Prim::IntDiv => Prim::Div,
            Prim::IntMod => Prim::Mod,
            Prim::IntEq => Prim::Eq,
            Prim::IntNe => Prim::Ne,
            Prim::IntLt => Prim::Lt,
            Prim::IntLe => Prim::Le,
            Prim::IntGt => Prim::Gt,
            Prim::IntGe => Prim::Ge,
            Prim::FloatAdd => Prim::AddF,
            Prim::FloatSub => Prim::SubF,
            Prim::FloatMul => Prim::MulF,
            Prim::FloatDiv => Prim::DivF,
            Prim::FloatEq => Prim::Eq,
            Prim::FloatNe => Prim::Ne,
            Prim::FloatLt => Prim::LtF,
            Prim::FloatLe => Prim::LeF,
            Prim::FloatGt => Prim::GtF,
            Prim::FloatGe => Prim::GeF,
            p => p,
        }
    }

    pub fn untyped(self) -> (r: Prim)
        ensures
            r == self.plain(),
    {
        match self {
            Prim::IntAdd => Prim::Add,
            Prim::IntSub => Prim::Sub,
            Prim::IntMul => Prim::Mul,
            Prim::IntDiv => Prim::Div,
            Prim::IntMod => Prim::Mod,
            Prim::IntEq => Prim::Eq,
            Prim::IntNe => Prim::Ne,
            Prim::IntLt => Prim::Lt,
            Prim::IntLe => Prim::Le,
            Prim::IntGt => Prim::Gt,
            Prim::IntGe => Prim::Ge,
            Prim::FloatAdd => Prim::AddF,
            Prim::FloatSub => Prim::SubF,
            Prim::FloatMul => Prim::MulF,
            Prim::FloatDiv => Prim::DivF,
            Prim::FloatEq => Prim::Eq,
            Prim::FloatNe => Prim::Ne,
            Prim::FloatLt => Prim::LtF,
            Prim::FloatLe => Prim::LeF,
            Prim::FloatGt => Prim::GtF,
            Prim::FloatGe => Prim::GeF,
            p => p,
        }
    }

    /// The primitive's name.
    pub open spec fn called(self) -> Seq<char> {
        match self {
            Prim::Add => "Add"@,
            Prim::Sub => "Sub"@,
            Prim::Mul => "Mul"@,
            Prim::Div => "Div"@,
            Prim::Mod => "Mod"@,
            Prim::Pow => "Pow"@,
            Prim::Neg => "Neg"@,
            Prim::Lt => "Lt"@,
            Prim::Gt => "Gt"@,
            Prim::Le => "Le"@,
            Prim::Ge => "Ge"@,
            Prim::Eq => "Eq"@,
            Prim::Ne => "Ne"@,
            Prim::AddF => "AddF"@,
            Prim::SubF => "SubF"@,
            Prim::MulF => "MulF"@,
            Prim::DivF => "DivF"@,
            Prim::LtF => "LtF"@,
            Prim::GtF => "GtF"@,
            Prim::LeF => "LeF"@,
            Prim::GeF => "GeF"@,
            Prim::ToFloat => "ToFloat"@,
            Prim::ToFloat32 => "ToFloat32"@,
            Prim::Floor => "Floor"@,
            Prim::ToBig => "ToBig"@,
            Prim::ToInt => "ToInt"@,
            Prim::Hash => "Hash"@,
            Prim::Display => "Display"@,
            Prim::Show => "Show"@,
            Prim::ArrayLen => "ArrayLen"@,
            Prim::ArrayGet => "ArrayGet"@,
            Prim::ArrayGetOr => "ArrayGetOr"@,
            Prim::ArraySet => "ArraySet"@,
            Prim::ArrayPush => "ArrayPush"@,
            Prim::ArrayPop => "ArrayPop"@,
            Prim::ArraySlice => "ArraySlice"@,
            Prim::ArrayConcat => "ArrayConcat"@,
            Prim::Shl => "Shl"@,
            Prim::Shr => "Shr"@,
            Prim::Ushr => "Ushr"@,
            Prim::BitAnd => "BitAnd"@,
            Prim::BitOr => "BitOr"@,
            Prim::BitXor => "BitXor"@,
            Prim::BitNot => "BitNot"@,
            Prim::PopCount => "PopCount"@,
            Prim::BitWidth => "BitWidth"@,
            Prim::StringToBytes => "StringToBytes"@,
            Prim::BytesToString => "BytesToString"@,
            Prim::BytesToHex => "BytesToHex"@,
            Prim::BytesFromHex => "BytesFromHex"@,
            Prim::CharCode => "CharCode"@,
            Prim::CharFromCode => "CharFromCode"@,
            Prim::StringToChars => "StringToChars"@,
            Prim::CharsToString => "CharsToString"@,
            Prim::ConcatStrings => "ConcatStrings"@,
            Prim::StringByteLength => "StringByteLength"@,
            Prim::StringByteAt => "StringByteAt"@,
            Prim::StringSlice => "StringSlice"@,
            Prim::StringCompare => "StringCompare"@,
            Prim::StringIndexOf => "StringIndexOf"@,
            Prim::NewRef => "NewRef"@,
            Prim::GetRef => "GetRef"@,
            Prim::SetRef => "SetRef"@,
            Prim::RunSt => "RunSt"@,
            Prim::StNewArray => "StNewArray"@,
            Prim::StGetArray => "StGetArray"@,
            Prim::StSetArray => "StSetArray"@,
            Prim::StArrayLen => "StArrayLen"@,
            Prim::StFreeze => "StFreeze"@,
            Prim::StThaw => "StThaw"@,
            Prim::Compact => "Compact"@,
            Prim::GetCompact => "GetCompact"@,
            Prim::CompactAdd => "CompactAdd"@,
            Prim::CompactSize => "CompactSize"@,
            Prim::ThreadSpawn => "ThreadSpawn"@,
            Prim::ThreadAwait => "ThreadAwait"@,
            Prim::ThreadYield => "ThreadYield"@,
            Prim::ChannelNew => "ChannelNew"@,
            Prim::ChannelSend => "ChannelSend"@,
            Prim::ChannelReceive => "ChannelReceive"@,
            Prim::StmNew => "StmNew"@,
            Prim::StmRead => "StmRead"@,
            Prim::StmWrite => "StmWrite"@,
            Prim::StmBegin => "StmBegin"@,
            Prim::StmCommit => "StmCommit"@,
            Prim::StmWait => "StmWait"@,
            Prim::StmNest => "StmNest"@,
            Prim::StmMerge => "StmMerge"@,
            Prim::StmRollback => "StmRollback"@,
            Prim::GlobalReady => "GlobalReady"@,
            Prim::GlobalGet => "GlobalGet"@,
            Prim::GlobalSet => "GlobalSet"@,
            Prim::Once => "Once"@,
            Prim::TakeOnce => "TakeOnce"@,
            Prim::Enter => "Enter"@,
            Prim::Detach => "Detach"@,
            Prim::Reattach => "Reattach"@,
            Prim::IntAdd => "IntAdd"@,
            Prim::IntSub => "IntSub"@,
            Prim::IntMul => "IntMul"@,
            Prim::IntDiv => "IntDiv"@,
            Prim::IntMod => "IntMod"@,
            Prim::IntEq => "IntEq"@,
            Prim::IntNe => "IntNe"@,
            Prim::IntLt => "IntLt"@,
            Prim::IntLe => "IntLe"@,
            Prim::IntGt => "IntGt"@,
            Prim::IntGe => "IntGe"@,
            Prim::FloatAdd => "FloatAdd"@,
            Prim::FloatSub => "FloatSub"@,
            Prim::FloatMul => "FloatMul"@,
            Prim::FloatDiv => "FloatDiv"@,
            Prim::FloatEq => "FloatEq"@,
            Prim::FloatNe => "FloatNe"@,
            Prim::FloatLt => "FloatLt"@,
            Prim::FloatLe => "FloatLe"@,
            Prim::FloatGt => "FloatGt"@,
            Prim::FloatGe => "FloatGe"@,
            Prim::ToWord(w) => match w {
                Width::I8 => "ToWord(I8)"@,
                Width::I16 => "ToWord(I16)"@,
                Width::I32 => "ToWord(I32)"@,
                Width::U8 => "ToWord(U8)"@,
                Width::U16 => "ToWord(U16)"@,
                Width::U32 => "ToWord(U32)"@,
                Width::U64 => "ToWord(U64)"@,
            },
        }
    }

    pub fn name(self) -> (r: &'static str)
        ensures
            r@ == self.called(),
    {
        match self {
            Prim::Add => "Add",
            Prim::Sub => "Sub",
            Prim::Mul => "Mul",
            Prim::Div => "Div",
            Prim::Mod => "Mod",
            Prim::Pow => "Pow",
            Prim::Neg => "Neg",
            Prim::Lt => "Lt",
            Prim::Gt => "Gt",
            Prim::Le => "Le",
            Prim::Ge => "Ge",
            Prim::Eq => "Eq",
            Prim::Ne => "Ne",
            Prim::AddF => "AddF",
            Prim::SubF => "SubF",
            Prim::MulF => "MulF",
            Prim::DivF => "DivF",
            Prim::LtF => "LtF",
            Prim::GtF => "GtF",
            Prim::LeF => "LeF",
            Prim::GeF => "GeF",
            Prim::ToFloat => "ToFloat",
            Prim::ToFloat32 => "ToFloat32",
            Prim::Floor => "Floor",
            Prim::ToBig => "ToBig",
            Prim::ToInt => "ToInt",
            Prim::Hash => "Hash",
            Prim::Display => "Display",
            Prim::Show => "Show",
            Prim::ArrayLen => "ArrayLen",
            Prim::ArrayGet => "ArrayGet",
            Prim::ArrayGetOr => "ArrayGetOr",
            Prim::ArraySet => "ArraySet",
            Prim::ArrayPush => "ArrayPush",
            Prim::ArrayPop => "ArrayPop",
            Prim::ArraySlice => "ArraySlice",
            Prim::ArrayConcat => "ArrayConcat",
            Prim::Shl => "Shl",
            Prim::Shr => "Shr",
            Prim::Ushr => "Ushr",
            Prim::BitAnd => "BitAnd",
            Prim::BitOr => "BitOr",
            Prim::BitXor => "BitXor",
            Prim::BitNot => "BitNot",
            Prim::PopCount => "PopCount",
            Prim::BitWidth => "BitWidth",
            Prim::StringToBytes => "StringToBytes",
            Prim::BytesToString => "BytesToString",
            Prim::BytesToHex => "BytesToHex",
            Prim::BytesFromHex => "BytesFromHex",
            Prim::CharCode => "CharCode",
            Prim::CharFromCode => "CharFromCode",
            Prim::StringToChars => "StringToChars",
            Prim::CharsToString => "CharsToString",
            Prim::ConcatStrings => "ConcatStrings",
            Prim::StringByteLength => "StringByteLength",
            Prim::StringByteAt => "StringByteAt",
            Prim::StringSlice => "StringSlice",
            Prim::StringCompare => "StringCompare",
            Prim::StringIndexOf => "StringIndexOf",
            Prim::NewRef => "NewRef",
            Prim::GetRef => "GetRef",
            Prim::SetRef => "SetRef",
            Prim::RunSt => "RunSt",
            Prim::StNewArray => "StNewArray",
            Prim::StGetArray => "StGetArray",
            Prim::StSetArray => "StSetArray",
            Prim::StArrayLen => "StArrayLen",
            Prim::StFreeze => "StFreeze",
            Prim::StThaw => "StThaw",
            Prim::Compact => "Compact",
            Prim::GetCompact => "GetCompact",
            Prim::CompactAdd => "CompactAdd",
            Prim::CompactSize => "CompactSize",
            Prim::ThreadSpawn => "ThreadSpawn",
            Prim::ThreadAwait => "ThreadAwait",
            Prim::ThreadYield => "ThreadYield",
            Prim::ChannelNew => "ChannelNew",
            Prim::ChannelSend => "ChannelSend",
            Prim::ChannelReceive => "ChannelReceive",
            Prim::StmNew => "StmNew",
            Prim::StmRead => "StmRead",
            Prim::StmWrite => "StmWrite",
            Prim::StmBegin => "StmBegin",
            Prim::StmCommit => "StmCommit",
            Prim::StmWait => "StmWait",
            Prim::StmNest => "StmNest",
            Prim::StmMerge => "StmMerge",
            Prim::StmRollback => "StmRollback",
            Prim::GlobalReady => "GlobalReady",
            Prim::GlobalGet => "GlobalGet",
            Prim::GlobalSet => "GlobalSet",
            Prim::Once => "Once",
            Prim::TakeOnce => "TakeOnce",
            Prim::Enter => "Enter",
            Prim::Detach => "Detach",
            Prim::Reattach => "Reattach",
            Prim::IntAdd => "IntAdd",
            Prim::IntSub => "IntSub",
            Prim::IntMul => "IntMul",
            Prim::IntDiv => "IntDiv",
            Prim::IntMod => "IntMod",
            Prim::IntEq => "IntEq",
            Prim::IntNe => "IntNe",
            Prim::IntLt => "IntLt",
            Prim::IntLe => "IntLe",
            Prim::IntGt => "IntGt",
            Prim::IntGe => "IntGe",
            Prim::FloatAdd => "FloatAdd",
            Prim::FloatSub => "FloatSub",
            Prim::FloatMul => "FloatMul",
            Prim::FloatDiv => "FloatDiv",
            Prim::FloatEq => "FloatEq",
            Prim::FloatNe => "FloatNe",
            Prim::FloatLt => "FloatLt",
            Prim::FloatLe => "FloatLe",
            Prim::FloatGt => "FloatGt",
            Prim::FloatGe => "FloatGe",
            Prim::ToWord(w) => match w {
                Width::I8 => "ToWord(I8)",
                Width::I16 => "ToWord(I16)",
                Width::I32 => "ToWord(I32)",
                Width::U8 => "ToWord(U8)",
                Width::U16 => "ToWord(U16)",
                Width::U32 => "ToWord(U32)",
                Width::U64 => "ToWord(U64)",
            },
        }
    }
}

impl Width {
    /// The width's name.
    pub open spec fn called(self) -> Seq<char> {
        match self {
            Width::I8 => "I8"@,
            Width::I16 => "I16"@,
            Width::I32 => "I32"@,
            Width::U8 => "U8"@,
            Width::U16 => "U16"@,
            Width::U32 => "U32"@,
            Width::U64 => "U64"@,
        }
    }

    pub fn name(self) -> (r: &'static str)
        ensures
            r@ == self.called(),
    {
        match self {
            Width::I8 => "I8",
            Width::I16 => "I16",
            Width::I32 => "I32",
            Width::U8 => "U8",
            Width::U16 => "U16",
            Width::U32 => "U32",
            Width::U64 => "U64",
        }
    }
}

} // verus!
