//! A readable rendering of a program.
//!
//! Statements chain rather than nest: `let`, `new` and an `extern` with one
//! continuation are one line followed by what comes next at the same indentation.
//! Only what genuinely branches, and the block a `substitute` enters, is indented.
//! Blocks show their parameters, which are the whole environment at that point.

use super::ir::{Block, Def, Extern, Label, Name, Program, Statement, Tag};
use crate::terms::prim::Lit;
use crate::terms::symbol::{text_at, Sym, Symbols};
use crate::text::{decimal, digits, quote, quote_char, quoted, quoted_char, signed, signed_decimal};
use vstd::prelude::*;

verus! {

/// `out` with names added to it, commas between them.
pub open spec fn with_names(out: Seq<char>, ns: Seq<Name>, n: nat) -> Seq<char>
    decreases n,
{
    if n == 0 || n > ns.len() {
        out
    } else if n == 1 {
        out + "v"@ + digits(ns[0] as nat)
    } else {
        with_names(out, ns, (n - 1) as nat) + ", "@ + "v"@ + digits(ns[n - 1] as nat)
    }
}

/// `out` with a list of names added to it.
pub open spec fn with_list(out: Seq<char>, open: Seq<char>, ns: Seq<Name>, close: Seq<char>) -> Seq<char> {
    with_names(out + open, ns, ns.len()) + close
}

/// `out` with symbols added to it, commas between them.
pub open spec fn with_symbols(out: Seq<char>, all: Seq<Seq<char>>, ls: Seq<Sym>, n: nat) -> Seq<char>
    decreases n,
{
    if n == 0 || n > ls.len() {
        out
    } else if n == 1 {
        out + text_at(all, ls[0])
    } else {
        with_symbols(out, all, ls, (n - 1) as nat) + ", "@ + text_at(all, ls[n - 1])
    }
}

/// `out` with a literal added to it.
pub open spec fn with_lit(out: Seq<char>, all: Seq<Seq<char>>, l: Lit) -> Seq<char> {
    match l {
        Lit::Int(n) => out + "Int("@ + signed(n as int) + ")"@,
        Lit::BigInt(n) => out + "BigInt("@ + signed(n as int) + ")"@,
        Lit::Float(bits) => out + "Float("@ + digits(bits as nat) + ")"@,
        Lit::Word(w, n) => out + "Word("@ + w.called() + ", "@ + digits(n as nat) + ")"@,
        Lit::Float32(bits) => out + "Float32("@ + digits(bits as nat) + ")"@,
        Lit::AnyInt(n, v) => out + "AnyInt("@ + signed(n as int) + ", "@ + digits(v as nat) + ")"@,
        Lit::AnyFloat(bits, v) => out + "AnyFloat("@ + digits(bits as nat) + ", "@ + digits(v as nat) + ")"@,
        Lit::Str(s) => out + "Str("@ + quoted(text_at(all, s)) + ")"@,
        Lit::Sym(s) => out + "Sym("@ + quoted(text_at(all, s)) + ")"@,
        Lit::Char(c) => out + "Char("@ + quoted_char(c) + ")"@,
        Lit::Bool(b) => if b {
            out + "Bool(true)"@
        } else {
            out + "Bool(false)"@
        },
        Lit::Unit => out + "Unit"@,
    }
}

/// `out` with an operation added to it.
pub open spec fn with_op(out: Seq<char>, all: Seq<Seq<char>>, op: Extern) -> Seq<char> {
    match op {
        Extern::Lit(l) => with_lit(out + "lit "@, all, l),
        Extern::Prim(p) => out + p.called(),
        Extern::PrimK(p, l) => with_lit(out + p.called() + " .. "@, all, l),
        Extern::Branch => out + "branch"@,
        Extern::BranchPrim(p) => out + "branch "@ + p.called(),
        Extern::BranchPrimK(p, l) => with_lit(out + "branch "@ + p.called() + " .. "@, all, l),
        Extern::Record(labels) => with_symbols(out + "record{"@, all, labels@, labels@.len()) + "}"@,
        Extern::Select(l) => out + "select ."@ + text_at(all, l),
        Extern::Extend(l) => out + "extend ."@ + text_at(all, l),
        Extern::Array => out + "array"@,
        Extern::Native(e, o) => out + "native "@ + text_at(all, e) + "."@ + text_at(all, o),
        Extern::Field(i) => out + "field "@ + digits(i as nat),
    }
}

/// `out` with a statement added to it, indented by `pad`.
pub open spec fn with_stmt(out: Seq<char>, all: Seq<Seq<char>>, s: Statement, pad: Seq<char>) -> Seq<char>
    decreases s, 0nat,
{
    match s {
        Statement::Substitute(sel, block) => with_stmt(
            with_list(with_list(out + pad + "substitute "@, "["@, sel@, "] in "@), "("@, block.params@, ")\n"@),
            all,
            block.body,
            pad + "  "@,
        ),
        Statement::Jump(l) => out + pad + "jump #"@ + digits(l.0 as nat) + "\n"@,
        Statement::Let { name, tag, ctor, fields, rest } => with_stmt(
            with_list(
                out + pad + "let v"@ + digits(name as nat) + " = "@ + text_at(all, ctor) + "#"@ + digits(tag as nat),
                "("@,
                fields@,
                ");\n"@,
            ),
            all,
            *rest,
            pad,
        ),
        Statement::Switch { scrutinee, arms, default } => with_stmt(
            with_list(
                with_arms(
                    out + pad + "switch v"@ + digits(scrutinee as nat) + " {\n"@,
                    all,
                    arms@,
                    arms@.len(),
                    pad,
                ) + pad + "  else "@,
                "("@,
                default.params@,
                ") =>\n"@,
            ),
            all,
            default.body,
            pad + "    "@,
        ) + pad + "}\n"@,
        Statement::New { name, captures, methods, rest } => with_stmt(
            with_blocks(
                with_list(out + pad + "new v"@ + digits(name as nat) + " "@, "["@, captures@, "] {\n"@),
                all,
                methods@,
                methods@.len(),
                pad,
            ) + pad + "};\n"@,
            all,
            *rest,
            pad,
        ),
        Statement::Invoke(n, tag) => out + pad + "invoke v"@ + digits(n as nat) + "#"@ + digits(tag as nat) + "\n"@,
        Statement::Extern { op, args, blocks } => if blocks@.len() == 1 {
            with_stmt(
                with_list(
                    with_list(with_op(out + pad + "extern "@, all, op), "("@, args@, ") -> "@),
                    "("@,
                    blocks@[0].params@,
                    ");\n"@,
                ),
                all,
                blocks@[0].body,
                pad,
            )
        } else {
            with_blocks(
                with_list(with_op(out + pad + "extern "@, all, op), "("@, args@, ") {\n"@),
                all,
                blocks@,
                blocks@.len(),
                pad,
            ) + pad + "}\n"@
        },
        Statement::Error(msg) => out + pad + "error "@ + quoted(msg@) + "\n"@,
        Statement::Mark(_, inner) => with_stmt(out, all, *inner, pad),
    }
}

/// `out` with the first `n` arms of a switch added to it.
pub open spec fn with_arms(
    out: Seq<char>,
    all: Seq<Seq<char>>,
    arms: Seq<(Tag, Block)>,
    n: nat,
    pad: Seq<char>,
) -> Seq<char>
    decreases arms, n,
{
    if n == 0 || n > arms.len() {
        out
    } else {
        with_stmt(
            with_list(
                with_arms(out, all, arms, (n - 1) as nat, pad) + pad + "  #"@ + digits(arms[n - 1].0 as nat) + " "@,
                "("@,
                arms[n - 1].1.params@,
                ") =>\n"@,
            ),
            all,
            arms[n - 1].1.body,
            pad + "    "@,
        )
    }
}

/// `out` with the first `n` of some blocks added to it, each by its place.
pub open spec fn with_blocks(out: Seq<char>, all: Seq<Seq<char>>, bs: Seq<Block>, n: nat, pad: Seq<char>) -> Seq<char>
    decreases bs, n,
{
    if n == 0 || n > bs.len() {
        out
    } else {
        with_stmt(
            with_list(
                with_blocks(out, all, bs, (n - 1) as nat, pad) + pad + "  #"@ + digits((n - 1) as nat) + " "@,
                "("@,
                bs[n - 1].params@,
                ") =>\n"@,
            ),
            all,
            bs[n - 1].body,
            pad + "    "@,
        )
    }
}

/// The first `n` definitions of a program.
pub open spec fn with_defs(
    all: Seq<Seq<char>>,
    defs: Seq<Def>,
    entry: Option<Label>,
    n: nat,
) -> Seq<char>
    decreases n,
{
    if n == 0 || n > defs.len() {
        Seq::empty()
    } else {
        let d = defs[n - 1];
        let head = with_list(
            with_defs(all, defs, entry, (n - 1) as nat) + "def #"@ + digits(d.label.0 as nat) + " "@,
            "("@,
            d.block.params@,
            ")"@,
        );
        let marked = if entry == Some(d.label) {
            head + "  (entry)"@
        } else {
            head
        };
        with_stmt(marked + "\n"@, all, d.block.body, "  "@) + "\n"@
    }
}

fn write_names(out: &mut String, ns: &Vec<Name>)
    ensures
        final(out)@ == with_names(old(out)@, ns@, ns@.len()),
{
    let ghost was = out@;
    let mut i: usize = 0;
    while i < ns.len()
        invariant
            i <= ns@.len(),
            out@ == with_names(was, ns@, i as nat),
        decreases ns@.len() - i,
    {
        if i > 0 {
            out.append(", ");
        }
        out.append("v");
        out.append(decimal(ns[i] as u64).as_str());
        i = i + 1;
    }
}

fn write_list(out: &mut String, open: &str, ns: &Vec<Name>, close: &str)
    ensures
        final(out)@ == with_list(old(out)@, open@, ns@, close@),
{
    out.append(open);
    write_names(out, ns);
    out.append(close);
}

fn write_symbol(out: &mut String, all: &Symbols, s: Sym)
    ensures
        final(out)@ == old(out)@ + text_at(all@, s),
{
    out.append(all.text(s).as_str());
}

fn write_symbols(out: &mut String, all: &Symbols, ls: &Vec<Sym>)
    ensures
        final(out)@ == with_symbols(old(out)@, all@, ls@, ls@.len()),
{
    let ghost was = out@;
    let mut i: usize = 0;
    while i < ls.len()
        invariant
            i <= ls@.len(),
            out@ == with_symbols(was, all@, ls@, i as nat),
        decreases ls@.len() - i,
    {
        if i > 0 {
            out.append(", ");
        }
        write_symbol(out, all, ls[i]);
        i = i + 1;
    }
}

fn write_number(out: &mut String, n: u64)
    ensures
        final(out)@ == old(out)@ + digits(n as nat),
{
    out.append(decimal(n).as_str());
}

fn write_lit(out: &mut String, all: &Symbols, l: &Lit)
    ensures
        final(out)@ == with_lit(old(out)@, all@, *l),
{
    match l {
        Lit::Int(n) => {
            out.append("Int(");
            out.append(signed_decimal(*n).as_str());
            out.append(")");
        },
        Lit::BigInt(n) => {
            out.append("BigInt(");
            out.append(signed_decimal(*n).as_str());
            out.append(")");
        },
        Lit::Float(bits) => {
            out.append("Float(");
            write_number(out, *bits);
            out.append(")");
        },
        Lit::Word(w, n) => {
            out.append("Word(");
            out.append(w.name());
            out.append(", ");
            write_number(out, *n);
            out.append(")");
        },
        Lit::Float32(bits) => {
            out.append("Float32(");
            write_number(out, *bits as u64);
            out.append(")");
        },
        Lit::AnyInt(n, v) => {
            out.append("AnyInt(");
            out.append(signed_decimal(*n).as_str());
            out.append(", ");
            write_number(out, *v as u64);
            out.append(")");
        },
        Lit::AnyFloat(bits, v) => {
            out.append("AnyFloat(");
            write_number(out, *bits);
            out.append(", ");
            write_number(out, *v as u64);
            out.append(")");
        },
        Lit::Str(s) => {
            out.append("Str(");
            out.append(quote(all.text(*s).as_str()).as_str());
            out.append(")");
        },
        Lit::Sym(s) => {
            out.append("Sym(");
            out.append(quote(all.text(*s).as_str()).as_str());
            out.append(")");
        },
        Lit::Char(c) => {
            out.append("Char(");
            out.append(quote_char(*c).as_str());
            out.append(")");
        },
        Lit::Bool(b) => {
            if *b {
                out.append("Bool(true)");
            } else {
                out.append("Bool(false)");
            }
        },
        Lit::Unit => {
            out.append("Unit");
        },
    }
}

fn write_op(out: &mut String, all: &Symbols, op: &Extern)
    ensures
        final(out)@ == with_op(old(out)@, all@, *op),
{
    match op {
        Extern::Lit(l) => {
            out.append("lit ");
            write_lit(out, all, l);
        },
        Extern::Prim(p) => {
            out.append(p.name());
        },
        Extern::PrimK(p, l) => {
            out.append(p.name());
            out.append(" .. ");
            write_lit(out, all, l);
        },
        Extern::Branch => {
            out.append("branch");
        },
        Extern::BranchPrim(p) => {
            out.append("branch ");
            out.append(p.name());
        },
        Extern::BranchPrimK(p, l) => {
            out.append("branch ");
            out.append(p.name());
            out.append(" .. ");
            write_lit(out, all, l);
        },
        Extern::Record(labels) => {
            out.append("record{");
            write_symbols(out, all, labels);
            out.append("}");
        },
        Extern::Select(l) => {
            out.append("select .");
            write_symbol(out, all, *l);
        },
        Extern::Extend(l) => {
            out.append("extend .");
            write_symbol(out, all, *l);
        },
        Extern::Array => {
            out.append("array");
        },
        Extern::Native(e, o) => {
            out.append("native ");
            write_symbol(out, all, *e);
            out.append(".");
            write_symbol(out, all, *o);
        },
        Extern::Field(i) => {
            out.append("field ");
            write_number(out, *i as u64);
        },
    }
}

/// `pad`, and `more` behind it.
fn deeper(pad: &str, more: &str) -> (r: String)
    ensures
        r@ == pad@ + more@,
{
    let mut r: String = pad.to_owned();
    r.append(more);
    r
}

/// Write a statement, indented by `pad`.
pub fn stmt(out: &mut String, all: &Symbols, s: &Statement, pad: &str)
    ensures
        final(out)@ == with_stmt(old(out)@, all@, *s, pad@),
    decreases s,
{
    match s {
        Statement::Mark(_, inner) => {
            stmt(out, all, inner, pad);
        },
        Statement::Substitute(sel, block) => {
            out.append(pad);
            out.append("substitute ");
            write_list(out, "[", sel, "] in ");
            write_list(out, "(", &block.params, ")\n");
            let inner: String = deeper(pad, "  ");
            stmt(out, all, &block.body, inner.as_str());
        },
        Statement::Jump(l) => {
            out.append(pad);
            out.append("jump #");
            write_number(out, l.0 as u64);
            out.append("\n");
        },
        Statement::Let { name, tag, ctor, fields, rest } => {
            out.append(pad);
            out.append("let v");
            write_number(out, *name as u64);
            out.append(" = ");
            write_symbol(out, all, *ctor);
            out.append("#");
            write_number(out, *tag as u64);
            write_list(out, "(", fields, ");\n");
            stmt(out, all, rest, pad);
        },
        Statement::Switch { scrutinee, arms, default } => {
            out.append(pad);
            out.append("switch v");
            write_number(out, *scrutinee as u64);
            out.append(" {\n");
            let inner: String = deeper(pad, "    ");
            let ghost was = out@;
            let mut i: usize = 0;
            while i < arms.len()
                invariant
                    i <= arms@.len(),
                    decreases_to!(s => arms),
                    inner@ == pad@ + "    "@,
                    out@ == with_arms(was, all@, arms@, i as nat, pad@),
                decreases arms@.len() - i,
            {
                out.append(pad);
                out.append("  #");
                write_number(out, arms[i].0 as u64);
                out.append(" ");
                write_list(out, "(", &arms[i].1.params, ") =>\n");
                assert(decreases_to!(arms => arms@[i as int]));
                stmt(out, all, &arms[i].1.body, inner.as_str());
                i = i + 1;
            }
            out.append(pad);
            out.append("  else ");
            write_list(out, "(", &default.params, ") =>\n");
            stmt(out, all, &default.body, inner.as_str());
            out.append(pad);
            out.append("}\n");
        },
        Statement::New { name, captures, methods, rest } => {
            out.append(pad);
            out.append("new v");
            write_number(out, *name as u64);
            out.append(" ");
            write_list(out, "[", captures, "] {\n");
            let inner: String = deeper(pad, "    ");
            let ghost was = out@;
            let mut i: usize = 0;
            while i < methods.len()
                invariant
                    i <= methods@.len(),
                    decreases_to!(s => methods),
                    inner@ == pad@ + "    "@,
                    out@ == with_blocks(was, all@, methods@, i as nat, pad@),
                decreases methods@.len() - i,
            {
                out.append(pad);
                out.append("  #");
                write_number(out, i as u64);
                out.append(" ");
                write_list(out, "(", &methods[i].params, ") =>\n");
                assert(decreases_to!(methods => methods@[i as int]));
                stmt(out, all, &methods[i].body, inner.as_str());
                i = i + 1;
            }
            out.append(pad);
            out.append("};\n");
            stmt(out, all, rest, pad);
        },
        Statement::Invoke(n, tag) => {
            out.append(pad);
            out.append("invoke v");
            write_number(out, *n as u64);
            out.append("#");
            write_number(out, *tag as u64);
            out.append("\n");
        },
        Statement::Extern { op, args, blocks } => {
            out.append(pad);
            out.append("extern ");
            write_op(out, all, op);
            if blocks.len() == 1 {
                write_list(out, "(", args, ") -> ");
                write_list(out, "(", &blocks[0].params, ");\n");
                assert(decreases_to!(blocks => blocks@[0]));
                stmt(out, all, &blocks[0].body, pad);
            } else {
                write_list(out, "(", args, ") {\n");
                let inner: String = deeper(pad, "    ");
                let ghost was = out@;
                let mut i: usize = 0;
                while i < blocks.len()
                    invariant
                        i <= blocks@.len(),
                        decreases_to!(s => blocks),
                        inner@ == pad@ + "    "@,
                        out@ == with_blocks(was, all@, blocks@, i as nat, pad@),
                    decreases blocks@.len() - i,
                {
                    out.append(pad);
                    out.append("  #");
                    write_number(out, i as u64);
                    out.append(" ");
                    write_list(out, "(", &blocks[i].params, ") =>\n");
                    assert(decreases_to!(blocks => blocks@[i as int]));
                    stmt(out, all, &blocks[i].body, inner.as_str());
                    i = i + 1;
                }
                out.append(pad);
                out.append("}\n");
            }
        },
        Statement::Error(msg) => {
            out.append(pad);
            out.append("error ");
            out.append(quote(msg).as_str());
            out.append("\n");
        },
    }
}

impl Program {
    /// The whole program, as text.
    pub fn pretty(&self) -> (r: String)
        ensures
            r@ == with_defs(self.symbols@, self.defs@, self.entry, self.defs@.len()),
    {
        let mut out: String = String::new();
        let mut i: usize = 0;
        while i < self.defs.len()
            invariant
                i <= self.defs@.len(),
                out@ == with_defs(self.symbols@, self.defs@, self.entry, i as nat),
            decreases self.defs@.len() - i,
        {
            let d: &Def = &self.defs[i];
            out.append("def #");
            write_number(&mut out, d.label.0 as u64);
            out.append(" ");
            write_list(&mut out, "(", &d.block.params, ")");
            let marked: bool = match self.entry {
                Some(l) => l.0 == d.label.0,
                None => false,
            };
            if marked {
                out.append("  (entry)");
            }
            out.append("\n");
            stmt(&mut out, &self.symbols, &d.block.body, "  ");
            out.append("\n");
            i = i + 1;
        }
        out
    }
}

impl Block {
    /// The block alone, as text: its parameters, and its body indented under them.
    pub fn to_string(&self, all: &Symbols) -> (r: String)
        ensures
            r@ == with_stmt(with_list(Seq::empty(), "("@, self.params@, ") =>\n"@), all@, self.body, "  "@),
    {
        let mut out: String = String::new();
        write_list(&mut out, "(", &self.params, ") =>\n");
        stmt(&mut out, all, &self.body, "  ");
        out
    }
}

} // verus!
