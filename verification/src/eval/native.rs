//! What a program asks of the system.

use super::prim::{fail, RuntimeError};
use super::show::{say, show};
use super::shown::{pieces, said, shown, PieceV};
use super::term::{JUST, NONE};
use super::value::{val, vals, value_facts, Value, ValueV};
use crate::terms::symbol::Symbols;
use crate::terms::ty::share;
use crate::text::same;
use std::rc::Rc;
use vstd::prelude::*;

verus! {

broadcast use value_facts;

/// What is done to one path.
#[derive(Debug, Clone, Copy, PartialEq, Eq, Structural)]
pub enum PathOp {
    ReadToString,
    ReadBytes,
    RemoveFile,
    CreateDir,
    CreateDirAll,
    RemoveDir,
    RemoveDirAll,
    ReadDir,
    Metadata,
    Exists,
    IsFile,
    IsDir,
}

/// What is done with two strings.
#[derive(Debug, Clone, Copy, PartialEq, Eq, Structural)]
pub enum PairOp {
    WriteString,
    AppendString,
    Rename,
    Copy,
}

/// A command to run: a program, its arguments, where, and with what environment.
pub struct Command {
    pub program: Rc<String>,
    pub args: Vec<Rc<String>>,
    pub cwd: Option<Rc<String>>,
    pub vars: Vec<(Rc<String>, Rc<String>)>,
}

/// A call of the system.
pub enum Call {
    Path(PathOp, Rc<String>),
    Pair(PairOp, Rc<String>, Rc<String>),
    /// Run it, and keep what it prints.
    Spawn(Command),
    /// Run it, and keep how it ended.
    Status(Command),
    Exit(i64),
    CurrentPid,
    Argv,
    GetEnv(Rc<String>),
    SetEnv(Rc<String>, Rc<String>),
    RemoveEnv(Rc<String>),
}

pub struct CommandV {
    pub program: Seq<char>,
    pub args: Seq<Seq<char>>,
    pub cwd: Option<Seq<char>>,
    pub vars: Seq<(Seq<char>, Seq<char>)>,
}

/// [`Call`], as what it is.
pub enum CallV {
    Path(PathOp, Seq<char>),
    Pair(PairOp, Seq<char>, Seq<char>),
    Spawn(CommandV),
    Status(CommandV),
    Exit(i64),
    CurrentPid,
    Argv,
    GetEnv(Seq<char>),
    SetEnv(Seq<char>, Seq<char>),
    RemoveEnv(Seq<char>),
}

pub open spec fn strings(v: Seq<Rc<String>>) -> Seq<Seq<char>> {
    v.map_values(|s: Rc<String>| s@)
}

pub open spec fn pairs(v: Seq<(Rc<String>, Rc<String>)>) -> Seq<(Seq<char>, Seq<char>)> {
    v.map_values(|p: (Rc<String>, Rc<String>)| (p.0@, p.1@))
}

pub open spec fn command_view(c: Command) -> CommandV {
    CommandV {
        program: c.program@,
        args: strings(c.args@),
        cwd: match c.cwd {
            Some(s) => Some(s@),
            None => None,
        },
        vars: pairs(c.vars@),
    }
}

pub open spec fn call_view(c: Call) -> CallV {
    match c {
        Call::Path(op, p) => CallV::Path(op, p@),
        Call::Pair(op, a, b) => CallV::Pair(op, a@, b@),
        Call::Spawn(c) => CallV::Spawn(command_view(c)),
        Call::Status(c) => CallV::Status(command_view(c)),
        Call::Exit(n) => CallV::Exit(n),
        Call::CurrentPid => CallV::CurrentPid,
        Call::Argv => CallV::Argv,
        Call::GetEnv(s) => CallV::GetEnv(s@),
        Call::SetEnv(k, v) => CallV::SetEnv(k@, v@),
        Call::RemoveEnv(s) => CallV::RemoveEnv(s@),
    }
}

pub type Fault = Seq<PieceV>;

/// `r` is what was wanted.
pub open spec fn is_call(r: Result<Call, RuntimeError>, want: Result<CallV, Fault>) -> bool {
    match (r, want) {
        (Ok(c), Ok(w)) => call_view(c) == w,
        (Err(e), Err(w)) => pieces(e.msg@) == w,
        _ => false,
    }
}

/// An operation was given something else.
pub open spec fn mistaken(effect: Seq<char>, op: Seq<char>, what: Seq<char>, v: ValueV, names: Seq<Seq<char>>) -> Fault {
    said(effect) + said(op) + said(what) + shown(v, names)
}

fn mistake(effect: &str, op: &str, what: &str, v: &Value, names: &Symbols) -> (e: RuntimeError)
    ensures
        pieces(e.msg@) == mistaken(effect@, op@, what@, val(*v), names@),
{
    let mut e: RuntimeError = fail(effect);
    say(&mut e.msg, op);
    say(&mut e.msg, what);
    show(&mut e.msg, v, names);
    e
}

/// The string an argument is.
pub open spec fn text_in(effect: Seq<char>, op: Seq<char>, v: ValueV, names: Seq<Seq<char>>) -> Result<Seq<char>, Fault> {
    match v {
        ValueV::Str(s) => Ok(s),
        _ => Err(mistaken(effect, op, ": expected a String, got "@, v, names)),
    }
}

fn text_of(effect: &str, op: &str, v: &Value, names: &Symbols) -> (r: Result<Rc<String>, RuntimeError>)
    ensures
        match (r, text_in(effect@, op@, val(*v), names@)) {
            (Ok(s), Ok(w)) => s@ == w,
            (Err(e), Err(w)) => pieces(e.msg@) == w,
            _ => false,
        },
{
    match v {
        Value::Str(s) => Ok(share(s)),
        _ => Err(mistake(effect, op, ": expected a String, got ", v, names)),
    }
}

/// The two strings of a pair.
pub open spec fn texts_in(effect: Seq<char>, op: Seq<char>, v: ValueV, names: Seq<Seq<char>>) -> Result<
    (Seq<char>, Seq<char>),
    Fault,
> {
    match v {
        ValueV::Tuple(xs) => if xs.len() == 2 {
            match (text_in(effect, op, xs[0], names), text_in(effect, op, xs[1], names)) {
                (Err(e), _) => Err(e),
                (_, Err(e)) => Err(e),
                (Ok(a), Ok(b)) => Ok((a, b)),
            }
        } else {
            Err(mistaken(effect, op, ": expected a (String, String) pair, got "@, v, names))
        },
        _ => Err(mistaken(effect, op, ": expected a (String, String) pair, got "@, v, names)),
    }
}

fn texts_of(effect: &str, op: &str, v: &Value, names: &Symbols) -> (r: Result<(Rc<String>, Rc<String>), RuntimeError>)
    ensures
        match (r, texts_in(effect@, op@, val(*v), names@)) {
            (Ok(s), Ok(w)) => s.0@ == w.0 && s.1@ == w.1,
            (Err(e), Err(w)) => pieces(e.msg@) == w,
            _ => false,
        },
{
    match v {
        Value::Tuple(xs) if xs.len() == 2 => {
            proof {
                assert(vals(xs@)[0] == val(xs@[0]));
                assert(vals(xs@)[1] == val(xs@[1]));
            }
            let a: Rc<String> = match text_of(effect, op, &xs[0], names) {
                Ok(s) => s,
                Err(e) => return Err(e),
            };
            match text_of(effect, op, &xs[1], names) {
                Ok(b) => Ok((a, b)),
                Err(e) => Err(e),
            }
        },
        _ => Err(mistake(effect, op, ": expected a (String, String) pair, got ", v, names)),
    }
}

/// The operation of one path that a name is.
pub open spec fn path_op(op: Seq<char>) -> Option<PathOp> {
    if op == "readToString"@ {
        Some(PathOp::ReadToString)
    } else if op == "readBytes"@ {
        Some(PathOp::ReadBytes)
    } else if op == "removeFile"@ {
        Some(PathOp::RemoveFile)
    } else if op == "createDir"@ {
        Some(PathOp::CreateDir)
    } else if op == "createDirAll"@ {
        Some(PathOp::CreateDirAll)
    } else if op == "removeDir"@ {
        Some(PathOp::RemoveDir)
    } else if op == "removeDirAll"@ {
        Some(PathOp::RemoveDirAll)
    } else if op == "readDir"@ {
        Some(PathOp::ReadDir)
    } else if op == "metadata"@ {
        Some(PathOp::Metadata)
    } else if op == "exists"@ {
        Some(PathOp::Exists)
    } else if op == "isFile"@ {
        Some(PathOp::IsFile)
    } else if op == "isDir"@ {
        Some(PathOp::IsDir)
    } else {
        None
    }
}

fn as_path_op(op: &str) -> (r: Option<PathOp>)
    ensures
        r == path_op(op@),
{
    if same(op, "readToString") {
        Some(PathOp::ReadToString)
    } else if same(op, "readBytes") {
        Some(PathOp::ReadBytes)
    } else if same(op, "removeFile") {
        Some(PathOp::RemoveFile)
    } else if same(op, "createDir") {
        Some(PathOp::CreateDir)
    } else if same(op, "createDirAll") {
        Some(PathOp::CreateDirAll)
    } else if same(op, "removeDir") {
        Some(PathOp::RemoveDir)
    } else if same(op, "removeDirAll") {
        Some(PathOp::RemoveDirAll)
    } else if same(op, "readDir") {
        Some(PathOp::ReadDir)
    } else if same(op, "metadata") {
        Some(PathOp::Metadata)
    } else if same(op, "exists") {
        Some(PathOp::Exists)
    } else if same(op, "isFile") {
        Some(PathOp::IsFile)
    } else if same(op, "isDir") {
        Some(PathOp::IsDir)
    } else {
        None
    }
}

/// The operation of two strings that a name is.
pub open spec fn pair_op(op: Seq<char>) -> Option<PairOp> {
    if op == "writeString"@ {
        Some(PairOp::WriteString)
    } else if op == "appendString"@ {
        Some(PairOp::AppendString)
    } else if op == "rename"@ {
        Some(PairOp::Rename)
    } else if op == "copy"@ {
        Some(PairOp::Copy)
    } else {
        None
    }
}

fn as_pair_op(op: &str) -> (r: Option<PairOp>)
    ensures
        r == pair_op(op@),
{
    if same(op, "writeString") {
        Some(PairOp::WriteString)
    } else if same(op, "appendString") {
        Some(PairOp::AppendString)
    } else if same(op, "rename") {
        Some(PairOp::Rename)
    } else if same(op, "copy") {
        Some(PairOp::Copy)
    } else {
        None
    }
}

/// What an operation on files asks of the system.
pub open spec fn fs_call(op: Seq<char>, arg: ValueV, names: Seq<Seq<char>>) -> Result<CallV, Fault> {
    match path_op(op) {
        Some(f) => match text_in("Fs."@, op, arg, names) {
            Ok(p) => Ok(CallV::Path(f, p)),
            Err(e) => Err(e),
        },
        None => match pair_op(op) {
            Some(f) => match texts_in("Fs."@, op, arg, names) {
                Ok((a, b)) => Ok(CallV::Pair(f, a, b)),
                Err(e) => Err(e),
            },
            None => Err(said("unhandled effect Fs."@) + said(op)),
        },
    }
}

pub fn native_fs(op: &str, arg: &Value, names: &Symbols) -> (r: Result<Call, RuntimeError>)
    ensures
        is_call(r, fs_call(op@, val(*arg), names@)),
{
    if let Some(f) = as_path_op(op) {
        return match text_of("Fs.", op, arg, names) {
            Ok(p) => Ok(Call::Path(f, p)),
            Err(e) => Err(e),
        };
    }
    if let Some(f) = as_pair_op(op) {
        return match texts_of("Fs.", op, arg, names) {
            Ok((a, b)) => Ok(Call::Pair(f, a, b)),
            Err(e) => Err(e),
        };
    }
    let mut e: RuntimeError = fail("unhandled effect Fs.");
    say(&mut e.msg, op);
    Err(e)
}

/// The first `n` of some strings.
pub open spec fn all_texts(op: Seq<char>, xs: Seq<ValueV>, names: Seq<Seq<char>>, n: nat) -> Result<Seq<Seq<char>>, Fault>
    decreases n,
{
    if n == 0 || n > xs.len() {
        Ok(Seq::empty())
    } else {
        match all_texts(op, xs, names, (n - 1) as nat) {
            Err(e) => Err(e),
            Ok(ss) => match text_in("Process."@, op, xs[n - 1], names) {
                Err(e) => Err(e),
                Ok(s) => Ok(ss.push(s)),
            },
        }
    }
}

/// The first `n` of some pairs of strings.
pub open spec fn all_pairs(op: Seq<char>, xs: Seq<ValueV>, names: Seq<Seq<char>>, n: nat) -> Result<
    Seq<(Seq<char>, Seq<char>)>,
    Fault,
>
    decreases n,
{
    if n == 0 || n > xs.len() {
        Ok(Seq::empty())
    } else {
        match all_pairs(op, xs, names, (n - 1) as nat) {
            Err(e) => Err(e),
            Ok(ss) => match texts_in("Process."@, op, xs[n - 1], names) {
                Err(e) => Err(e),
                Ok(s) => Ok(ss.push(s)),
            },
        }
    }
}

pub open spec fn list_in(op: Seq<char>, v: ValueV, names: Seq<Seq<char>>) -> Result<Seq<ValueV>, Fault> {
    match v {
        ValueV::List(xs) => Ok(xs),
        _ => Err(mistaken("Process."@, op, ": expected a List, got "@, v, names)),
    }
}

/// Where a command is run, if that is said.
pub open spec fn cwd_in(op: Seq<char>, v: ValueV, names: Seq<Seq<char>>) -> Result<Option<Seq<char>>, Fault> {
    match v {
        ValueV::Ctor(c, args) => if c == NONE && args.len() == 0 {
            Ok(None)
        } else if c == JUST && args.len() == 1 {
            match text_in("Process."@, op, args[0], names) {
                Ok(s) => Ok(Some(s)),
                Err(e) => Err(e),
            }
        } else {
            Err(mistaken("Process."@, op, ": expected a Maybe String, got "@, v, names))
        },
        _ => Err(mistaken("Process."@, op, ": expected a Maybe String, got "@, v, names)),
    }
}

/// A command: its program, its arguments, where it is run and with what environment, in that
/// order.
pub open spec fn command_in(op: Seq<char>, v: ValueV, names: Seq<Seq<char>>) -> Result<CommandV, Fault> {
    match v {
        ValueV::Tuple(t) => if t.len() == 4 {
            match text_in("Process."@, op, t[0], names) {
                Err(e) => Err(e),
                Ok(program) => match list_in(op, t[1], names) {
                    Err(e) => Err(e),
                    Ok(xs) => match all_texts(op, xs, names, xs.len()) {
                        Err(e) => Err(e),
                        Ok(args) => match cwd_in(op, t[2], names) {
                            Err(e) => Err(e),
                            Ok(cwd) => match list_in(op, t[3], names) {
                                Err(e) => Err(e),
                                Ok(ys) => match all_pairs(op, ys, names, ys.len()) {
                                    Err(e) => Err(e),
                                    Ok(vars) => Ok(CommandV { program, args, cwd, vars }),
                                },
                            },
                        },
                    },
                },
            }
        } else {
            Err(mistaken("Process."@, op, ": expected a Command, got "@, v, names))
        },
        _ => Err(mistaken("Process."@, op, ": expected a Command, got "@, v, names)),
    }
}

fn list_of<'a>(op: &str, v: &'a Value, names: &Symbols) -> (r: Result<&'a Rc<Vec<Value>>, RuntimeError>)
    ensures
        match (r, list_in(op@, val(*v), names@)) {
            (Ok(xs), Ok(w)) => vals(xs@) == w,
            (Err(e), Err(w)) => pieces(e.msg@) == w,
            _ => false,
        },
{
    match v {
        Value::List(xs) => Ok(xs),
        _ => Err(mistake("Process.", op, ": expected a List, got ", v, names)),
    }
}

fn args_of(op: &str, xs: &Vec<Value>, names: &Symbols) -> (r: Result<Vec<Rc<String>>, RuntimeError>)
    ensures
        match (r, all_texts(op@, vals(xs@), names@, xs@.len())) {
            (Ok(ss), Ok(w)) => strings(ss@) == w,
            (Err(e), Err(w)) => pieces(e.msg@) == w,
            _ => false,
        },
{
    let mut out: Vec<Rc<String>> = Vec::new();
    let mut failed: Option<RuntimeError> = None;
    let mut i: usize = 0;
    proof {
        assert(strings(out@) =~= Seq::<Seq<char>>::empty());
    }
    while i < xs.len()
        invariant
            i <= xs@.len(),
            match all_texts(op@, vals(xs@), names@, i as nat) {
                Ok(w) => failed is None && strings(out@) == w,
                Err(w) => failed is Some && pieces(failed->0.msg@) == w,
            },
        decreases xs@.len() - i,
    {
        proof {
            assert(vals(xs@)[i as int] == val(xs@[i as int]));
        }
        if failed.is_none() {
            match text_of("Process.", op, &xs[i], names) {
                Ok(s) => {
                    let ghost was = out@;
                    out.push(s);
                    proof {
                        assert(strings(out@) =~= strings(was).push(s@));
                    }
                },
                Err(e) => {
                    failed = Some(e);
                },
            }
        }
        i = i + 1;
    }
    match failed {
        None => Ok(out),
        Some(e) => Err(e),
    }
}

fn vars_of(op: &str, xs: &Vec<Value>, names: &Symbols) -> (r: Result<Vec<(Rc<String>, Rc<String>)>, RuntimeError>)
    ensures
        match (r, all_pairs(op@, vals(xs@), names@, xs@.len())) {
            (Ok(ss), Ok(w)) => pairs(ss@) == w,
            (Err(e), Err(w)) => pieces(e.msg@) == w,
            _ => false,
        },
{
    let mut out: Vec<(Rc<String>, Rc<String>)> = Vec::new();
    let mut failed: Option<RuntimeError> = None;
    let mut i: usize = 0;
    proof {
        assert(pairs(out@) =~= Seq::<(Seq<char>, Seq<char>)>::empty());
    }
    while i < xs.len()
        invariant
            i <= xs@.len(),
            match all_pairs(op@, vals(xs@), names@, i as nat) {
                Ok(w) => failed is None && pairs(out@) == w,
                Err(w) => failed is Some && pieces(failed->0.msg@) == w,
            },
        decreases xs@.len() - i,
    {
        proof {
            assert(vals(xs@)[i as int] == val(xs@[i as int]));
        }
        if failed.is_none() {
            match texts_of("Process.", op, &xs[i], names) {
                Ok(s) => {
                    let ghost was = out@;
                    out.push(s);
                    proof {
                        assert(pairs(out@) =~= pairs(was).push((s.0@, s.1@)));
                    }
                },
                Err(e) => {
                    failed = Some(e);
                },
            }
        }
        i = i + 1;
    }
    match failed {
        None => Ok(out),
        Some(e) => Err(e),
    }
}

fn cwd_of(op: &str, v: &Value, names: &Symbols) -> (r: Result<Option<Rc<String>>, RuntimeError>)
    ensures
        match (r, cwd_in(op@, val(*v), names@)) {
            (Ok(s), Ok(w)) => (match s {
                Some(s) => Some(s@),
                None => None,
            }) == w,
            (Err(e), Err(w)) => pieces(e.msg@) == w,
            _ => false,
        },
{
    if let Value::Ctor(c, args) = v {
        if *c == NONE && args.len() == 0 {
            return Ok(None);
        }
        if *c == JUST && args.len() == 1 {
            proof {
                assert(vals(args@)[0] == val(args@[0]));
            }
            return match text_of("Process.", op, &args[0], names) {
                Ok(s) => Ok(Some(s)),
                Err(e) => Err(e),
            };
        }
    }
    Err(mistake("Process.", op, ": expected a Maybe String, got ", v, names))
}

fn command_of(op: &str, v: &Value, names: &Symbols) -> (r: Result<Command, RuntimeError>)
    ensures
        match (r, command_in(op@, val(*v), names@)) {
            (Ok(c), Ok(w)) => command_view(c) == w,
            (Err(e), Err(w)) => pieces(e.msg@) == w,
            _ => false,
        },
{
    match v {
        Value::Tuple(t) if t.len() == 4 => {
            proof {
                assert forall|k: int| 0 <= k < t@.len() implies #[trigger] vals(t@)[k] == val(t@[k]) by {}
            }
            let program: Rc<String> = match text_of("Process.", op, &t[0], names) {
                Ok(s) => s,
                Err(e) => return Err(e),
            };
            let xs: &Rc<Vec<Value>> = match list_of(op, &t[1], names) {
                Ok(xs) => xs,
                Err(e) => return Err(e),
            };
            let args: Vec<Rc<String>> = match args_of(op, xs, names) {
                Ok(a) => a,
                Err(e) => return Err(e),
            };
            let cwd: Option<Rc<String>> = match cwd_of(op, &t[2], names) {
                Ok(c) => c,
                Err(e) => return Err(e),
            };
            let ys: &Rc<Vec<Value>> = match list_of(op, &t[3], names) {
                Ok(ys) => ys,
                Err(e) => return Err(e),
            };
            match vars_of(op, ys, names) {
                Ok(vars) => Ok(Command { program, args, cwd, vars }),
                Err(e) => Err(e),
            }
        },
        _ => Err(mistake("Process.", op, ": expected a Command, got ", v, names)),
    }
}

/// What an operation on processes asks of the system.
pub open spec fn process_call(op: Seq<char>, arg: ValueV, names: Seq<Seq<char>>) -> Result<CallV, Fault> {
    if op == "spawn"@ || op == "status"@ {
        match command_in(op, arg, names) {
            Ok(c) => Ok(
                if op == "spawn"@ {
                    CallV::Spawn(c)
                } else {
                    CallV::Status(c)
                },
            ),
            Err(e) => Err(e),
        }
    } else if op == "exit"@ {
        match arg {
            ValueV::Int(n) => Ok(CallV::Exit(n)),
            _ => Err(said("expected an Int, got "@) + shown(arg, names)),
        }
    } else if op == "currentPid"@ {
        Ok(CallV::CurrentPid)
    } else if op == "argv"@ {
        Ok(CallV::Argv)
    } else if op == "getEnv"@ || op == "removeEnv"@ {
        match text_in("Process."@, op, arg, names) {
            Ok(s) => Ok(
                if op == "getEnv"@ {
                    CallV::GetEnv(s)
                } else {
                    CallV::RemoveEnv(s)
                },
            ),
            Err(e) => Err(e),
        }
    } else if op == "setEnv"@ {
        match texts_in("Process."@, op, arg, names) {
            Ok((k, v)) => Ok(CallV::SetEnv(k, v)),
            Err(e) => Err(e),
        }
    } else {
        Err(said("unhandled effect Process."@) + said(op))
    }
}

pub fn native_process(op: &str, arg: &Value, names: &Symbols) -> (r: Result<Call, RuntimeError>)
    ensures
        is_call(r, process_call(op@, val(*arg), names@)),
{
    let spawn: bool = same(op, "spawn");
    if spawn || same(op, "status") {
        return match command_of(op, arg, names) {
            Ok(c) => Ok(
                if spawn {
                    Call::Spawn(c)
                } else {
                    Call::Status(c)
                },
            ),
            Err(e) => Err(e),
        };
    }
    if same(op, "exit") {
        return match arg {
            Value::Int(n) => Ok(Call::Exit(*n)),
            _ => Err(super::prim::fail_with("expected an Int, got ", arg, names)),
        };
    }
    if same(op, "currentPid") {
        return Ok(Call::CurrentPid);
    }
    if same(op, "argv") {
        return Ok(Call::Argv);
    }
    let get: bool = same(op, "getEnv");
    if get || same(op, "removeEnv") {
        return match text_of("Process.", op, arg, names) {
            Ok(s) => Ok(
                if get {
                    Call::GetEnv(s)
                } else {
                    Call::RemoveEnv(s)
                },
            ),
            Err(e) => Err(e),
        };
    }
    if same(op, "setEnv") {
        return match texts_of("Process.", op, arg, names) {
            Ok((k, v)) => Ok(Call::SetEnv(k, v)),
            Err(e) => Err(e),
        };
    }
    let mut e: RuntimeError = fail("unhandled effect Process.");
    say(&mut e.msg, op);
    Err(e)
}

} // verus!
