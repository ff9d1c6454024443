//! Reading an unhandled operation and its argument into what to do about it, and
//! what comes of that into what to build.

use super::native::Build;
use crate::eval::prim::{lossy, read_lossy};
use crate::text::{decimal, digits, same};
use vstd::prelude::*;

verus! {

/// A value as a native reads one: what it is, with nothing of where it is, and
/// how it is shown in a message.
pub struct Arg {
    pub shown: String,
    pub val: Val,
}

pub enum Val {
    Int(i64),
    Str(String),
    Bytes(Vec<u8>),
    /// A constructor's name and its fields.
    Data(String, Vec<Arg>),
    /// A `Vector`'s elements.
    Vector(Vec<Arg>),
    Other,
}

/// A program to run.
pub struct Command {
    pub program: String,
    pub args: Vec<String>,
    pub dir: Option<String>,
    pub vars: Vec<(String, String)>,
}

/// What a program asks of the real world.
pub enum Request {
    ReadToString(String),
    ReadBytes(String),
    WriteString(String, String),
    WriteBytes(String, Vec<u8>),
    AppendString(String, String),
    RemoveFile(String),
    CreateDir(String),
    CreateDirAll(String),
    RemoveDir(String),
    RemoveDirAll(String),
    Rename(String, String),
    Copy(String, String),
    ReadDir(String),
    Metadata(String),
    Exists(String),
    IsFile(String),
    IsDir(String),
    Spawn(Command),
    Status(Command),
    Exit(i64),
    CurrentPid,
    IsTerminal(i64),
    Argv,
    GetEnv(String),
    SetEnv(String, String),
    RemoveEnv(String),
    NextInt,
    NextFloat,
    IntBetween(i64, i64),
    Now,
    Monotonic,
    /// For so many milliseconds.
    Sleep(u64),
    WriteOutput(String),
    ReadLine,
    ReadExact(i64),
    /// Nothing to do.
    Done,
}

/// What a native cannot make of a value.
pub open spec fn wrong(what: Seq<char>, wanted: Seq<char>, v: Arg) -> Seq<char> {
    what + ": expected "@ + wanted + ", got "@ + v.shown@
}

fn mistaken(what: &str, wanted: &str, v: &Arg) -> (e: String)
    ensures
        e@ == wrong(what@, wanted@, *v),
{
    let mut e: String = what.to_owned();
    e.append(": expected ");
    e.append(wanted);
    e.append(", got ");
    e.append(v.shown.as_str());
    e
}

/// The text `v` is.
pub open spec fn text_of(what: Seq<char>, v: Arg) -> Result<String, Seq<char>> {
    match v.val {
        Val::Str(s) => Ok(s),
        _ => Err(wrong(what, "a String"@, v)),
    }
}

pub open spec fn agrees<A>(r: Result<A, String>, want: Result<A, Seq<char>>) -> bool {
    match (r, want) {
        (Ok(a), Ok(b)) => a == b,
        (Err(e), Err(m)) => e@ == m,
        _ => false,
    }
}

fn str_arg(what: &str, v: &Arg) -> (r: Result<String, String>)
    ensures
        agrees(r, text_of(what@, *v)),
{
    match &v.val {
        Val::Str(s) => Ok(s.clone()),
        _ => Err(mistaken(what, "a String", v)),
    }
}

/// `v` is a tuple of `n`.
pub open spec fn is_tuple(v: Arg, n: nat) -> bool {
    v.val matches Val::Data(name, xs) && name@ == "#tuple"@ && xs@.len() == n
}

/// The fields of a tuple.
pub open spec fn fields_of(v: Arg) -> Seq<Arg> {
    v.val->Data_1@
}

/// What is said of a value that is not a tuple of `n`.
pub open spec fn not_tuple(what: Seq<char>, v: Arg, n: nat) -> Seq<char> {
    wrong(what, "a tuple of "@ + digits(n), v)
}

/// The fields of a tuple of exactly `n`.
fn tuple_arg<'a>(what: &str, v: &'a Arg, n: usize) -> (r: Result<&'a Vec<Arg>, String>)
    ensures
        match r {
            Ok(xs) => is_tuple(*v, n as nat) && xs@ == fields_of(*v),
            Err(e) => !is_tuple(*v, n as nat) && e@ == not_tuple(what@, *v, n as nat),
        },
{
    match &v.val {
        Val::Data(name, xs) => {
            if same(name.as_str(), "#tuple") && xs.len() == n {
                return Ok(xs);
            }
        },
        _ => {},
    }
    let mut wanted: String = "a tuple of ".to_owned();
    wanted.append(decimal(n as u64).as_str());
    Err(mistaken(what, wanted.as_str(), v))
}

/// The two texts of a pair.
pub open spec fn pair_of(what: Seq<char>, v: Arg) -> Result<(String, String), Seq<char>> {
    if !is_tuple(v, 2) {
        Err(not_tuple(what, v, 2))
    } else {
        match (text_of(what, fields_of(v)[0]), text_of(what, fields_of(v)[1])) {
            (Ok(a), Ok(b)) => Ok((a, b)),
            (Err(e), _) => Err(e),
            (_, Err(e)) => Err(e),
        }
    }
}

fn two(what: &str, v: &Arg) -> (r: Result<(String, String), String>)
    ensures
        agrees(r, pair_of(what@, *v)),
{
    let t: &Vec<Arg> = match tuple_arg(what, v, 2) {
        Ok(t) => t,
        Err(e) => {
            return Err(e);
        },
    };
    let a: String = match str_arg(what, &t[0]) {
        Ok(a) => a,
        Err(e) => {
            return Err(e);
        },
    };
    match str_arg(what, &t[1]) {
        Ok(b) => Ok((a, b)),
        Err(e) => Err(e),
    }
}

/// A request made of the one text an operation takes.
pub open spec fn of_text(
    what: Seq<char>,
    v: Arg,
    make: spec_fn(String) -> Request,
) -> Result<Option<Request>, Seq<char>> {
    match text_of(what, v) {
        Ok(s) => Ok(Some(make(s))),
        Err(e) => Err(e),
    }
}

/// A request made of the two texts an operation takes.
pub open spec fn of_pair(
    what: Seq<char>,
    v: Arg,
    make: spec_fn(String, String) -> Request,
) -> Result<Option<Request>, Seq<char>> {
    match pair_of(what, v) {
        Ok(p) => Ok(Some(make(p.0, p.1))),
        Err(e) => Err(e),
    }
}

/// What an `Fs` operation asks for, but for `writeBytes`. Nothing, for one there
/// is not.
pub open spec fn fs_asks(op: Seq<char>, v: Arg) -> Result<Option<Request>, Seq<char>> {
    let what = "Fs."@ + op;
    if op == "readToString"@ {
        of_text(what, v, |s: String| Request::ReadToString(s))
    } else if op == "readBytes"@ {
        of_text(what, v, |s: String| Request::ReadBytes(s))
    } else if op == "writeString"@ {
        of_pair(what, v, |a: String, b: String| Request::WriteString(a, b))
    } else if op == "appendString"@ {
        of_pair(what, v, |a: String, b: String| Request::AppendString(a, b))
    } else if op == "removeFile"@ {
        of_text(what, v, |s: String| Request::RemoveFile(s))
    } else if op == "createDir"@ {
        of_text(what, v, |s: String| Request::CreateDir(s))
    } else if op == "createDirAll"@ {
        of_text(what, v, |s: String| Request::CreateDirAll(s))
    } else if op == "removeDir"@ {
        of_text(what, v, |s: String| Request::RemoveDir(s))
    } else if op == "removeDirAll"@ {
        of_text(what, v, |s: String| Request::RemoveDirAll(s))
    } else if op == "rename"@ {
        of_pair(what, v, |a: String, b: String| Request::Rename(a, b))
    } else if op == "copy"@ {
        of_pair(what, v, |a: String, b: String| Request::Copy(a, b))
    } else if op == "readDir"@ {
        of_text(what, v, |s: String| Request::ReadDir(s))
    } else if op == "metadata"@ {
        of_text(what, v, |s: String| Request::Metadata(s))
    } else if op == "exists"@ {
        of_text(what, v, |s: String| Request::Exists(s))
    } else if op == "isFile"@ {
        of_text(what, v, |s: String| Request::IsFile(s))
    } else if op == "isDir"@ {
        of_text(what, v, |s: String| Request::IsDir(s))
    } else {
        Ok(None)
    }
}

/// What `writeBytes` asks for.
pub open spec fn writes_bytes(v: Arg, r: Result<Option<Request>, String>) -> bool {
    let what = "Fs.writeBytes"@;
    if !is_tuple(v, 2) {
        r matches Err(e) && e@ == not_tuple(what, v, 2)
    } else {
        let t = fields_of(v);
        match text_of(what, t[0]) {
            Err(m) => r matches Err(e) && e@ == m,
            Ok(path) => match t[1].val {
                Val::Bytes(b) => r matches Ok(Some(Request::WriteBytes(p, c))) && p == path && c@ == b@,
                _ => r matches Err(e) && e@ == wrong(what, "an Array of UInt8"@, t[1]),
            },
        }
    }
}

fn copy_bytes(b: &Vec<u8>) -> (r: Vec<u8>)
    ensures
        r@ == b@,
{
    let mut r: Vec<u8> = Vec::new();
    let mut i: usize = 0;
    while i < b.len()
        invariant
            i <= b@.len(),
            r@ == b@.take(i as int),
        decreases b.len() - i,
    {
        r.push(b[i]);
        proof {
            assert(b@.take(i + 1) =~= b@.take(i as int).push(b@[i as int]));
        }
        i = i + 1;
    }
    proof {
        assert(b@.take(i as int) =~= b@);
    }
    r
}

fn write_bytes(v: &Arg) -> (r: Result<Option<Request>, String>)
    ensures
        writes_bytes(*v, r),
{
    let what: &str = "Fs.writeBytes";
    let t: &Vec<Arg> = match tuple_arg(what, v, 2) {
        Ok(t) => t,
        Err(e) => {
            return Err(e);
        },
    };
    let path: String = match str_arg(what, &t[0]) {
        Ok(p) => p,
        Err(e) => {
            return Err(e);
        },
    };
    match &t[1].val {
        Val::Bytes(b) => Ok(Some(Request::WriteBytes(path, copy_bytes(b)))),
        _ => Err(mistaken(what, "an Array of UInt8", &t[1])),
    }
}

/// What an `Fs` operation asks for.
pub fn native_fs(op: &str, arg: &Arg) -> (r: Result<Option<Request>, String>)
    ensures
        op@ == "writeBytes"@ ==> writes_bytes(*arg, r),
        op@ != "writeBytes"@ ==> agrees(r, fs_asks(op@, *arg)),
{
    if same(op, "writeBytes") {
        return write_bytes(arg);
    }
    let mut what: String = "Fs.".to_owned();
    what.append(op);
    if same(op, "readToString") {
        match str_arg(what.as_str(), arg) {
            Ok(s) => Ok(Some(Request::ReadToString(s))),
            Err(e) => Err(e),
        }
    } else if same(op, "readBytes") {
        match str_arg(what.as_str(), arg) {
            Ok(s) => Ok(Some(Request::ReadBytes(s))),
            Err(e) => Err(e),
        }
    } else if same(op, "writeString") {
        match two(what.as_str(), arg) {
            Ok((a, b)) => Ok(Some(Request::WriteString(a, b))),
            Err(e) => Err(e),
        }
    } else if same(op, "appendString") {
        match two(what.as_str(), arg) {
            Ok((a, b)) => Ok(Some(Request::AppendString(a, b))),
            Err(e) => Err(e),
        }
    } else if same(op, "removeFile") {
        match str_arg(what.as_str(), arg) {
            Ok(s) => Ok(Some(Request::RemoveFile(s))),
            Err(e) => Err(e),
        }
    } else if same(op, "createDir") {
        match str_arg(what.as_str(), arg) {
            Ok(s) => Ok(Some(Request::CreateDir(s))),
            Err(e) => Err(e),
        }
    } else if same(op, "createDirAll") {
        match str_arg(what.as_str(), arg) {
            Ok(s) => Ok(Some(Request::CreateDirAll(s))),
            Err(e) => Err(e),
        }
    } else if same(op, "removeDir") {
        match str_arg(what.as_str(), arg) {
            Ok(s) => Ok(Some(Request::RemoveDir(s))),
            Err(e) => Err(e),
        }
    } else if same(op, "removeDirAll") {
        match str_arg(what.as_str(), arg) {
            Ok(s) => Ok(Some(Request::RemoveDirAll(s))),
            Err(e) => Err(e),
        }
    } else if same(op, "rename") {
        match two(what.as_str(), arg) {
            Ok((a, b)) => Ok(Some(Request::Rename(a, b))),
            Err(e) => Err(e),
        }
    } else if same(op, "copy") {
        match two(what.as_str(), arg) {
            Ok((a, b)) => Ok(Some(Request::Copy(a, b))),
            Err(e) => Err(e),
        }
    } else if same(op, "readDir") {
        match str_arg(what.as_str(), arg) {
            Ok(s) => Ok(Some(Request::ReadDir(s))),
            Err(e) => Err(e),
        }
    } else if same(op, "metadata") {
        match str_arg(what.as_str(), arg) {
            Ok(s) => Ok(Some(Request::Metadata(s))),
            Err(e) => Err(e),
        }
    } else if same(op, "exists") {
        match str_arg(what.as_str(), arg) {
            Ok(s) => Ok(Some(Request::Exists(s))),
            Err(e) => Err(e),
        }
    } else if same(op, "isFile") {
        match str_arg(what.as_str(), arg) {
            Ok(s) => Ok(Some(Request::IsFile(s))),
            Err(e) => Err(e),
        }
    } else if same(op, "isDir") {
        match str_arg(what.as_str(), arg) {
            Ok(s) => Ok(Some(Request::IsDir(s))),
            Err(e) => Err(e),
        }
    } else {
        Ok(None)
    }
}

/// The texts of the first `k` of some values, or the message of the first that
/// is none.
pub open spec fn texts_of(what: Seq<char>, xs: Seq<Arg>, k: nat) -> Result<Seq<String>, Seq<char>>
    decreases k,
{
    if k == 0 {
        Ok(Seq::empty())
    } else {
        match texts_of(what, xs, (k - 1) as nat) {
            Err(e) => Err(e),
            Ok(before) => match text_of(what, xs[k - 1]) {
                Ok(s) => Ok(before.push(s)),
                Err(e) => Err(e),
            },
        }
    }
}

/// The pairs of texts of the first `k` of some values.
pub open spec fn pairs_of(what: Seq<char>, xs: Seq<Arg>, k: nat) -> Result<Seq<(String, String)>, Seq<char>>
    decreases k,
{
    if k == 0 {
        Ok(Seq::empty())
    } else {
        match pairs_of(what, xs, (k - 1) as nat) {
            Err(e) => Err(e),
            Ok(before) => match pair_of(what, xs[k - 1]) {
                Ok(p) => Ok(before.push(p)),
                Err(e) => Err(e),
            },
        }
    }
}

/// The elements of a vector.
pub open spec fn elems_of(what: Seq<char>, v: Arg) -> Result<Seq<Arg>, Seq<char>> {
    match v.val {
        Val::Vector(xs) => Ok(xs@),
        _ => Err(wrong(what, "a Vector"@, v)),
    }
}

/// `Just x` or `None`.
pub open spec fn maybe_of(what: Seq<char>, v: Arg) -> Result<Option<Arg>, Seq<char>> {
    match v.val {
        Val::Data(name, xs) => if name@ == "Maybe.None"@ && xs@.len() == 0 {
            Ok(None)
        } else if name@ == "Maybe.Just"@ && xs@.len() == 1 {
            Ok(Some(xs@[0]))
        } else {
            Err(wrong(what, "a Maybe"@, v))
        },
        _ => Err(wrong(what, "a Maybe"@, v)),
    }
}

/// The directory a command runs in.
pub open spec fn dir_of(what: Seq<char>, v: Arg) -> Result<Option<String>, Seq<char>> {
    match maybe_of(what, v) {
        Err(e) => Err(e),
        Ok(None) => Ok(None),
        Ok(Some(d)) => match text_of(what, d) {
            Ok(s) => Ok(Some(s)),
            Err(e) => Err(e),
        },
    }
}

/// A `Command` is `(program, args, cwd, envVars)`.
pub open spec fn command_of(what: Seq<char>, v: Arg) -> Result<
    (String, Seq<String>, Option<String>, Seq<(String, String)>),
    Seq<char>,
> {
    if !is_tuple(v, 4) {
        Err(not_tuple(what, v, 4))
    } else {
        let t = fields_of(v);
        match text_of(what, t[0]) {
            Err(e) => Err(e),
            Ok(program) => match elems_of(what, t[1]) {
                Err(e) => Err(e),
                Ok(xs) => match texts_of(what, xs, xs.len()) {
                    Err(e) => Err(e),
                    Ok(args) => match dir_of(what, t[2]) {
                        Err(e) => Err(e),
                        Ok(dir) => match elems_of(what, t[3]) {
                            Err(e) => Err(e),
                            Ok(es) => match pairs_of(what, es, es.len()) {
                                Err(e) => Err(e),
                                Ok(vars) => Ok((program, args, dir, vars)),
                            },
                        },
                    },
                },
            },
        }
    }
}

pub open spec fn command_parts(c: Command) -> (String, Seq<String>, Option<String>, Seq<(String, String)>) {
    (c.program, c.args@, c.dir, c.vars@)
}

fn vector_arg<'a>(what: &str, v: &'a Arg) -> (r: Result<&'a Vec<Arg>, String>)
    ensures
        match (r, elems_of(what@, *v)) {
            (Ok(xs), Ok(ys)) => xs@ == ys,
            (Err(e), Err(m)) => e@ == m,
            _ => false,
        },
{
    match &v.val {
        Val::Vector(xs) => Ok(xs),
        _ => Err(mistaken(what, "a Vector", v)),
    }
}

fn text_args(what: &str, xs: &Vec<Arg>) -> (r: Result<Vec<String>, String>)
    ensures
        match (r, texts_of(what@, xs@, xs@.len())) {
            (Ok(v), Ok(w)) => v@ == w,
            (Err(e), Err(m)) => e@ == m,
            _ => false,
        },
{
    let mut r: Vec<String> = Vec::new();
    let mut i: usize = 0;
    while i < xs.len()
        invariant
            i <= xs@.len(),
            texts_of(what@, xs@, i as nat) == Ok::<Seq<String>, Seq<char>>(r@),
        decreases xs.len() - i,
    {
        match str_arg(what, &xs[i]) {
            Ok(s) => {
                r.push(s);
            },
            Err(e) => {
                proof {
                    lemma_texts_stop(what@, xs@, (i + 1) as nat, xs@.len());
                }
                return Err(e);
            },
        }
        i = i + 1;
    }
    Ok(r)
}

proof fn lemma_texts_stop(what: Seq<char>, xs: Seq<Arg>, k: nat, n: nat)
    requires
        texts_of(what, xs, k) is Err,
        k <= n,
    ensures
        texts_of(what, xs, n) == texts_of(what, xs, k),
    decreases n,
{
    if k < n {
        lemma_texts_stop(what, xs, k, (n - 1) as nat);
    }
}

proof fn lemma_pairs_stop(what: Seq<char>, xs: Seq<Arg>, k: nat, n: nat)
    requires
        pairs_of(what, xs, k) is Err,
        k <= n,
    ensures
        pairs_of(what, xs, n) == pairs_of(what, xs, k),
    decreases n,
{
    if k < n {
        lemma_pairs_stop(what, xs, k, (n - 1) as nat);
    }
}

fn pair_args(what: &str, xs: &Vec<Arg>) -> (r: Result<Vec<(String, String)>, String>)
    ensures
        match (r, pairs_of(what@, xs@, xs@.len())) {
            (Ok(v), Ok(w)) => v@ == w,
            (Err(e), Err(m)) => e@ == m,
            _ => false,
        },
{
    let mut r: Vec<(String, String)> = Vec::new();
    let mut i: usize = 0;
    while i < xs.len()
        invariant
            i <= xs@.len(),
            pairs_of(what@, xs@, i as nat) == Ok::<Seq<(String, String)>, Seq<char>>(r@),
        decreases xs.len() - i,
    {
        match two(what, &xs[i]) {
            Ok(p) => {
                r.push(p);
            },
            Err(e) => {
                proof {
                    lemma_pairs_stop(what@, xs@, (i + 1) as nat, xs@.len());
                }
                return Err(e);
            },
        }
        i = i + 1;
    }
    Ok(r)
}

fn maybe_arg<'a>(what: &str, v: &'a Arg) -> (r: Result<Option<&'a Arg>, String>)
    ensures
        match (r, maybe_of(what@, *v)) {
            (Ok(Some(a)), Ok(Some(b))) => *a == b,
            (Ok(None), Ok(None)) => true,
            (Err(e), Err(m)) => e@ == m,
            _ => false,
        },
{
    match &v.val {
        Val::Data(name, xs) => {
            if same(name.as_str(), "Maybe.None") && xs.len() == 0 {
                return Ok(None);
            }
            if same(name.as_str(), "Maybe.Just") && xs.len() == 1 {
                return Ok(Some(&xs[0]));
            }
        },
        _ => {},
    }
    Err(mistaken(what, "a Maybe", v))
}

fn command(what: &str, v: &Arg) -> (r: Result<Command, String>)
    ensures
        match (r, command_of(what@, *v)) {
            (Ok(c), Ok(w)) => command_parts(c) == w,
            (Err(e), Err(m)) => e@ == m,
            _ => false,
        },
{
    let t: &Vec<Arg> = match tuple_arg(what, v, 4) {
        Ok(t) => t,
        Err(e) => {
            return Err(e);
        },
    };
    let program: String = match str_arg(what, &t[0]) {
        Ok(p) => p,
        Err(e) => {
            return Err(e);
        },
    };
    let xs: &Vec<Arg> = match vector_arg(what, &t[1]) {
        Ok(xs) => xs,
        Err(e) => {
            return Err(e);
        },
    };
    let args: Vec<String> = match text_args(what, xs) {
        Ok(a) => a,
        Err(e) => {
            return Err(e);
        },
    };
    let dir: Option<String> = match maybe_arg(what, &t[2]) {
        Err(e) => {
            return Err(e);
        },
        Ok(None) => None,
        Ok(Some(d)) => match str_arg(what, d) {
            Ok(s) => Some(s),
            Err(e) => {
                return Err(e);
            },
        },
    };
    let es: &Vec<Arg> = match vector_arg(what, &t[3]) {
        Ok(es) => es,
        Err(e) => {
            return Err(e);
        },
    };
    let vars: Vec<(String, String)> = match pair_args(what, es) {
        Ok(p) => p,
        Err(e) => {
            return Err(e);
        },
    };
    Ok(Command { program, args, dir, vars })
}

/// The number `v` is.
pub open spec fn int_of(what: Seq<char>, v: Arg) -> Result<i64, Seq<char>> {
    match v.val {
        Val::Int(n) => Ok(n),
        _ => Err(wrong(what, "an Int"@, v)),
    }
}

fn int_arg(what: &str, v: &Arg) -> (r: Result<i64, String>)
    ensures
        agrees(r, int_of(what@, *v)),
{
    match &v.val {
        Val::Int(n) => Ok(*n),
        _ => Err(mistaken(what, "an Int", v)),
    }
}

/// What a `Process` operation asks for, but for those that run a command.
pub open spec fn process_asks(op: Seq<char>, v: Arg) -> Result<Option<Request>, Seq<char>> {
    let what = "Process."@ + op;
    if op == "exit"@ {
        match int_of(what, v) {
            Ok(n) => Ok(Some(Request::Exit(n))),
            Err(e) => Err(e),
        }
    } else if op == "currentPid"@ {
        Ok(Some(Request::CurrentPid))
    } else if op == "isTerminal"@ {
        match int_of(what, v) {
            Ok(n) => Ok(Some(Request::IsTerminal(n))),
            Err(e) => Err(e),
        }
    } else if op == "argv"@ {
        Ok(Some(Request::Argv))
    } else if op == "getEnv"@ {
        of_text(what, v, |s: String| Request::GetEnv(s))
    } else if op == "setEnv"@ {
        of_pair(what, v, |a: String, b: String| Request::SetEnv(a, b))
    } else if op == "removeEnv"@ {
        of_text(what, v, |s: String| Request::RemoveEnv(s))
    } else {
        Ok(None)
    }
}

/// What an operation that runs a command asks for.
pub open spec fn runs_command(op: Seq<char>, v: Arg, r: Result<Option<Request>, String>) -> bool {
    match command_of("Process."@ + op, v) {
        Err(m) => r matches Err(e) && e@ == m,
        Ok(c) => if op == "spawn"@ {
            r matches Ok(Some(Request::Spawn(d))) && command_parts(d) == c
        } else {
            r matches Ok(Some(Request::Status(d))) && command_parts(d) == c
        },
    }
}

/// What a `Process` operation asks for.
pub fn native_process(op: &str, arg: &Arg) -> (r: Result<Option<Request>, String>)
    ensures
        op@ == "spawn"@ || op@ == "status"@ ==> runs_command(op@, *arg, r),
        op@ != "spawn"@ && op@ != "status"@ ==> agrees(r, process_asks(op@, *arg)),
{
    let mut what: String = "Process.".to_owned();
    what.append(op);
    if same(op, "spawn") || same(op, "status") {
        let c: Command = match command(what.as_str(), arg) {
            Ok(c) => c,
            Err(e) => {
                return Err(e);
            },
        };
        if same(op, "spawn") {
            return Ok(Some(Request::Spawn(c)));
        }
        return Ok(Some(Request::Status(c)));
    }
    if same(op, "exit") {
        match int_arg(what.as_str(), arg) {
            Ok(n) => Ok(Some(Request::Exit(n))),
            Err(e) => Err(e),
        }
    } else if same(op, "currentPid") {
        Ok(Some(Request::CurrentPid))
    } else if same(op, "isTerminal") {
        match int_arg(what.as_str(), arg) {
            Ok(n) => Ok(Some(Request::IsTerminal(n))),
            Err(e) => Err(e),
        }
    } else if same(op, "argv") {
        Ok(Some(Request::Argv))
    } else if same(op, "getEnv") {
        match str_arg(what.as_str(), arg) {
            Ok(s) => Ok(Some(Request::GetEnv(s))),
            Err(e) => Err(e),
        }
    } else if same(op, "setEnv") {
        match two(what.as_str(), arg) {
            Ok((a, b)) => Ok(Some(Request::SetEnv(a, b))),
            Err(e) => Err(e),
        }
    } else if same(op, "removeEnv") {
        match str_arg(what.as_str(), arg) {
            Ok(s) => Ok(Some(Request::RemoveEnv(s))),
            Err(e) => Err(e),
        }
    } else {
        Ok(None)
    }
}

/// What a `Random` operation asks for.
pub open spec fn random_asks(op: Seq<char>, v: Arg) -> Result<Option<Request>, Seq<char>> {
    let what = "Random."@ + op;
    if op == "nextInt"@ || op == "nextSeed"@ {
        Ok(Some(Request::NextInt))
    } else if op == "nextFloat"@ {
        Ok(Some(Request::NextFloat))
    } else if op == "intBetween"@ {
        if !is_tuple(v, 2) {
            Err(not_tuple(what, v, 2))
        } else {
            match (fields_of(v)[0].val, fields_of(v)[1].val) {
                (Val::Int(lo), Val::Int(hi)) => Ok(Some(Request::IntBetween(lo, hi))),
                _ => Err(wrong(what, "two Ints"@, v)),
            }
        }
    } else {
        Ok(None)
    }
}

pub fn native_random(op: &str, arg: &Arg) -> (r: Result<Option<Request>, String>)
    ensures
        agrees(r, random_asks(op@, *arg)),
{
    if same(op, "nextInt") || same(op, "nextSeed") {
        return Ok(Some(Request::NextInt));
    }
    if same(op, "nextFloat") {
        return Ok(Some(Request::NextFloat));
    }
    if !same(op, "intBetween") {
        return Ok(None);
    }
    let mut what: String = "Random.".to_owned();
    what.append(op);
    let t: &Vec<Arg> = match tuple_arg(what.as_str(), arg, 2) {
        Ok(t) => t,
        Err(e) => {
            return Err(e);
        },
    };
    match (&t[0].val, &t[1].val) {
        (Val::Int(lo), Val::Int(hi)) => Ok(Some(Request::IntBetween(*lo, *hi))),
        _ => Err(mistaken(what.as_str(), "two Ints", arg)),
    }
}

/// What a `Time` operation asks for.
pub open spec fn time_asks(op: Seq<char>, v: Arg) -> Result<Option<Request>, Seq<char>> {
    if op == "now"@ {
        Ok(Some(Request::Now))
    } else if op == "monotonic"@ {
        Ok(Some(Request::Monotonic))
    } else if op == "sleep"@ {
        match int_of("Time.sleep"@, v) {
            Ok(ms) => Ok(
                Some(
                    if ms > 0 {
                        Request::Sleep(ms as u64)
                    } else {
                        Request::Done
                    },
                ),
            ),
            Err(e) => Err(e),
        }
    } else {
        Ok(None)
    }
}

pub fn native_time(op: &str, arg: &Arg) -> (r: Result<Option<Request>, String>)
    ensures
        agrees(r, time_asks(op@, *arg)),
{
    if same(op, "now") {
        return Ok(Some(Request::Now));
    }
    if same(op, "monotonic") {
        return Ok(Some(Request::Monotonic));
    }
    if !same(op, "sleep") {
        return Ok(None);
    }
    match int_arg("Time.sleep", arg) {
        Ok(ms) => Ok(
            Some(
                if ms > 0 {
                    Request::Sleep(ms as u64)
                } else {
                    Request::Done
                },
            ),
        ),
        Err(e) => Err(e),
    }
}

/// What a `Console` operation asks for.
pub open spec fn console_asks(op: Seq<char>, v: Arg) -> Result<Option<Request>, Seq<char>> {
    let what = "Console."@ + op;
    if op == "writeOutput"@ {
        of_text(what, v, |s: String| Request::WriteOutput(s))
    } else if op == "readLine"@ {
        Ok(Some(Request::ReadLine))
    } else if op == "readExact"@ {
        match int_of(what, v) {
            Ok(n) => Ok(Some(Request::ReadExact(n))),
            Err(e) => Err(e),
        }
    } else {
        Ok(None)
    }
}

pub fn native_console(op: &str, arg: &Arg) -> (r: Result<Option<Request>, String>)
    ensures
        agrees(r, console_asks(op@, *arg)),
{
    let mut what: String = "Console.".to_owned();
    what.append(op);
    if same(op, "writeOutput") {
        return match str_arg(what.as_str(), arg) {
            Ok(s) => Ok(Some(Request::WriteOutput(s))),
            Err(e) => Err(e),
        };
    }
    if same(op, "readLine") {
        return Ok(Some(Request::ReadLine));
    }
    if !same(op, "readExact") {
        return Ok(None);
    }
    match int_arg(what.as_str(), arg) {
        Ok(n) => Ok(Some(Request::ReadExact(n))),
        Err(e) => Err(e),
    }
}

/// `r` is what `effect.op` asks of the real world.
pub open spec fn asked(effect: Seq<char>, op: Seq<char>, v: Arg, r: Result<Option<Request>, String>) -> bool {
    if effect == "Fs"@ {
        if op == "writeBytes"@ {
            writes_bytes(v, r)
        } else {
            agrees(r, fs_asks(op, v))
        }
    } else if effect == "Process"@ {
        if op == "spawn"@ || op == "status"@ {
            runs_command(op, v, r)
        } else {
            agrees(r, process_asks(op, v))
        }
    } else if effect == "Random"@ {
        agrees(r, random_asks(op, v))
    } else if effect == "Time"@ {
        agrees(r, time_asks(op, v))
    } else if effect == "Console"@ {
        agrees(r, console_asks(op, v))
    } else {
        r == Ok::<Option<Request>, String>(None)
    }
}

/// What `effect.op` asks of the real world, if it can be asked.
pub fn native(effect: &str, op: &str, arg: &Arg) -> (r: Result<Option<Request>, String>)
    ensures
        asked(effect@, op@, *arg, r),
{
    if same(effect, "Fs") {
        native_fs(op, arg)
    } else if same(effect, "Process") {
        native_process(op, arg)
    } else if same(effect, "Random") {
        native_random(op, arg)
    } else if same(effect, "Time") {
        native_time(op, arg)
    } else if same(effect, "Console") {
        native_console(op, arg)
    } else {
        Ok(None)
    }
}

// --- answers -------------------------------------------------------------------

/// `Ok` of nothing, or the error there was.
pub fn unit_answer(r: Result<(), String>) -> (b: Build)
    ensures
        match r {
            Ok(_) => b matches Build::Data(name, xs) && name@ == "Result.Ok"@ && xs@ == seq![Build::Unit],
            Err(e) => b matches Build::Data(name, xs) && name@ == "Result.Err"@ && xs@ == seq![Build::Str(e)],
        },
{
    match r {
        Ok(_) => Build::ok(Build::unit()),
        Err(e) => Build::error(e),
    }
}

/// `Ok` of what was built, or the error there was.
pub fn answer(r: Result<Build, String>) -> (b: Build)
    ensures
        match r {
            Ok(v) => b matches Build::Data(name, xs) && name@ == "Result.Ok"@ && xs@ == seq![v],
            Err(e) => b matches Build::Data(name, xs) && name@ == "Result.Err"@ && xs@ == seq![Build::Str(e)],
        },
{
    match r {
        Ok(v) => Build::ok(v),
        Err(e) => Build::error(e),
    }
}

/// What a file is, as a record.
pub fn metadata_answer(is_file: bool, is_dir: bool, len: i64, readonly: bool) -> (b: Build)
    ensures
        b matches Build::Record(fs) && fs@.len() == 4 && fs@[0].0@ == "isFile"@ && fs@[0].1 == Build::Bool(is_file)
            && fs@[1].0@ == "isDir"@ && fs@[1].1 == Build::Bool(is_dir) && fs@[2].0@ == "len"@ && fs@[2].1
            == Build::Int(len) && fs@[3].0@ == "readonly"@ && fs@[3].1 == Build::Bool(readonly),
{
    let mut fs: Vec<(&'static str, Build)> = Vec::new();
    fs.push(("isFile", Build::Bool(is_file)));
    fs.push(("isDir", Build::Bool(is_dir)));
    fs.push(("len", Build::Int(len)));
    fs.push(("readonly", Build::Bool(readonly)));
    Build::Record(fs)
}

/// What a program that ran left: its status, and what it wrote.
pub fn output_answer(status: Option<i32>, out: String, err: String) -> (b: Build)
    ensures
        b matches Build::Tuple(xs) && xs@ == seq![
            Build::Int(
                match status {
                    Some(s) => s as i64,
                    None => -1i64,
                },
            ),
            Build::Str(out),
            Build::Str(err),
        ],
{
    let code: i64 = match status {
        Some(s) => s as i64,
        None => -1,
    };
    Build::Tuple(vec![Build::Int(code), Build::Str(out), Build::Str(err)])
}

/// A line without its terminator, `\r\n` included, so a program reading a file
/// piped in on Windows sees the same lines as one reading a terminal.
pub open spec fn unterminated(line: Seq<char>) -> Seq<char> {
    let l = if line.len() > 0 && line.last() == '\n' {
        line.drop_last()
    } else {
        line
    };
    if l.len() > 0 && l.last() == '\r' {
        l.drop_last()
    } else {
        l
    }
}

/// The line that was read, or that there was none: `read` is all of it, and
/// nothing at all at the end of input -- an empty line still carries its
/// terminator.
pub fn line_answer(read: &str) -> (b: Build)
    ensures
        read@.len() == 0 ==> (b matches Build::Data(name, xs) && name@ == "Maybe.None"@ && xs@.len() == 0),
        read@.len() > 0 ==> (b matches Build::Data(name, xs) && name@ == "Maybe.Just"@ && xs@.len() == 1 && (xs@[0] matches Build::Str(
            s,
        ) && s@ == unterminated(read@))),
{
    let mut cs: Vec<char> = crate::text::chars(read);
    if cs.len() == 0 {
        return Build::none();
    }
    if cs[cs.len() - 1] == '\n' {
        cs.pop();
        proof {
            assert(cs@ =~= read@.drop_last());
        }
    }
    if cs.len() > 0 && cs[cs.len() - 1] == '\r' {
        let ghost was = cs@;
        cs.pop();
        proof {
            assert(cs@ =~= was.drop_last());
        }
    }
    Build::just(Build::Str(crate::text::text(cs.as_slice())))
}

/// Bytes read at a time.
pub const PIECE: usize = 65536;

/// What a reading comes to next.
#[derive(Debug)]
pub enum Step {
    /// Ask for up to so many bytes.
    Ask(usize),
    /// All have come, and are this text.
    Text(String),
    /// The input ended first.
    Nothing,
}

/// Reading exactly so many bytes, growing the buffer as they arrive. Reading in
/// pieces means a length that lies about how much follows costs nothing until
/// the bytes come.
pub struct Reading {
    pub remaining: usize,
    pub buf: Vec<u8>,
}

impl Reading {
    /// To read `n` bytes: none, for fewer than none.
    pub fn new(n: i64) -> (r: Reading)
        requires
            n <= usize::MAX,
        ensures
            r.remaining == (if n > 0 {
                n as int
            } else {
                0
            }),
            r.buf@.len() == 0,
    {
        Reading {
            remaining: if n > 0 {
                n as usize
            } else {
                0
            },
            buf: Vec::new(),
        }
    }

    /// What comes next, where the input has ended or not: more bytes to ask for, the
    /// text once all have come, or nothing if the input ended before they did.
    pub fn next(&self, ended: bool) -> (r: Step)
        ensures
            match r {
                Step::Ask(n) => self.remaining > 0 && !ended && n == (if self.remaining < PIECE {
                    self.remaining
                } else {
                    PIECE
                }),
                Step::Text(s) => self.remaining == 0 && s@ == lossy(self.buf@),
                Step::Nothing => self.remaining > 0 && ended,
            },
    {
        if self.remaining == 0 {
            Step::Text(read_lossy(self.buf.as_slice()))
        } else if ended {
            Step::Nothing
        } else {
            Step::Ask(self.want())
        }
    }

    /// How many bytes to ask for next: none, when all have come.
    pub fn want(&self) -> (n: usize)
        ensures
            n == (if self.remaining < PIECE {
                self.remaining
            } else {
                PIECE
            }),
    {
        if self.remaining < PIECE {
            self.remaining
        } else {
            PIECE
        }
    }

    /// These bytes came, as many as were asked for or fewer. False if none did:
    /// the input ended first.
    pub fn got(&mut self, bytes: &[u8]) -> (more: bool)
        requires
            bytes@.len() <= old(self).remaining,
        ensures
            more == (bytes@.len() > 0),
            final(self).buf@ == old(self).buf@ + bytes@,
            final(self).remaining == old(self).remaining - bytes@.len(),
    {
        let mut i: usize = 0;
        proof {
            assert(self.buf@ + bytes@.take(0) =~= self.buf@);
        }
        while i < bytes.len()
            invariant
                i <= bytes@.len(),
                self.remaining == old(self).remaining,
                self.buf@ == old(self).buf@ + bytes@.take(i as int),
            decreases bytes.len() - i,
        {
            self.buf.push(bytes[i]);
            proof {
                assert(bytes@.take(i + 1) =~= bytes@.take(i as int).push(bytes@[i as int]));
                assert(self.buf@ =~= old(self).buf@ + bytes@.take(i + 1));
            }
            i = i + 1;
        }
        proof {
            assert(bytes@.take(i as int) =~= bytes@);
        }
        self.remaining = self.remaining - bytes.len();
        bytes.len() > 0
    }
}

/// What has come and what is still to come make up what was asked for.
pub proof fn reading_keeps_count(before: Reading, bytes: Seq<u8>, after: Reading)
    requires
        bytes.len() <= before.remaining,
        after.buf@ == before.buf@ + bytes,
        after.remaining == before.remaining - bytes.len(),
    ensures
        after.remaining + after.buf@.len() == before.remaining + before.buf@.len(),
{
}

/// The state a generator moves to.
pub open spec fn next_state(state: u64) -> u64 {
    vstd::wrapping::u64_specs::wrapping_add(state, 0x9E37_79B9_7F4A_7C15)
}

/// What SplitMix64 makes of a state.
pub open spec fn mixed(state: u64) -> u64 {
    let a = vstd::wrapping::u64_specs::wrapping_mul(state ^ (state >> 30), 0xBF58_476D_1CE4_E5B9);
    let b = vstd::wrapping::u64_specs::wrapping_mul(a ^ (a >> 27), 0x94D0_49BB_1331_11EB);
    b ^ (b >> 31)
}

/// SplitMix64, seeded from the clock the first time. Not cryptographic and no
/// promise of reproducibility. `seed` is taken odd, so that it is never the
/// state that asks for one. Returns the state to keep and the number.
pub fn next_random(state: u64, seed: u64) -> (r: (u64, u64))
    ensures
        r.0 == next_state(
            if state == 0 {
                seed | 1
            } else {
                state
            },
        ),
        r.1 == mixed(r.0),
{
    let from: u64 = if state == 0 {
        seed | 1
    } else {
        state
    };
    let x: u64 = from.wrapping_add(0x9E37_79B9_7F4A_7C15);
    let a: u64 = (x ^ (x >> 30)).wrapping_mul(0xBF58_476D_1CE4_E5B9);
    let b: u64 = (a ^ (a >> 27)).wrapping_mul(0x94D0_49BB_1331_11EB);
    (x, b ^ (b >> 31))
}

/// `drawn` as a number from `lo` up to `hi`, which is not itself reached.
pub fn int_between(lo: i64, hi: i64, drawn: u64) -> (r: i64)
    requires
        hi - lo <= i64::MAX,
    ensures
        hi <= lo ==> r == lo,
        hi > lo ==> lo <= r < hi && r == lo + drawn % ((hi - lo) as u64),
{
    if hi <= lo {
        lo
    } else {
        let span: u64 = (hi - lo) as u64;
        lo + (drawn % span) as i64
    }
}

} // verus!
