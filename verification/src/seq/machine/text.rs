//! Primitives on text.

use super::prim::{
    array, as_int, ask, bytes_in, bytes_of, bytes_of_value, cx, fail, fail_with, int_answer, is_outcome, not_int,
    value, value_answer, Answer, AnswerV, Cx, Outcome, Table,
};
use super::shown::{shown, Heap};
use super::value::{val, vals, value_facts, Value, ValueV};
use crate::eval::hex::{
    digit_value, from_hex, hex_text, hex_text_reads_back, unhexed, what_is_no_hex, whole_hex,
};
use crate::eval::prim::{lossy, read_lossy, RuntimeError};
use crate::eval::show::say;
use crate::eval::shown::{pieces, said, PieceV};
use crate::seq::ir::Tag;
use crate::terms::prim::{Prim, Width};
use crate::terms::symbol::{self, Sym};
use crate::text::{decimal, digits, signed, signed_decimal};
use std::rc::Rc;
use vstd::prelude::*;
use vstd::utf8::encode_utf8;

verus! {

broadcast use {value_facts, vstd::std_specs::hash::group_hash_axioms};

/// Bytes, as an array of sized integers.
pub open spec fn word_bytes(b: Seq<u8>, n: nat) -> Seq<ValueV>
    decreases n,
{
    if n == 0 || n > b.len() {
        Seq::empty()
    } else {
        word_bytes(b, (n - 1) as nat).push(ValueV::Word(Width::U8, b[n - 1] as u64))
    }
}

fn words<'p>(b: &[u8]) -> (r: Vec<Value<'p>>)
    ensures
        vals(r@) == word_bytes(b@, b@.len()),
{
    let mut r: Vec<Value<'p>> = Vec::new();
    let mut i: usize = 0;
    while i < b.len()
        invariant
            i <= b@.len(),
            vals(r@) == word_bytes(b@, i as nat),
        decreases b@.len() - i,
    {
        let w: u64 = b[i] as u64;
        r.push(Value::Word(Width::U8, w));
        i = i + 1;
    }
    r
}

/// The tag of a constructor a primitive builds: one no arm has, if the program does not
/// mention it.
pub open spec fn tag_in(tags: Map<Sym, Tag>, c: Sym) -> Tag {
    if tags.contains_key(c) {
        tags[c]
    } else {
        u32::MAX
    }
}

fn data<'p>(c: Sym, fs: Vec<Value<'p>>, t: &Table<'_>) -> (r: Result<Answer<'p>, RuntimeError>)
    ensures
        is_outcome(r, value(ValueV::Data(c, tag_in(t.tags@, c), vals(fs@)))),
{
    let tag: Tag = match t.tags.get(&c) {
        Some(n) => *n,
        None => u32::MAX,
    };
    value_answer(Value::Data(c, tag, Rc::new(fs)))
}

fn text_answer<'p>(s: String) -> (r: Result<Answer<'p>, RuntimeError>)
    ensures
        is_outcome(r, value(ValueV::Str(s@))),
{
    value_answer(Value::Str(Rc::new(s)))
}

/// `char::from_u32`: the character with a code, where there is one.
#[verifier::external_body]
pub(crate) fn from_code(n: u32) -> (r: Option<char>)
    ensures
        r == (if n < 0xd800 || 0xe000 <= n <= 0x10ffff {
            Some(n as char)
        } else {
            None
        }),
{
    char::from_u32(n)
}

/// The characters of the first `n` of some text.
pub open spec fn char_values(s: Seq<char>, n: nat) -> Seq<ValueV>
    decreases n,
{
    if n == 0 || n > s.len() {
        Seq::empty()
    } else {
        char_values(s, (n - 1) as nat).push(ValueV::Char(s[n - 1]))
    }
}

/// The text of the first `n` of some characters, or what is not one.
pub open spec fn joined_chars(xs: Seq<ValueV>, cx: Cx, n: nat) -> Result<Seq<char>, Seq<PieceV>>
    decreases n,
{
    if n == 0 || n > xs.len() {
        Ok(Seq::empty())
    } else {
        match joined_chars(xs, cx, (n - 1) as nat) {
            Err(e) => Err(e),
            Ok(s) => match xs[n - 1] {
                ValueV::Char(c) => Ok(s.push(c)),
                v => Err(said("charsToString: expected a Char, got "@) + cx.shown(v)),
            },
        }
    }
}

/// The first `n` of some strings, one behind the other, or what is not one.
pub open spec fn joined_texts(xs: Seq<ValueV>, cx: Cx, n: nat) -> Result<Seq<char>, Seq<PieceV>>
    decreases n,
{
    if n == 0 || n > xs.len() {
        Ok(Seq::empty())
    } else {
        match joined_texts(xs, cx, (n - 1) as nat) {
            Err(e) => Err(e),
            Ok(s) => match xs[n - 1] {
                ValueV::Str(u) => Ok(s + u),
                v => Err(said("concatStrings: expected a String, got "@) + cx.shown(v)),
            },
        }
    }
}

pub open spec fn or_text(r: Result<Seq<char>, Seq<PieceV>>) -> Outcome {
    match r {
        Ok(s) => value(ValueV::Str(s)),
        Err(e) => Err(e),
    }
}

pub open spec fn byte_at(s: Seq<char>, i: i64) -> Outcome {
    let b = encode_utf8(s);
    if 0 <= i < b.len() {
        value(ValueV::Word(Width::U8, b[i as int] as u64))
    } else {
        Err(
            said("stringByteAt: index "@) + said(signed(i as int)) + said(" out of bounds (len "@) + said(digits(b.len()))
                + said(")"@),
        )
    }
}

/// A primitive on one value that is text, or becomes text.
pub open spec fn text_op(op: Prim, args: Seq<ValueV>, cx: Cx) -> Outcome {
    let v = args[0];
    match op {
        Prim::StringToBytes => match v {
            ValueV::Str(s) => value(ValueV::Array(word_bytes(encode_utf8(s), encode_utf8(s).len()))),
            _ => Err(said("`stringToBytes` expects a String, got "@) + cx.shown(v)),
        },
        Prim::BytesToString => match bytes_of_value(v, "bytesToString"@, cx) {
            Ok(b) => value(ValueV::Str(lossy(b))),
            Err(e) => Err(e),
        },
        Prim::BytesToHex => match bytes_of_value(v, "bytesToHex"@, cx) {
            Ok(b) => value(ValueV::Str(hex_text(b, b.len()))),
            Err(e) => Err(e),
        },
        Prim::BytesFromHex => match v {
            ValueV::Str(s) => match whole_hex(encode_utf8(s)) {
                Some(b) => value(
                    ValueV::Data(
                        symbol::MAYBE_JUST,
                        tag_in(cx.tags, symbol::MAYBE_JUST),
                        seq![ValueV::Array(word_bytes(b, b.len()))],
                    ),
                ),
                None => value(
                    ValueV::Data(symbol::MAYBE_NONE, tag_in(cx.tags, symbol::MAYBE_NONE), Seq::empty()),
                ),
            },
            _ => Err(said("`bytesFromHex` expects a String, got "@) + cx.shown(v)),
        },
        Prim::CharCode => match v {
            ValueV::Char(c) => value(ValueV::Int(c as u32 as i64)),
            _ => Err(said("charCode: expected a Char, got "@) + cx.shown(v)),
        },
        Prim::CharFromCode => match v {
            ValueV::Int(n) => if 0 <= n < 0xd800 || 0xe000 <= n <= 0x10ffff {
                value(ValueV::Char(n as u32 as char))
            } else {
                Err(said("charFromCode: "@) + said(signed(n as int)) + said(" is not a Unicode scalar value"@))
            },
            _ => Err(said("charFromCode: expected an Int, got "@) + cx.shown(v)),
        },
        Prim::StringToChars => match v {
            ValueV::Str(s) => value(ValueV::Array(char_values(s, s.len()))),
            _ => Err(said("stringToChars: expected a String, got "@) + cx.shown(v)),
        },
        Prim::CharsToString => match v {
            ValueV::Array(xs) => or_text(joined_chars(xs, cx, xs.len())),
            _ => Err(said("charsToString: expected an Array, got "@) + cx.shown(v)),
        },
        _ => match v {
            ValueV::Array(xs) => or_text(joined_texts(xs, cx, xs.len())),
            _ => Err(said("concatStrings: expected an Array, got "@) + cx.shown(v)),
        },
    }
}

pub open spec fn is_text(op: Prim) -> bool {
    match op {
        Prim::StringToBytes | Prim::BytesToString | Prim::BytesToHex | Prim::BytesFromHex => true,
        Prim::CharCode | Prim::CharFromCode | Prim::StringToChars | Prim::CharsToString | Prim::ConcatStrings => true,
        _ => false,
    }
}

fn char_value<'p>(c: char) -> (r: Value<'p>)
    ensures
        val(r) == ValueV::Char(c),
{
    Value::Char(c)
}

fn chars_answer<'p>(s: &String) -> (r: Result<Answer<'p>, RuntimeError>)
    ensures
        is_outcome(r, value(ValueV::Array(char_values(s@, s@.len())))),
{
    let cs: Vec<char> = crate::text::chars(s.as_str());
    let mut out: Vec<Value<'p>> = Vec::new();
    let mut i: usize = 0;
    while i < cs.len()
        invariant
            i <= cs@.len(),
            cs@ == s@,
            vals(out@) == char_values(s@, i as nat),
        decreases cs@.len() - i,
    {
        out.push(char_value(cs[i]));
        i = i + 1;
    }
    array(out)
}

fn join_chars<'p>(xs: &Rc<Vec<Value<'p>>>, t: &Table<'_>, h: &Heap<'_>) -> (r: Result<Answer<'p>, RuntimeError>)
    ensures
        is_outcome(r, or_text(joined_chars(vals(xs@), cx(*t, h@), xs@.len()))),
{
    let mut out: String = String::new();
    let mut failed: Option<RuntimeError> = None;
    let mut i: usize = 0;
    while i < xs.len()
        invariant
            i <= xs@.len(),
            match joined_chars(vals(xs@), cx(*t, h@), i as nat) {
                Ok(s) => failed is None && out@ == s,
                Err(w) => failed is Some && pieces(failed->0.msg@) == w,
            },
        decreases xs@.len() - i,
    {
        proof {
            assert(vals(xs@)[i as int] == val(xs@[i as int]));
        }
        if failed.is_none() {
            match &xs[i] {
                Value::Char(c) => out.push(*c),
                other => {
                    failed = Some(fail_with("charsToString: expected a Char, got ", other, t, h));
                },
            }
        }
        i = i + 1;
    }
    match failed {
        None => text_answer(out),
        Some(e) => Err(e),
    }
}

fn join_texts<'p>(xs: &Rc<Vec<Value<'p>>>, t: &Table<'_>, h: &Heap<'_>) -> (r: Result<Answer<'p>, RuntimeError>)
    ensures
        is_outcome(r, or_text(joined_texts(vals(xs@), cx(*t, h@), xs@.len()))),
{
    let mut out: String = String::new();
    let mut failed: Option<RuntimeError> = None;
    let mut i: usize = 0;
    while i < xs.len()
        invariant
            i <= xs@.len(),
            match joined_texts(vals(xs@), cx(*t, h@), i as nat) {
                Ok(s) => failed is None && out@ == s,
                Err(w) => failed is Some && pieces(failed->0.msg@) == w,
            },
        decreases xs@.len() - i,
    {
        proof {
            assert(vals(xs@)[i as int] == val(xs@[i as int]));
        }
        if failed.is_none() {
            match &xs[i] {
                Value::Str(s) => out.append(s.as_str()),
                other => {
                    failed = Some(fail_with("concatStrings: expected a String, got ", other, t, h));
                },
            }
        }
        i = i + 1;
    }
    match failed {
        None => text_answer(out),
        Some(e) => Err(e),
    }
}

pub fn run_text<'p>(op: Prim, args: &Vec<Value<'p>>, t: &Table<'_>, h: &Heap<'_>) -> (r: Result<Answer<'p>, RuntimeError>)
    requires
        is_text(op),
        args@.len() >= 1,
    ensures
        is_outcome(r, text_op(op, vals(args@), cx(*t, h@))),
{
    let v: &Value<'p> = &args[0];
    proof {
        assert(vals(args@)[0] == val(args@[0]));
    }
    match op {
        Prim::StringToBytes => match v {
            Value::Str(s) => array(words(s.as_str().as_bytes())),
            _ => Err(fail_with("`stringToBytes` expects a String, got ", v, t, h)),
        },
        Prim::BytesToString => match bytes_of(v, "bytesToString", t, h) {
            Ok(b) => text_answer(read_lossy(b.as_slice())),
            Err(e) => Err(e),
        },
        Prim::BytesToHex => match bytes_of(v, "bytesToHex", t, h) {
            Ok(b) => text_answer(from_hex(&b)),
            Err(e) => Err(e),
        },
        Prim::BytesFromHex => match v {
            Value::Str(s) => match unhexed(s.as_str().as_bytes()) {
                Some(b) => {
                    let mut one: Vec<Value<'p>> = Vec::new();
                    one.push(Value::Array(Rc::new(words(b.as_slice()))));
                    proof {
                        assert(vals(one@) =~= seq![ValueV::Array(word_bytes(b@, b@.len()))]);
                    }
                    data(symbol::MAYBE_JUST, one, t)
                },
                None => data(symbol::MAYBE_NONE, Vec::new(), t),
            },
            _ => Err(fail_with("`bytesFromHex` expects a String, got ", v, t, h)),
        },
        Prim::CharCode => match v {
            Value::Char(c) => int_answer(*c as u32 as i64),
            _ => Err(fail_with("charCode: expected a Char, got ", v, t, h)),
        },
        Prim::CharFromCode => match v {
            Value::Int(n) => {
                let code: Option<char> = if *n >= 0 && *n <= 0x10ffff {
                    from_code(*n as u32)
                } else {
                    None
                };
                match code {
                    Some(c) => value_answer(Value::Char(c)),
                    None => {
                        let mut e: RuntimeError = fail("charFromCode: ");
                        say(&mut e.msg, signed_decimal(*n).as_str());
                        say(&mut e.msg, " is not a Unicode scalar value");
                        Err(e)
                    },
                }
            },
            _ => Err(fail_with("charFromCode: expected an Int, got ", v, t, h)),
        },
        Prim::StringToChars => match v {
            Value::Str(s) => chars_answer(s),
            _ => Err(fail_with("stringToChars: expected a String, got ", v, t, h)),
        },
        Prim::CharsToString => match v {
            Value::Array(xs) => join_chars(xs, t, h),
            _ => Err(fail_with("charsToString: expected an Array, got ", v, t, h)),
        },
        _ => match v {
            Value::Array(xs) => join_texts(xs, t, h),
            _ => Err(fail_with("concatStrings: expected an Array, got ", v, t, h)),
        },
    }
}

/// A primitive whose first argument is text, by its name.
pub open spec fn not_text(what: Seq<char>, v: ValueV, cx: Cx) -> Seq<PieceV> {
    said(what) + said(": expected a String, got "@) + cx.shown(v)
}

fn want_text(what: &str, v: &Value<'_>, t: &Table<'_>, h: &Heap<'_>) -> (e: RuntimeError)
    ensures
        pieces(e.msg@) == not_text(what@, val(*v), cx(*t, h@)),
{
    let mut e: RuntimeError = fail(what);
    say(&mut e.msg, ": expected a String, got ");
    super::show::show(&mut e.msg, v, t.names, h);
    e
}

/// A primitive that looks into text. Slices, orders and searches are asked for, of
/// arguments of the right kinds.
pub open spec fn look_op(op: Prim, args: Seq<ValueV>, cx: Cx) -> Outcome {
    match op {
        Prim::StringByteLength => match args[0] {
            ValueV::Str(s) => value(ValueV::Int(encode_utf8(s).len() as i64)),
            _ => Err(not_text("stringByteLength"@, args[0], cx)),
        },
        Prim::StringByteAt => match (args[0], args[1]) {
            (ValueV::Str(s), ValueV::Int(i)) => byte_at(s, i),
            (ValueV::Str(_), _) => Err(not_int(args[1], cx)),
            _ => Err(not_text("stringByteAt"@, args[0], cx)),
        },
        Prim::StringSlice => match (args[0], args[1], args[2]) {
            (ValueV::Str(_), ValueV::Int(_), ValueV::Int(_)) => Ok(AnswerV::Ask(op, args)),
            (ValueV::Str(_), ValueV::Int(_), _) => Err(not_int(args[2], cx)),
            (ValueV::Str(_), _, _) => Err(not_int(args[1], cx)),
            _ => Err(not_text("stringSlice"@, args[0], cx)),
        },
        Prim::StringCompare => match (args[0], args[1]) {
            (ValueV::Str(_), ValueV::Str(_)) => Ok(AnswerV::Ask(op, args)),
            (ValueV::Str(_), _) => Err(not_text("stringCompare"@, args[1], cx)),
            _ => Err(not_text("stringCompare"@, args[0], cx)),
        },
        _ => match (args[0], args[1], args[2]) {
            (ValueV::Str(_), ValueV::Str(_), ValueV::Int(_)) => Ok(AnswerV::Ask(op, args)),
            (ValueV::Str(_), ValueV::Str(_), _) => Err(not_int(args[2], cx)),
            (ValueV::Str(_), _, _) => Err(not_text("stringIndexOf"@, args[1], cx)),
            _ => Err(not_text("stringIndexOf"@, args[0], cx)),
        },
    }
}

pub open spec fn is_look(op: Prim) -> bool {
    match op {
        Prim::StringByteLength | Prim::StringByteAt | Prim::StringSlice => true,
        Prim::StringCompare | Prim::StringIndexOf => true,
        _ => false,
    }
}

fn run_byte_at<'p>(s: &String, i: i64) -> (r: Result<Answer<'p>, RuntimeError>)
    ensures
        is_outcome(r, byte_at(s@, i)),
{
    let b: &[u8] = s.as_str().as_bytes();
    if i >= 0 && (i as u64) < b.len() as u64 {
        let w: u64 = b[i as usize] as u64;
        value_answer(Value::Word(Width::U8, w))
    } else {
        let mut e: RuntimeError = fail("stringByteAt: index ");
        say(&mut e.msg, signed_decimal(i).as_str());
        say(&mut e.msg, " out of bounds (len ");
        say(&mut e.msg, decimal(b.len() as u64).as_str());
        say(&mut e.msg, ")");
        Err(e)
    }
}

pub fn run_look<'p>(op: Prim, args: &Vec<Value<'p>>, t: &Table<'_>, h: &Heap<'_>) -> (r: Result<Answer<'p>, RuntimeError>)
    requires
        is_look(op),
        args@.len() >= super::prim::takes(op),
    ensures
        is_outcome(r, look_op(op, vals(args@), cx(*t, h@))),
{
    proof {
        assert forall|k: int| 0 <= k < args@.len() implies #[trigger] vals(args@)[k] == val(args@[k]) by {}
    }
    match op {
        Prim::StringByteLength => match &args[0] {
            Value::Str(s) => int_answer(s.as_str().as_bytes().len() as i64),
            v => Err(want_text("stringByteLength", v, t, h)),
        },
        Prim::StringByteAt => match &args[0] {
            Value::Str(s) => match as_int(&args[1], t, h) {
                Ok(i) => run_byte_at(s, i),
                Err(e) => Err(e),
            },
            v => Err(want_text("stringByteAt", v, t, h)),
        },
        Prim::StringSlice => match &args[0] {
            Value::Str(_) => match as_int(&args[1], t, h) {
                Ok(_) => match as_int(&args[2], t, h) {
                    Ok(_) => ask(op, args),
                    Err(e) => Err(e),
                },
                Err(e) => Err(e),
            },
            v => Err(want_text("stringSlice", v, t, h)),
        },
        Prim::StringCompare => match &args[0] {
            Value::Str(_) => match &args[1] {
                Value::Str(_) => ask(op, args),
                v => Err(want_text("stringCompare", v, t, h)),
            },
            v => Err(want_text("stringCompare", v, t, h)),
        },
        _ => match &args[0] {
            Value::Str(_) => match &args[1] {
                Value::Str(_) => match as_int(&args[2], t, h) {
                    Ok(_) => ask(op, args),
                    Err(e) => Err(e),
                },
                v => Err(want_text("stringIndexOf", v, t, h)),
            },
            v => Err(want_text("stringIndexOf", v, t, h)),
        },
    }
}

proof fn lemma_word_bytes(b: Seq<u8>, n: nat)
    requires
        n <= b.len(),
    ensures
        word_bytes(b, n).len() == n,
        forall|i: int| 0 <= i < n ==> #[trigger] word_bytes(b, n)[i] == ValueV::Word(Width::U8, b[i] as u64),
    decreases n,
{
    if n > 0 {
        lemma_word_bytes(b, (n - 1) as nat);
    }
}

proof fn lemma_bytes_in(b: Seq<u8>, xs: Seq<ValueV>, what: Seq<char>, cx: Cx, n: nat)
    requires
        n <= b.len(),
        xs == word_bytes(b, b.len()),
    ensures
        bytes_in(xs, what, cx, n) == Ok::<Seq<u8>, Seq<PieceV>>(b.take(n as int)),
    decreases n,
{
    lemma_word_bytes(b, b.len());
    if n > 0 {
        lemma_bytes_in(b, xs, what, cx, (n - 1) as nat);
        assert(b.take(n as int) =~= b.take(n - 1).push(b[n - 1]));
        assert((b[n - 1] as u64) as u8 == b[n - 1]);
    } else {
        assert(b.take(0) =~= Seq::<u8>::empty());
    }
}

/// What `bytesToHex` writes of an array of bytes is two digits for each, and
/// `bytesFromHex` reads the array back from it.
pub proof fn bytes_read_back_from_hex(b: Seq<u8>, cx: Cx)
    ensures
        text_op(Prim::BytesToHex, seq![ValueV::Array(word_bytes(b, b.len()))], cx) == value(
            ValueV::Str(hex_text(b, b.len())),
        ),
        text_op(Prim::BytesFromHex, seq![ValueV::Str(hex_text(b, b.len()))], cx) == value(
            ValueV::Data(
                symbol::MAYBE_JUST,
                tag_in(cx.tags, symbol::MAYBE_JUST),
                seq![ValueV::Array(word_bytes(b, b.len()))],
            ),
        ),
{
    lemma_word_bytes(b, b.len());
    lemma_bytes_in(b, word_bytes(b, b.len()), "bytesToHex"@, cx, b.len());
    assert(b.take(b.len() as int) =~= b);
    hex_text_reads_back(b);
}

/// `bytesFromHex` answers `None`, and never fails, exactly where a string is an odd
/// number of bytes or one of them is no digit.
pub proof fn what_is_not_hex_is_none(s: Seq<char>, cx: Cx)
    ensures
        text_op(Prim::BytesFromHex, seq![ValueV::Str(s)], cx) is Ok,
        text_op(Prim::BytesFromHex, seq![ValueV::Str(s)], cx) == value(
            ValueV::Data(symbol::MAYBE_NONE, tag_in(cx.tags, symbol::MAYBE_NONE), Seq::empty()),
        ) <==> encode_utf8(s).len() % 2 != 0 || exists|i: int|
            0 <= i < encode_utf8(s).len() && digit_value(#[trigger] encode_utf8(s)[i]) is None,
{
    what_is_no_hex(encode_utf8(s));
}

} // verus!
