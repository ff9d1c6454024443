//! Matching values against patterns.

use super::equal::{field, field_of};
use super::term::{Lit, Pat, Var};
use super::value::{copies, fields, val, vals, value_facts, Value, ValueV};
use crate::terms::symbol::{text_at, Sym, Symbols};
use crate::terms::{big, float};
use crate::text::same;
use std::rc::Rc;
use vstd::prelude::*;

verus! {

broadcast use value_facts;

/// Variables with what they are bound to.
pub open spec fn slots(s: Seq<(Var, Value)>) -> Seq<(Var, ValueV)> {
    s.map_values(|p: (Var, Value)| (p.0, val(p.1)))
}

pub broadcast proof fn slots_push(s: Seq<(Var, Value)>, p: (Var, Value))
    ensures
        #[trigger] slots(s.push(p)) == slots(s).push((p.0, val(p.1))),
{
    assert(slots(s.push(p)) =~= slots(s).push((p.0, val(p.1))));
}

/// What a literal is.
pub open spec fn lit_of(l: Lit, names: Seq<Seq<char>>) -> ValueV {
    match l {
        Lit::Int(n) => ValueV::Int(n),
        Lit::BigInt(n) => ValueV::BigInt(n as int),
        Lit::Float(b) => ValueV::Float(b),
        Lit::Str(s) => ValueV::Str(text_at(names, s)),
        Lit::Bool(b) => ValueV::Bool(b),
        Lit::Unit => ValueV::Unit,
    }
}

pub fn lit_value(l: &Lit, names: &Symbols) -> (r: Value)
    ensures
        val(r) == lit_of(*l, names@),
{
    match l {
        Lit::Int(n) => Value::Int(*n),
        Lit::BigInt(n) => Value::BigInt(Rc::new(big::from_i64(*n))),
        Lit::Float(b) => Value::Float(*b),
        Lit::Str(s) => Value::Str(Rc::new(names.text(*s))),
        Lit::Bool(b) => Value::Bool(*b),
        Lit::Unit => Value::Unit,
    }
}

/// A value is the one a literal pattern is for.
pub open spec fn lit_matches(l: Lit, v: ValueV, names: Seq<Seq<char>>) -> bool {
    match (l, v) {
        (Lit::Int(a), ValueV::Int(b)) => a == b,
        (Lit::BigInt(a), ValueV::BigInt(b)) => a == b,
        (Lit::Float(a), ValueV::Float(b)) => float::alike(a, b),
        (Lit::Str(a), ValueV::Str(b)) => text_at(names, a) == b,
        (Lit::Bool(a), ValueV::Bool(b)) => a == b,
        (Lit::Unit, ValueV::Unit) => true,
        _ => false,
    }
}

fn match_lit(l: &Lit, v: &Value, names: &Symbols) -> (r: bool)
    ensures
        r == lit_matches(*l, val(*v), names@),
{
    match (l, v) {
        (Lit::Int(a), Value::Int(b)) => *a == *b,
        (Lit::BigInt(a), Value::BigInt(b)) => big::equal(big::from_i64(*a).as_slice(), b.as_slice()),
        (Lit::Float(a), Value::Float(b)) => float::equal(*a, *b),
        (Lit::Str(a), Value::Str(b)) => same(names.text(*a).as_str(), b.as_str()),
        (Lit::Bool(a), Value::Bool(b)) => *a == *b,
        (Lit::Unit, Value::Unit) => true,
        _ => false,
    }
}

/// What a pattern binds in a value, in order: nothing, where it does not match.
pub open spec fn matched(p: Pat, v: ValueV, names: Seq<Seq<char>>) -> Option<Seq<(Var, ValueV)>>
    decreases p, 0nat,
{
    match p {
        Pat::Wild => Some(Seq::empty()),
        Pat::Var(x) => Some(seq![(x, v)]),
        Pat::As(x, sub) => match matched(*sub, v, names) {
            Some(b) => Some(seq![(x, v)] + b),
            None => None,
        },
        Pat::Lit(l) => if lit_matches(l, v, names) {
            Some(Seq::empty())
        } else {
            None
        },
        Pat::Tuple(ps) => match v {
            ValueV::Tuple(vs) => all_matched(ps, vs, names, ps@.len()),
            _ => None,
        },
        Pat::Array(ps) => match v {
            ValueV::Array(vs) => all_matched(ps, vs, names, ps@.len()),
            _ => None,
        },
        Pat::List(ps) => match v {
            ValueV::List(vs) => all_matched(ps, vs, names, ps@.len()),
            _ => None,
        },
        Pat::ListNil => match v {
            ValueV::List(vs) => if vs.len() == 0 {
                Some(Seq::empty())
            } else {
                None
            },
            _ => None,
        },
        Pat::ListCons(ph, pt) => match v {
            ValueV::List(vs) => if vs.len() == 0 {
                None
            } else {
                match (matched(*ph, vs[0], names), matched(*pt, ValueV::List(vs.skip(1)), names)) {
                    (Some(a), Some(b)) => Some(a + b),
                    _ => None,
                }
            },
            _ => None,
        },
        Pat::Ctor(c, ps) => match v {
            ValueV::Ctor(d, vs) => if c == d {
                all_matched(ps, vs, names, ps@.len())
            } else {
                None
            },
            _ => None,
        },
        Pat::Record(ps) => match v {
            ValueV::Record(fs) => fields_matched(ps, fs, names, ps@.len()),
            _ => None,
        },
    }
}

/// What the first `n` of some patterns bind in as many values.
pub open spec fn all_matched(ps: Vec<Pat>, vs: Seq<ValueV>, names: Seq<Seq<char>>, n: nat) -> Option<
    Seq<(Var, ValueV)>,
>
    decreases ps, n,
{
    if ps@.len() != vs.len() {
        None
    } else if n == 0 || n > ps@.len() {
        Some(Seq::empty())
    } else {
        match (all_matched(ps, vs, names, (n - 1) as nat), matched(ps@[n - 1], vs[n - 1], names)) {
            (Some(a), Some(b)) => Some(a + b),
            _ => None,
        }
    }
}

/// What the first `n` of some patterns bind in a record's fields.
pub open spec fn fields_matched(ps: Vec<(Sym, Pat)>, fs: Seq<(Sym, ValueV)>, names: Seq<Seq<char>>, n: nat) -> Option<
    Seq<(Var, ValueV)>,
>
    decreases ps, n,
{
    if n == 0 || n > ps@.len() {
        Some(Seq::empty())
    } else {
        match (fields_matched(ps, fs, names, (n - 1) as nat), field_of(fs, ps@[n - 1].0)) {
            (Some(a), Some(v)) => match matched(ps@[n - 1].1, v, names) {
                Some(b) => Some(a + b),
                None => None,
            },
            _ => None,
        }
    }
}

/// `out` came to hold what was wanted behind what it had, or `r` says that it failed.
pub open spec fn extended(r: bool, out: Seq<(Var, Value)>, was: Seq<(Var, Value)>, want: Option<Seq<(Var, ValueV)>>) -> bool {
    match want {
        Some(b) => r && slots(out) == slots(was) + b,
        None => !r,
    }
}

fn bind(out: &mut Vec<(Var, Value)>, x: Var, v: &Value)
    ensures
        slots(final(out)@) == slots(old(out)@) + seq![(x, val(*v))],
{
    let ghost was = out@;
    out.push((x, v.copy()));
    proof {
        assert(slots(out@) =~= slots(was) + seq![(x, val(*v))]);
    }
}

/// Behind `out`, what a pattern binds.
pub fn match_pat(p: &Pat, v: &Value, names: &Symbols, out: &mut Vec<(Var, Value)>) -> (r: bool)
    ensures
        extended(r, final(out)@, old(out)@, matched(*p, val(*v), names@)),
    decreases p, 0nat,
{
    let ghost was = out@;
    proof {
        assert(slots(was) + Seq::<(Var, ValueV)>::empty() =~= slots(was));
    }
    match p {
        Pat::Wild => true,
        Pat::Var(x) => {
            bind(out, *x, v);
            true
        },
        Pat::As(x, sub) => {
            bind(out, *x, v);
            let r: bool = match_pat(sub, v, names, out);
            proof {
                if let Some(b) = matched(**sub, val(*v), names@) {
                    assert(slots(was) + seq![(*x, val(*v))] + b =~= slots(was) + (seq![(*x, val(*v))] + b));
                }
            }
            r
        },
        Pat::Lit(l) => match_lit(l, v, names),
        Pat::Tuple(ps) => match v {
            Value::Tuple(vs) => match_all(ps, vs, names, out),
            _ => false,
        },
        Pat::Array(ps) => match v {
            Value::Array(vs) => match_all(ps, vs, names, out),
            _ => false,
        },
        Pat::List(ps) => match v {
            Value::List(vs) => match_all(ps, vs, names, out),
            _ => false,
        },
        Pat::ListNil => match v {
            Value::List(vs) => vs.len() == 0,
            _ => false,
        },
        Pat::ListCons(ph, pt) => match v {
            Value::List(vs) => {
                if vs.len() == 0 {
                    return false;
                }
                let tail: Vec<Value> = copies(vs, 1, vs.len());
                proof {
                    assert(vals(tail@) =~= vals(vs@).skip(1));
                    assert(vals(vs@)[0] == val(vs@[0]));
                }
                let rest: Value = Value::List(Rc::new(tail));
                let head: bool = match_pat(ph, &vs[0], names, out);
                if !head {
                    return false;
                }
                let r: bool = match_pat(pt, &rest, names, out);
                proof {
                    if let (Some(a), Some(b)) = (
                        matched(**ph, val(vs@[0]), names@),
                        matched(**pt, val(rest), names@),
                    ) {
                        assert(slots(was) + a + b =~= slots(was) + (a + b));
                    }
                }
                r
            },
            _ => false,
        },
        Pat::Ctor(c, ps) => match v {
            Value::Ctor(d, vs) => *c == *d && match_all(ps, vs, names, out),
            _ => false,
        },
        Pat::Record(ps) => match v {
            Value::Record(fs) => match_fields(ps, fs, names, out),
            _ => false,
        },
    }
}

fn match_all(ps: &Vec<Pat>, vs: &Rc<Vec<Value>>, names: &Symbols, out: &mut Vec<(Var, Value)>) -> (r: bool)
    ensures
        extended(r, final(out)@, old(out)@, all_matched(*ps, vals(vs@), names@, ps@.len())),
    decreases ps, 1nat,
{
    let ghost was = out@;
    if ps.len() != vs.len() {
        return false;
    }
    let mut ok: bool = true;
    let mut i: usize = 0;
    proof {
        assert(slots(was) + Seq::<(Var, ValueV)>::empty() =~= slots(was));
    }
    while i < ps.len()
        invariant
            i <= ps@.len(),
            ps@.len() == vs@.len(),
            extended(ok, out@, was, all_matched(*ps, vals(vs@), names@, i as nat)),
        decreases ps@.len() - i,
    {
        if ok {
            assert(decreases_to!(ps => ps@[i as int]));
            assert(vals(vs@)[i as int] == val(vs@[i as int]));
            ok = match_pat(&ps[i], &vs[i], names, out);
            proof {
                if let (Some(a), Some(b)) = (
                    all_matched(*ps, vals(vs@), names@, i as nat),
                    matched(ps@[i as int], val(vs@[i as int]), names@),
                ) {
                    assert(slots(was) + a + b =~= slots(was) + (a + b));
                }
            }
        }
        i = i + 1;
    }
    ok
}

fn match_fields(ps: &Vec<(Sym, Pat)>, fs: &Rc<Vec<(Sym, Value)>>, names: &Symbols, out: &mut Vec<(Var, Value)>) -> (r:
    bool)
    ensures
        extended(r, final(out)@, old(out)@, fields_matched(*ps, fields(fs@), names@, ps@.len())),
    decreases ps, 1nat,
{
    let ghost was = out@;
    let mut ok: bool = true;
    let mut i: usize = 0;
    proof {
        assert(slots(was) + Seq::<(Var, ValueV)>::empty() =~= slots(was));
    }
    while i < ps.len()
        invariant
            i <= ps@.len(),
            extended(ok, out@, was, fields_matched(*ps, fields(fs@), names@, i as nat)),
        decreases ps@.len() - i,
    {
        if ok {
            assert(decreases_to!(ps => ps@[i as int]));
            ok = match field(fs, ps[i].0) {
                None => false,
                Some(v) => {
                    let r: bool = match_pat(&ps[i].1, &v, names, out);
                    proof {
                        if let (Some(a), Some(b)) = (
                            fields_matched(*ps, fields(fs@), names@, i as nat),
                            matched(ps@[i as int].1, val(v), names@),
                        ) {
                            assert(slots(was) + a + b =~= slots(was) + (a + b));
                        }
                    }
                    r
                },
            };
        }
        i = i + 1;
    }
    ok
}

} // verus!
