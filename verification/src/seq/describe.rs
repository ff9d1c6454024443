//! Every value's descriptor, wherever the value is.
//!
//! A name whose representation is [`Rep::Var`] holds a value only its descriptor
//! explains, so wherever that name is in an environment that can collect, the
//! descriptor has to be there too. This adds each one to the environments that lack
//! it: a block whose values need a descriptor it does not bind takes it as one more
//! parameter, and whatever enters it passes it.

use super::ir::{Block, Def, Extern, Label, Name, Rep, Statement, Tag, NO_DESC};
use super::table::Table;
use super::view::{
    arms_view, before, both, copy_names, defs_view, let_s, op_view, sub_s, switch_s, BlockV, DefV, StmtV,
};
use std::collections::{HashMap, HashSet};
use vstd::prelude::*;

verus! {

broadcast use vstd::std_specs::hash::group_hash_axioms;

/// An ascending list with `x` in its place.
pub open spec fn put(s: Seq<Name>, x: Name) -> Seq<Name>
    decreases s.len(),
{
    if s.len() == 0 || s.last() < x {
        s.push(x)
    } else if s.last() == x {
        s
    } else {
        put(s.drop_last(), x).push(s.last())
    }
}

/// A list with the first `n` of `xs` in their places.
pub open spec fn put_all(s: Seq<Name>, xs: Seq<Name>, n: nat) -> Seq<Name>
    decreases n,
{
    if n == 0 || n > xs.len() {
        s
    } else {
        put(put_all(s, xs, (n - 1) as nat), xs[n - 1])
    }
}

/// The first `n` of a list, but for those of `ps`.
pub open spec fn but(s: Seq<Name>, ps: Seq<Name>, n: nat) -> Seq<Name>
    decreases n,
{
    if n == 0 || n > s.len() {
        Seq::empty()
    } else if ps.contains(s[n - 1]) {
        but(s, ps, (n - 1) as nat)
    } else {
        but(s, ps, (n - 1) as nat).push(s[n - 1])
    }
}

/// What the pass knows: how names are represented, which are descriptors, and what
/// each labelled block has gained.
pub struct Known {
    pub reps: Map<Name, Rep>,
    pub descs: Set<Name>,
    pub extra: Map<u32, Seq<Name>>,
}

impl Known {
    /// The descriptor `n`'s value needs, if any.
    pub open spec fn desc_of(self, n: Name) -> Option<Name> {
        if self.reps.contains_key(n) {
            match self.reps[n] {
                Rep::Var(d) => if d != NO_DESC {
                    Some(d)
                } else {
                    None
                },
                _ => None,
            }
        } else {
            None
        }
    }

    /// What the block `l` names has gained.
    pub open spec fn gained(self, l: Label) -> Seq<Name> {
        if self.extra.contains_key(l.0) {
            self.extra[l.0]
        } else {
            Seq::empty()
        }
    }
}

/// Where a statement that does nothing else hands control: to a label, or to an
/// object.
pub open spec fn transfer(s: StmtV) -> Option<Option<Label>>
    decreases s,
{
    match s {
        StmtV::Mark(_, inner) => transfer(*inner),
        StmtV::Jump(l) => Some(Some(l)),
        StmtV::Invoke(_, _) => Some(None),
        _ => None,
    }
}

/// The descriptors of the first `n` parameters, put among others.
pub open spec fn put_descs(cx: Known, out: Seq<Name>, ps: Seq<Name>, n: nat) -> Seq<Name>
    decreases n,
{
    if n == 0 || n > ps.len() {
        out
    } else {
        let a = put_descs(cx, out, ps, (n - 1) as nat);
        match cx.desc_of(ps[n - 1]) {
            Some(d) => put(a, d),
            None => a,
        }
    }
}

/// Those of the first `n` names that are descriptors, put among others.
pub open spec fn put_selected(cx: Known, out: Seq<Name>, sel: Seq<Name>, n: nat) -> Seq<Name>
    decreases n,
{
    if n == 0 || n > sel.len() {
        out
    } else {
        let a = put_selected(cx, out, sel, (n - 1) as nat);
        if cx.descs.contains(sel[n - 1]) {
            put(a, sel[n - 1])
        } else {
            a
        }
    }
}

/// The descriptors a block needs and does not bind, in order.
pub open spec fn missing(cx: Known, b: BlockV) -> Seq<Name>
    decreases b, 0nat,
{
    let a = put_descs(cx, need(cx, b.body), b.params, b.params.len());
    but(a, b.params, a.len())
}

/// The descriptors a statement needs in the environment it starts in, in order.
pub open spec fn need(cx: Known, s: StmtV) -> Seq<Name>
    decreases s, 0nat,
{
    match s {
        StmtV::Mark(_, inner) => need(cx, *inner),
        StmtV::Error(_) => Seq::empty(),
        StmtV::Invoke(_, _) => Seq::empty(),
        StmtV::Jump(l) => put_all(Seq::empty(), cx.gained(l), cx.gained(l).len()),
        StmtV::Substitute(sel, b) => {
            let out = put_selected(cx, Seq::empty(), sel, sel.len());
            match transfer(b.body) {
                Some(Some(l)) => put_all(out, cx.gained(l), cx.gained(l).len()),
                Some(None) => out,
                None => {
                    let m = missing(cx, *b);
                    put_all(out, m, m.len())
                },
            }
        },
        StmtV::Let { name, rest, .. } => bound(cx, name, need(cx, *rest)),
        StmtV::New { name, methods, rest, .. } => {
            let out = need_blocks(cx, methods, methods.len());
            let b = bound(cx, name, need(cx, *rest));
            put_all(out, b, b.len())
        },
        StmtV::Extern { blocks, .. } => need_blocks(cx, blocks, blocks.len()),
        StmtV::Switch { arms, default, .. } => {
            let out = need_arms(cx, arms, arms.len());
            let m = missing(cx, *default);
            put_all(out, m, m.len())
        },
    }
}

/// What is needed around a binding of `name`, where `inner` is needed under it.
pub open spec fn bound(cx: Known, name: Name, inner: Seq<Name>) -> Seq<Name> {
    let a = match cx.desc_of(name) {
        Some(d) => put(inner, d),
        None => inner,
    };
    but(a, seq![name], a.len())
}

pub open spec fn need_blocks(cx: Known, bs: Seq<BlockV>, n: nat) -> Seq<Name>
    decreases bs, n,
{
    if n == 0 || n > bs.len() {
        Seq::empty()
    } else {
        let m = missing(cx, bs[n - 1]);
        put_all(need_blocks(cx, bs, (n - 1) as nat), m, m.len())
    }
}

pub open spec fn need_arms(cx: Known, arms: Seq<(Tag, BlockV)>, n: nat) -> Seq<Name>
    decreases arms, n,
{
    if n == 0 || n > arms.len() {
        Seq::empty()
    } else {
        let m = missing(cx, arms[n - 1].1);
        put_all(need_arms(cx, arms, (n - 1) as nat), m, m.len())
    }
}

/// One pass over the first `n` blocks: what each has gained, given the others so
/// far.
pub open spec fn round(cx: Known, defs: Seq<DefV>, n: nat) -> Known
    decreases n,
{
    if n == 0 || n > defs.len() {
        cx
    } else {
        let c = round(cx, defs, (n - 1) as nat);
        let m = missing(c, defs[n - 1].block);
        if c.gained(defs[n - 1].label) != m {
            Known { extra: c.extra.insert(defs[n - 1].label.0, m), ..c }
        } else {
            c
        }
    }
}

/// Does a pass over the first `n` blocks find anything new?
pub open spec fn stirs(cx: Known, defs: Seq<DefV>, n: nat) -> bool
    decreases n,
{
    if n == 0 || n > defs.len() {
        false
    } else {
        stirs(cx, defs, (n - 1) as nat) || ({
            let c = round(cx, defs, (n - 1) as nat);
            c.gained(defs[n - 1].label) != missing(c, defs[n - 1].block)
        })
    }
}

/// Passes until one finds nothing new, and no more than `most`.
pub open spec fn settled(cx: Known, defs: Seq<DefV>, most: nat) -> Known
    decreases most,
{
    if most == 0 || !stirs(cx, defs, defs.len()) {
        cx
    } else {
        settled(round(cx, defs, defs.len()), defs, (most - 1) as nat)
    }
}

/// A statement whose environment was `old` and is now `new`, with the additions
/// written in.
pub open spec fn rewrite(cx: Known, s: StmtV, old: Seq<Name>, new: Seq<Name>) -> StmtV
    decreases s, 0nat,
{
    match s {
        StmtV::Mark(loc, inner) => StmtV::Mark(loc, Box::new(rewrite(cx, *inner, old, new))),
        StmtV::Error(_) => s,
        StmtV::Invoke(_, _) => s,
        StmtV::Jump(_) => s,
        StmtV::Substitute(sel, b) => match transfer(b.body) {
            Some(Some(l)) => StmtV::Substitute(
                sel + cx.gained(l),
                Box::new(BlockV { params: b.params + cx.gained(l), body: b.body }),
            ),
            Some(None) => s,
            None => {
                let add = missing(cx, *b);
                StmtV::Substitute(
                    sel + add,
                    Box::new(
                        BlockV { params: b.params + add, body: rewrite(cx, b.body, b.params, b.params + add) },
                    ),
                )
            },
        },
        StmtV::Let { name, tag, ctor, fields, rest } => StmtV::Let {
            name,
            tag,
            ctor,
            fields,
            rest: Box::new(rewrite(cx, *rest, seq![name] + old, seq![name] + new)),
        },
        StmtV::New { name, captures, methods, rest } => {
            let add = need_blocks(cx, methods, methods.len());
            StmtV::New {
                name,
                captures: captures + add,
                methods: methods_of(cx, methods, methods.len(), captures.len(), add),
                rest: Box::new(rewrite(cx, *rest, seq![name] + old, seq![name] + new)),
            }
        },
        StmtV::Extern { op, args, blocks } => StmtV::Extern {
            op,
            args,
            blocks: continuations(cx, blocks, blocks.len(), old, new),
        },
        StmtV::Switch { scrutinee, arms, default } => StmtV::Switch {
            scrutinee,
            arms: arms_of(cx, arms, arms.len(), old, new),
            default: Box::new(continuation(cx, *default, old, new)),
        },
    }
}

/// Parameters with more behind the first `c` of them.
pub open spec fn widened(params: Seq<Name>, c: nat, add: Seq<Name>) -> Seq<Name> {
    if c <= params.len() {
        params.take(c as int) + add + params.skip(c as int)
    } else {
        params + add
    }
}

pub open spec fn methods_of(cx: Known, ms: Seq<BlockV>, n: nat, c: nat, add: Seq<Name>) -> Seq<BlockV>
    decreases ms, n,
{
    if n == 0 || n > ms.len() {
        Seq::empty()
    } else {
        let params = widened(ms[n - 1].params, c, add);
        methods_of(cx, ms, (n - 1) as nat, c, add).push(
            BlockV { params, body: rewrite(cx, ms[n - 1].body, ms[n - 1].params, params) },
        )
    }
}

/// The parameters of a block continuing an environment that was `old` and is now
/// `new`: what it binds, and that environment.
pub open spec fn continued(params: Seq<Name>, old: Seq<Name>, new: Seq<Name>) -> Seq<Name> {
    if old == new || params.len() < old.len() {
        params
    } else {
        params.take(params.len() - old.len()) + new
    }
}

pub open spec fn continuation(cx: Known, b: BlockV, old: Seq<Name>, new: Seq<Name>) -> BlockV
    decreases b, 0nat,
{
    let params = continued(b.params, old, new);
    BlockV { params, body: rewrite(cx, b.body, b.params, params) }
}

pub open spec fn continuations(cx: Known, bs: Seq<BlockV>, n: nat, old: Seq<Name>, new: Seq<Name>) -> Seq<BlockV>
    decreases bs, n,
{
    if n == 0 || n > bs.len() {
        Seq::empty()
    } else {
        continuations(cx, bs, (n - 1) as nat, old, new).push(continuation(cx, bs[n - 1], old, new))
    }
}

pub open spec fn arms_of(cx: Known, arms: Seq<(Tag, BlockV)>, n: nat, old: Seq<Name>, new: Seq<Name>) -> Seq<
    (Tag, BlockV),
>
    decreases arms, n,
{
    if n == 0 || n > arms.len() {
        Seq::empty()
    } else {
        arms_of(cx, arms, (n - 1) as nat, old, new).push(
            (arms[n - 1].0, continuation(cx, arms[n - 1].1, old, new)),
        )
    }
}

/// A definition with the additions written in.
pub open spec fn rewritten(cx: Known, d: DefV) -> DefV {
    let params = d.block.params + cx.gained(d.label);
    DefV { block: BlockV { params, body: rewrite(cx, d.block.body, d.block.params, params) }, ..d }
}

/// Every definition with the descriptors its values need.
pub open spec fn closed(cx: Known, defs: Seq<DefV>) -> Seq<DefV> {
    Seq::new(defs.len(), |i: int| rewritten(cx, defs[i]))
}

/// The most passes made: more than any program needs.
pub const MOST: u64 = 0xffff_ffff_ffff_ffff;

/// What the pass knows, as it is kept.
pub struct Closer<'a> {
    pub reps: &'a HashMap<Name, Rep>,
    pub descs: &'a HashSet<Name>,
    pub extra: Table<Vec<Name>>,
}

impl<'a> Closer<'a> {
    pub open spec fn known(self) -> Known {
        Known { reps: self.reps@, descs: self.descs@, extra: self.extra@ }
    }
}

fn insert(s: &Vec<Name>, n: usize, x: Name) -> (r: Vec<Name>)
    requires
        n <= s@.len(),
    ensures
        r@ == put(s@.take(n as int), x),
    decreases n,
{
    if n == 0 || s[n - 1] < x {
        let mut r: Vec<Name> = first(s, n);
        r.push(x);
        r
    } else if s[n - 1] == x {
        first(s, n)
    } else {
        let mut r: Vec<Name> = insert(s, n - 1, x);
        proof {
            assert(s@.take(n as int).drop_last() =~= s@.take(n - 1));
        }
        r.push(s[n - 1]);
        r
    }
}

fn first(s: &Vec<Name>, n: usize) -> (r: Vec<Name>)
    requires
        n <= s@.len(),
    ensures
        r@ == s@.take(n as int),
{
    let mut r: Vec<Name> = Vec::new();
    let mut i: usize = 0;
    while i < n
        invariant
            i <= n <= s@.len(),
            r@ == s@.take(i as int),
        decreases n - i,
    {
        r.push(s[i]);
        i = i + 1;
        proof {
            assert(s@.take(i as int) =~= s@.take(i - 1).push(s@[i - 1]));
        }
    }
    r
}

fn rest_of(s: &Vec<Name>, n: usize) -> (r: Vec<Name>)
    requires
        n <= s@.len(),
    ensures
        r@ == s@.skip(n as int),
{
    let mut r: Vec<Name> = Vec::new();
    let mut i: usize = n;
    while i < s.len()
        invariant
            n <= i <= s@.len(),
            r@ == s@.subrange(n as int, i as int),
        decreases s@.len() - i,
    {
        r.push(s[i]);
        i = i + 1;
        proof {
            assert(s@.subrange(n as int, i as int) =~= s@.subrange(n as int, i - 1).push(s@[i - 1]));
        }
    }
    proof {
        assert(s@.subrange(n as int, i as int) =~= s@.skip(n as int));
    }
    r
}

fn place(s: &Vec<Name>, x: Name) -> (r: Vec<Name>)
    ensures
        r@ == put(s@, x),
{
    proof {
        assert(s@.take(s@.len() as int) =~= s@);
    }
    insert(s, s.len(), x)
}

fn place_all(s: Vec<Name>, xs: &Vec<Name>) -> (r: Vec<Name>)
    ensures
        r@ == put_all(s@, xs@, xs@.len()),
{
    let ghost was = s@;
    let mut r: Vec<Name> = s;
    let mut i: usize = 0;
    while i < xs.len()
        invariant
            i <= xs@.len(),
            r@ == put_all(was, xs@, i as nat),
        decreases xs@.len() - i,
    {
        r = place(&r, xs[i]);
        i = i + 1;
    }
    r
}

fn leave_out(s: &Vec<Name>, ps: &Vec<Name>) -> (r: Vec<Name>)
    ensures
        r@ == but(s@, ps@, s@.len()),
{
    let mut r: Vec<Name> = Vec::new();
    let mut i: usize = 0;
    while i < s.len()
        invariant
            i <= s@.len(),
            r@ == but(s@, ps@, i as nat),
        decreases s@.len() - i,
    {
        if !super::lower::live::is_in(ps, s[i]) {
            r.push(s[i]);
        }
        i = i + 1;
    }
    r
}

pub fn hands_to(s: &Statement) -> (r: Option<Option<Label>>)
    ensures
        r == transfer(s@),
    decreases s,
{
    match s {
        Statement::Mark(_, inner) => hands_to(inner),
        Statement::Jump(l) => Some(Some(*l)),
        Statement::Invoke(_, _) => Some(None),
        _ => None,
    }
}

fn same_names(a: &Vec<Name>, b: &Vec<Name>) -> (r: bool)
    ensures
        r == (a@ == b@),
{
    if a.len() != b.len() {
        return false;
    }
    let mut i: usize = 0;
    while i < a.len()
        invariant
            i <= a@.len() == b@.len(),
            forall|j: int| 0 <= j < i ==> a@[j] == b@[j],
        decreases a@.len() - i,
    {
        if a[i] != b[i] {
            return false;
        }
        i = i + 1;
    }
    proof {
        assert(a@ =~= b@);
    }
    true
}

fn copy_op(op: &Extern) -> (r: Extern)
    ensures
        op_view(r) == op_view(*op),
{
    match op {
        Extern::Lit(l) => Extern::Lit(*l),
        Extern::Prim(p) => Extern::Prim(*p),
        Extern::PrimK(p, l) => Extern::PrimK(*p, *l),
        Extern::Branch => Extern::Branch,
        Extern::BranchPrim(p) => Extern::BranchPrim(*p),
        Extern::BranchPrimK(p, l) => Extern::BranchPrimK(*p, *l),
        Extern::Record(ls) => Extern::Record(copy_names(ls)),
        Extern::Select(l) => Extern::Select(*l),
        Extern::Extend(l) => Extern::Extend(*l),
        Extern::Array => Extern::Array,
        Extern::Native(e, o) => Extern::Native(*e, *o),
        Extern::Field(i) => Extern::Field(*i),
    }
}

/// A statement that needs nothing written in.
fn copy_plain(s: &Statement) -> (r: Statement)
    requires
        transfer(s@) is Some || s is Error,
    ensures
        r@ == s@,
    decreases s,
{
    match s {
        Statement::Mark(loc, inner) => Statement::Mark(*loc, Box::new(copy_plain(inner))),
        Statement::Jump(l) => Statement::Jump(*l),
        Statement::Invoke(n, t) => Statement::Invoke(*n, *t),
        Statement::Error(m) => Statement::Error(m),
        _ => Statement::Error(""),
    }
}

impl<'a> Closer<'a> {
    fn desc_of(&self, n: Name) -> (r: Option<Name>)
        ensures
            r == self.known().desc_of(n),
    {
        match self.reps.get(&n) {
            Some(Rep::Var(d)) => if *d != NO_DESC {
                Some(*d)
            } else {
                None
            },
            _ => None,
        }
    }

    fn gained(&self, l: Label) -> (r: Vec<Name>)
        ensures
            r@ == self.known().gained(l),
    {
        match self.extra.get(l.0) {
            Some(v) => copy_names(v),
            None => Vec::new(),
        }
    }

    /// The descriptors block `b` needs and does not bind.
    pub fn missing(&self, b: &Block) -> (r: Vec<Name>)
        ensures
            r@ == missing(self.known(), b@),
        decreases b, 0nat,
    {
        let mut out: Vec<Name> = self.need(&b.body);
        let ghost start = out@;
        let mut i: usize = 0;
        while i < b.params.len()
            invariant
                i <= b.params@.len(),
                out@ == put_descs(self.known(), start, b.params@, i as nat),
            decreases b.params@.len() - i,
        {
            if let Some(d) = self.desc_of(b.params[i]) {
                out = place(&out, d);
            }
            i = i + 1;
        }
        leave_out(&out, &b.params)
    }

    /// The descriptors `s` needs in the environment it starts in.
    fn need(&self, s: &Statement) -> (r: Vec<Name>)
        ensures
            r@ == need(self.known(), s@),
        decreases s, 0nat,
    {
        match s {
            Statement::Mark(_, inner) => self.need(inner),
            Statement::Error(_) => Vec::new(),
            Statement::Invoke(_, _) => Vec::new(),
            Statement::Jump(l) => place_all(Vec::new(), &self.gained(*l)),
            Statement::Substitute(sel, b) => {
                let mut out: Vec<Name> = Vec::new();
                let mut i: usize = 0;
                while i < sel.len()
                    invariant
                        i <= sel@.len(),
                        out@ == put_selected(self.known(), Seq::empty(), sel@, i as nat),
                    decreases sel@.len() - i,
                {
                    if self.descs.contains(&sel[i]) {
                        out = place(&out, sel[i]);
                    }
                    i = i + 1;
                }
                match hands_to(&b.body) {
                    Some(Some(l)) => place_all(out, &self.gained(l)),
                    Some(None) => out,
                    None => place_all(out, &self.missing(b)),
                }
            },
            Statement::Let { name, rest, .. } => {
                let inner: Vec<Name> = self.need(rest);
                self.binding(*name, inner)
            },
            Statement::New { name, methods, rest, .. } => {
                let out: Vec<Name> = self.need_blocks(methods);
                proof {
                    assert(s@->methods =~= blocks_view(methods@));
                }
                let inner: Vec<Name> = self.need(rest);
                place_all(out, &self.binding(*name, inner))
            },
            Statement::Extern { blocks, .. } => {
                proof {
                    assert(s@->blocks =~= blocks_view(blocks@));
                }
                self.need_blocks(blocks)
            },
            Statement::Switch { arms, default, .. } => {
                let ghost vs = arms_view(arms@);
                proof {
                    assert(s@->arms =~= vs);
                }
                let mut out: Vec<Name> = Vec::new();
                let mut i: usize = 0;
                while i < arms.len()
                    invariant
                        i <= arms@.len(),
                        vs == arms_view(arms@),
                        decreases_to!(s => arms),
                        out@ == need_arms(self.known(), vs, i as nat),
                    decreases arms@.len() - i,
                {
                    assert(decreases_to!(arms => arms@[i as int]));
                    let m: Vec<Name> = self.missing(&arms[i].1);
                    out = place_all(out, &m);
                    i = i + 1;
                }
                place_all(out, &self.missing(default))
            },
        }
    }

    fn need_blocks(&self, bs: &Vec<Block>) -> (r: Vec<Name>)
        ensures
            r@ == need_blocks(self.known(), blocks_view(bs@), bs@.len()),
        decreases bs, 1nat,
    {
        let ghost vs = blocks_view(bs@);
        let mut out: Vec<Name> = Vec::new();
        let mut i: usize = 0;
        while i < bs.len()
            invariant
                i <= bs@.len(),
                vs == blocks_view(bs@),
                out@ == need_blocks(self.known(), vs, i as nat),
            decreases bs@.len() - i,
        {
            assert(decreases_to!(bs => bs@[i as int]));
            let m: Vec<Name> = self.missing(&bs[i]);
            out = place_all(out, &m);
            i = i + 1;
        }
        out
    }

    /// `name` is bound, where `inner` is needed under it.
    fn binding(&self, name: Name, inner: Vec<Name>) -> (r: Vec<Name>)
        ensures
            r@ == bound(self.known(), name, inner@),
    {
        let a: Vec<Name> = match self.desc_of(name) {
            Some(d) => place(&inner, d),
            None => inner,
        };
        let own: Vec<Name> = vec![name];
        proof {
            assert(own@ =~= seq![name]);
        }
        leave_out(&a, &own)
    }

    /// Write the additions into `s`, whose environment was `old` and is now `new`.
    fn rewrite(&self, s: &Statement, old: &Vec<Name>, new: &Vec<Name>) -> (r: Statement)
        ensures
            r@ == rewrite(self.known(), s@, old@, new@),
        decreases s, 0nat,
    {
        match s {
            Statement::Mark(loc, inner) => Statement::Mark(*loc, Box::new(self.rewrite(inner, old, new))),
            Statement::Error(m) => Statement::Error(m),
            Statement::Invoke(n, t) => Statement::Invoke(*n, *t),
            Statement::Jump(l) => Statement::Jump(*l),
            Statement::Substitute(sel, b) => match hands_to(&b.body) {
                Some(Some(l)) => {
                    let add: Vec<Name> = self.gained(l);
                    sub_s(both(sel, &add), both(&b.params, &add), copy_plain(&b.body))
                },
                Some(None) => sub_s(copy_names(sel), copy_names(&b.params), copy_plain(&b.body)),
                None => {
                    let add: Vec<Name> = self.missing(b);
                    let params: Vec<Name> = both(&b.params, &add);
                    let body: Statement = self.rewrite(&b.body, &b.params, &params);
                    sub_s(both(sel, &add), params, body)
                },
            },
            Statement::Let { name, tag, ctor, fields, rest } => {
                let o: Vec<Name> = before(*name, old);
                let n: Vec<Name> = before(*name, new);
                let inner: Statement = self.rewrite(rest, &o, &n);
                let_s(*name, *tag, *ctor, copy_names(fields), inner)
            },
            Statement::New { name, captures, methods, rest } => {
                let ghost vs = blocks_view(methods@);
                proof {
                    assert(s@->methods =~= vs);
                }
                let add: Vec<Name> = self.need_blocks(methods);
                let ms: Vec<Block> = self.rewrite_methods(methods, captures.len(), &add);
                let o: Vec<Name> = before(*name, old);
                let n: Vec<Name> = before(*name, new);
                let inner: Statement = self.rewrite(rest, &o, &n);
                let r: Statement = Statement::New {
                    name: *name,
                    captures: both(captures, &add),
                    methods: ms,
                    rest: Box::new(inner),
                };
                proof {
                    assert(r@->methods =~= blocks_view(ms@));
                }
                r
            },
            Statement::Extern { op, args, blocks } => {
                let ghost vs = blocks_view(blocks@);
                proof {
                    assert(s@->blocks =~= vs);
                }
                let bs: Vec<Block> = self.rewrite_blocks(blocks, old, new);
                let r: Statement = Statement::Extern { op: copy_op(op), args: copy_names(args), blocks: bs };
                proof {
                    assert(r@->blocks =~= blocks_view(bs@));
                }
                r
            },
            Statement::Switch { scrutinee, arms, default } => {
                let ghost vs = arms_view(arms@);
                proof {
                    assert(s@->arms =~= vs);
                }
                let mut out: Vec<(Tag, Block)> = Vec::new();
                let mut i: usize = 0;
                proof {
                    assert(arms_view(out@) =~= Seq::<(Tag, BlockV)>::empty());
                }
                while i < arms.len()
                    invariant
                        i <= arms@.len(),
                        vs == arms_view(arms@),
                        decreases_to!(s => arms),
                        arms_view(out@) == arms_of(self.known(), vs, i as nat, old@, new@),
                    decreases arms@.len() - i,
                {
                    assert(decreases_to!(arms => arms@[i as int]));
                    let ghost was = out@;
                    let b: Block = self.continuation(&arms[i].1, old, new);
                    let ghost bv = b@;
                    out.push((arms[i].0, b));
                    i = i + 1;
                    proof {
                        assert(arms_view(out@) =~= arms_view(was).push((arms@[i - 1].0, bv)));
                    }
                }
                let d: Block = self.continuation(default, old, new);
                switch_s(*scrutinee, out, d.params, d.body)
            },
        }
    }

    fn rewrite_methods(&self, ms: &Vec<Block>, c: usize, add: &Vec<Name>) -> (r: Vec<Block>)
        ensures
            blocks_view(r@) == methods_of(self.known(), blocks_view(ms@), ms@.len(), c as nat, add@),
        decreases ms, 1nat,
    {
        let ghost vs = blocks_view(ms@);
        let mut out: Vec<Block> = Vec::new();
        proof {
            assert(blocks_view(out@) =~= Seq::<BlockV>::empty());
        }
        let mut i: usize = 0;
        while i < ms.len()
            invariant
                i <= ms@.len(),
                vs == blocks_view(ms@),
                blocks_view(out@) == methods_of(self.known(), vs, i as nat, c as nat, add@),
            decreases ms@.len() - i,
        {
            assert(decreases_to!(ms => ms@[i as int]));
            let ghost was = out@;
            let params: Vec<Name> = if c <= ms[i].params.len() {
                both(&both(&first(&ms[i].params, c), add), &rest_of(&ms[i].params, c))
            } else {
                both(&ms[i].params, add)
            };
            let body: Statement = self.rewrite(&ms[i].body, &ms[i].params, &params);
            let ghost bv = BlockV { params: params@, body: body@ };
            out.push(Block { params, body });
            i = i + 1;
            proof {
                assert(blocks_view(out@) =~= blocks_view(was).push(bv));
            }
        }
        out
    }

    fn rewrite_blocks(&self, bs: &Vec<Block>, old: &Vec<Name>, new: &Vec<Name>) -> (r: Vec<Block>)
        ensures
            blocks_view(r@) == continuations(self.known(), blocks_view(bs@), bs@.len(), old@, new@),
        decreases bs, 1nat,
    {
        let ghost vs = blocks_view(bs@);
        let mut out: Vec<Block> = Vec::new();
        proof {
            assert(blocks_view(out@) =~= Seq::<BlockV>::empty());
        }
        let mut i: usize = 0;
        while i < bs.len()
            invariant
                i <= bs@.len(),
                vs == blocks_view(bs@),
                blocks_view(out@) == continuations(self.known(), vs, i as nat, old@, new@),
            decreases bs@.len() - i,
        {
            assert(decreases_to!(bs => bs@[i as int]));
            let ghost was = out@;
            let b: Block = self.continuation(&bs[i], old, new);
            let ghost bv = b@;
            out.push(b);
            i = i + 1;
            proof {
                assert(blocks_view(out@) =~= blocks_view(was).push(bv));
            }
        }
        out
    }

    /// A block continuing an environment that was `old` and is now `new`.
    fn continuation(&self, b: &Block, old: &Vec<Name>, new: &Vec<Name>) -> (r: Block)
        ensures
            r@ == continuation(self.known(), b@, old@, new@),
        decreases b, 0nat,
    {
        let params: Vec<Name> = if same_names(old, new) || b.params.len() < old.len() {
            copy_names(&b.params)
        } else {
            both(&first(&b.params, b.params.len() - old.len()), new)
        };
        let body: Statement = self.rewrite(&b.body, &b.params, &params);
        Block { params, body }
    }

    /// One pass over every block. Was anything new found?
    fn round(&mut self, defs: &Vec<Def>) -> (r: bool)
        ensures
            final(self).known() == round(old(self).known(), defs_view(defs@), defs@.len()),
            r == stirs(old(self).known(), defs_view(defs@), defs@.len()),
    {
        let ghost vs = defs_view(defs@);
        let ghost start = self.known();
        let mut changed: bool = false;
        let mut i: usize = 0;
        while i < defs.len()
            invariant
                i <= defs@.len(),
                vs == defs_view(defs@),
                self.known() == round(start, vs, i as nat),
                changed == stirs(start, vs, i as nat),
            decreases defs@.len() - i,
        {
            let m: Vec<Name> = self.missing(&defs[i].block);
            let had: Vec<Name> = self.gained(defs[i].label);
            if !same_names(&had, &m) {
                self.extra.insert(defs[i].label.0, m);
                changed = true;
            }
            i = i + 1;
        }
        changed
    }

    fn settle(&mut self, defs: &Vec<Def>)
        ensures
            final(self).known() == settled(old(self).known(), defs_view(defs@), MOST as nat),
    {
        let ghost vs = defs_view(defs@);
        let ghost goal = settled(self.known(), vs, MOST as nat);
        let mut left: u64 = MOST;
        let mut more: bool = true;
        while left > 0 && more
            invariant
                vs == defs_view(defs@),
                more ==> goal == settled(self.known(), vs, left as nat),
                !more ==> goal == self.known(),
            decreases left,
        {
            let ghost was = self.known();
            more = self.round(defs);
            proof {
                if !more {
                    lemma_still(was, vs, vs.len());
                }
            }
            left = left - 1;
        }
    }
}

pub open spec fn blocks_view(bs: Seq<Block>) -> Seq<BlockV> {
    Seq::new(bs.len(), |i: int| bs[i]@)
}

/// Give every environment the descriptors its values need. Also what each block
/// gained.
pub fn close(defs: &Vec<Def>, reps: &HashMap<Name, Rep>, descs: &HashSet<Name>) -> (r: (Vec<Def>, Table<Vec<Name>>))
    ensures
        ({
            let cx = settled(
                Known { reps: reps@, descs: descs@, extra: Map::empty() },
                defs_view(defs@),
                MOST as nat,
            );
            defs_view(r.0@) == closed(cx, defs_view(defs@)) && r.1@ == cx.extra
        }),
{
    let mut closer: Closer = Closer { reps, descs, extra: Table::new() };
    closer.settle(defs);
    let ghost cx = closer.known();
    let ghost goal = closed(cx, defs_view(defs@));
    let mut out: Vec<Def> = Vec::new();
    let mut i: usize = 0;
    proof {
        assert(defs_view(out@) =~= goal.take(0));
    }
    while i < defs.len()
        invariant
            i <= defs@.len(),
            cx == closer.known(),
            out@.len() == i,
            goal == closed(cx, defs_view(defs@)),
            defs_view(out@) == goal.take(i as int),
        decreases defs@.len() - i,
    {
        let ghost was = out@;
        let d: &Def = &defs[i];
        let params: Vec<Name> = both(&d.block.params, &closer.gained(d.label));
        let body: Statement = closer.rewrite(&d.block.body, &d.block.params, &params);
        out.push(Def { label: d.label, name: d.name, block: Block { params, body } });
        i = i + 1;
        proof {
            assert(out@[i - 1]@ == goal[i - 1]);
            assert(defs_view(out@) =~= defs_view(was).push(goal[i - 1]));
            assert(goal.take(i as int) =~= goal.take(i - 1).push(goal[i - 1]));
        }
    }
    proof {
        assert(goal.take(i as int) =~= goal);
    }
    (out, closer.extra)
}

/// A pass that finds nothing new changes nothing.
proof fn lemma_still(cx: Known, defs: Seq<DefV>, n: nat)
    ensures
        !stirs(cx, defs, n) ==> round(cx, defs, n) == cx,
    decreases n,
{
    if n > 0 && n <= defs.len() {
        lemma_still(cx, defs, (n - 1) as nat);
    }
}

/// What was in a list, and `x`, is what is in it with `x` put in its place.
pub proof fn putting_adds_one(s: Seq<Name>, x: Name, y: Name)
    ensures
        put(s, x).contains(y) <==> s.contains(y) || y == x,
    decreases s.len(),
{
    if s.len() == 0 || s.last() < x {
        assert(s.push(x)[s.len() as int] == x);
        if s.contains(y) {
            let i = choose|i: int| 0 <= i < s.len() && s[i] == y;
            assert(s.push(x)[i] == y);
        }
    } else if s.last() == x {
        assert(s[s.len() - 1] == x);
    } else {
        putting_adds_one(s.drop_last(), x, y);
        let p = put(s.drop_last(), x);
        assert(p.push(s.last())[p.len() as int] == s.last());
        if s.contains(y) {
            let i = choose|i: int| 0 <= i < s.len() && s[i] == y;
            if i < s.len() - 1 {
                assert(s.drop_last()[i] == y);
            }
        }
        if p.contains(y) {
            let i = choose|i: int| 0 <= i < p.len() && p[i] == y;
            assert(p.push(s.last())[i] == y);
        }
        if s.drop_last().contains(y) {
            let i = choose|i: int| 0 <= i < s.drop_last().len() && s.drop_last()[i] == y;
            assert(s[i] == y);
        }
        assert(s[s.len() - 1] == s.last());
    }
}

} // verus!
