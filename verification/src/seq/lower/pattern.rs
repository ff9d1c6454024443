//! Matching a pattern, with a continuation to invoke where it fails.

use super::frame::{frames_view, join, no_frames, produced, rename, rename_v, then_frame, Frame, FrameV, Pre};
use super::state::{Lower, St};
use super::types::{choose_field_type, field_names, field_type, label_type, type_of_label};
use crate::seq::ir::{Extern, Name, Tag};
use crate::seq::view::{both, copy_names, ExternV};
use crate::terms::prim::{Lit, Prim};
use crate::terms::symbol::{self, Sym};
use crate::terms::term::Pat;
use crate::terms::ty::{con, named, Ty};
use vstd::prelude::*;

verus! {

/// What a matched pattern leaves: the frames that test it and bind its variables,
/// and the environment that then holds.
pub struct Matched {
    pub frames: Vec<Frame>,
    pub env: Vec<Name>,
}

pub struct MatchedV {
    pub st: St,
    pub frames: Seq<FrameV>,
    pub env: Seq<Name>,
}

impl Matched {
    pub open spec fn with(self, st: St) -> MatchedV {
        MatchedV { st, frames: frames_view(self.frames@), env: self.env@ }
    }
}

/// What stands in position `i` of a value of type `of`.
pub open spec fn positional(of: Option<Ty>, i: nat) -> Option<Ty> {
    match of {
        Some(Ty::Tuple(items)) => items.at(i),
        Some(Ty::Con(_, args)) => args.at(0),
        _ => None,
    }
}

/// Reading the first `n` positional fields of `subject` that some pattern looks at:
/// `got` pairs each with its name.
pub open spec fn read_fields(st: St, subs: Seq<Pat>, subject: Name, n: nat, env: Seq<Name>) -> (
    MatchedV,
    Seq<(usize, Name)>,
)
    decreases n,
{
    if n == 0 || n > subs.len() {
        (MatchedV { st, frames: Seq::empty(), env }, Seq::empty())
    } else {
        let (m, got) = read_fields(st, subs, subject, (n - 1) as nat, env);
        if subs[n - 1] is Wild {
            (m, got)
        } else {
            let ty = field_type(positional(m.st.type_of_name(subject), (n - 1) as nat), subs[n - 1]);
            let p = produced(m.st, m.frames, ExternV::Field((n - 1) as usize), seq![subject], m.env, ty, None);
            (MatchedV { st: p.st, frames: p.frames, env: p.env }, got.push(((n - 1) as usize, p.x)))
        }
    }
}

/// Each place with the name in the same position.
pub open spec fn paired(names: Seq<Name>, n: nat) -> Seq<(usize, Name)> {
    Seq::new(if n < names.len() { n } else { names.len() }, |i: int| (i as usize, names[i]))
}

/// Matching `p` against `subject`, invoking `fail` where it does not.
pub open spec fn match_pat(st: St, p: Pat, subject: Name, env: Seq<Name>, fail: Name) -> MatchedV
    decreases p, 0nat,
{
    match p {
        Pat::Wild => MatchedV { st, frames: Seq::empty(), env },
        Pat::Var(v, _) => MatchedV { st, frames: seq![rename_v(subject, v, env)], env: env.push(v) },
        Pat::As(v, _, sub) => {
            let m = match_pat(st, *sub, subject, env.push(v), fail);
            MatchedV { frames: seq![rename_v(subject, v, env)] + m.frames, ..m }
        },
        Pat::Lit(l) => MatchedV {
            st,
            frames: seq![
                FrameV::Test { op: ExternV::BranchPrimK(Prim::Eq, l), args: seq![subject], env, miss: fail },
            ],
            env,
        },
        Pat::Ctor(c, subs) => {
            let st1 = st.tagged(c);
            let (st2, names) = field_names(st1, c, subs@, st1.type_of_name(subject));
            let m = match_all(st2, subs@, paired(names, subs@.len()), names.len(), names + env, fail);
            MatchedV {
                frames: seq![
                    FrameV::Only { subject, tag: st.tag(c), arm_env: names + env, env, miss: fail },
                ] + m.frames,
                ..m
            }
        },
        Pat::Tuple(subs) => {
            let (r, got) = read_fields(st, subs@, subject, subs@.len(), env);
            let m = match_all(r.st, subs@, got, got.len(), r.env, fail);
            MatchedV { frames: r.frames + m.frames, ..m }
        },
        Pat::Array(subs) => {
            let n = produced(
                st,
                Seq::empty(),
                ExternV::Prim(Prim::ArrayLen),
                seq![subject],
                env,
                Some(named(symbol::INT)),
                None,
            );
            let test = FrameV::Test {
                op: ExternV::BranchPrimK(Prim::Eq, Lit::Int(subs@.len() as i64)),
                args: seq![n.x],
                env: n.env,
                miss: fail,
            };
            let (r, got) = read_fields(n.st, subs@, subject, subs@.len(), n.env);
            let m = match_all(r.st, subs@, got, got.len(), r.env, fail);
            MatchedV { frames: n.frames.push(test) + r.frames + m.frames, ..m }
        },
        Pat::Record(fs) => match_labels(st, fs@, fs@.len(), subject, env, fail),
    }
}

/// A pattern tried on `subject`.
#[verifier::opaque]
pub open spec fn tried(st: St, p: Pat, subject: Name, env: Seq<Name>, fail: Name) -> MatchedV {
    match_pat(st, p, subject, env, fail)
}

/// An arm of a switch on a constructor: its tag, the environment it is entered in,
/// and its fields matched.
pub struct ArmTestsV {
    pub tag: Tag,
    pub arm_env: Seq<Name>,
    pub m: MatchedV,
}

/// The arm of constructor `c`, in a value of type `of`, with its fields matched
/// against `subs` in front of `env`.
#[verifier::opaque]
pub open spec fn arm_tests(
    st: St,
    c: Sym,
    subs: Seq<Pat>,
    of: Option<Ty>,
    env: Seq<Name>,
    fail: Name,
) -> ArmTestsV {
    let st1 = st.tagged(c);
    let (st2, fields) = field_names(st1, c, subs, of);
    ArmTestsV {
        tag: st.tag(c),
        arm_env: fields + env,
        m: match_all(st2, subs, paired(fields, subs.len()), fields.len(), fields + env, fail),
    }
}

/// Matching the first `n` of some pairs of a pattern's place and a value.
pub open spec fn match_all(
    st: St,
    subs: Seq<Pat>,
    got: Seq<(usize, Name)>,
    n: nat,
    env: Seq<Name>,
    fail: Name,
) -> MatchedV
    decreases subs, n,
{
    if n == 0 || n > got.len() {
        MatchedV { st, frames: Seq::empty(), env }
    } else {
        let a = match_all(st, subs, got, (n - 1) as nat, env, fail);
        let (j, x) = got[n - 1];
        if j < subs.len() {
            let m = match_pat(a.st, subs[j as int], x, a.env, fail);
            MatchedV { frames: a.frames + m.frames, ..m }
        } else {
            a
        }
    }
}

/// Matching the first `n` labelled fields a record pattern names.
pub open spec fn match_labels(
    st: St,
    fs: Seq<(Sym, Pat)>,
    n: nat,
    subject: Name,
    env: Seq<Name>,
    fail: Name,
) -> MatchedV
    decreases fs, n,
{
    if n == 0 || n > fs.len() {
        MatchedV { st, frames: Seq::empty(), env }
    } else {
        let a = match_labels(st, fs, (n - 1) as nat, subject, env, fail);
        let ty = field_type(label_type(a.st.type_of_name(subject), fs[n - 1].0), fs[n - 1].1);
        let p = produced(a.st, a.frames, ExternV::Select(fs[n - 1].0), seq![subject], a.env, ty, None);
        let m = match_pat(p.st, fs[n - 1].1, p.x, p.env, fail);
        MatchedV { frames: p.frames + m.frames, ..m }
    }
}

/// One name, as a list.
pub fn only(n: Name) -> (r: Vec<Name>)
    ensures
        r@ == seq![n],
{
    let r: Vec<Name> = vec![n];
    proof {
        assert(r@ =~= seq![n]);
    }
    r
}

/// One frame, as a list.
pub fn only_frame(f: Frame) -> (r: Vec<Frame>)
    ensures
        frames_view(r@) == seq![f@],
{
    let r: Vec<Frame> = vec![f];
    proof {
        assert(frames_view(r@) =~= seq![f@]);
    }
    r
}

impl Lower {
    fn read_fields(&mut self, subs: &Vec<Pat>, subject: Name, env: &Vec<Name>) -> (r: (Matched, Vec<(usize, Name)>))
        ensures
            (r.0.with(final(self)@), r.1@) == read_fields(old(self)@, subs@, subject, subs@.len(), env@),
    {
        let ghost start = self@;
        let mut frames: Vec<Frame> = no_frames();
        let mut cur: Vec<Name> = copy_names(env);
        let mut got: Vec<(usize, Name)> = Vec::new();
        let mut i: usize = 0;
        while i < subs.len()
            invariant
                i <= subs@.len(),
                (MatchedV { st: self@, frames: frames_view(frames@), env: cur@ }, got@) == read_fields(
                    start,
                    subs@,
                    subject,
                    i as nat,
                    env@,
                ),
            decreases subs@.len() - i,
        {
            let wild: bool = match &subs[i] {
                Pat::Wild => true,
                _ => false,
            };
            if !wild {
                let derived: Option<Ty> = match self.type_of_name(subject) {
                    Some(Ty::Tuple(items)) => items.get(i),
                    Some(Ty::Con(_, args)) => args.get(0),
                    _ => None,
                };
                let ty: Option<Ty> = choose_field_type(derived, &subs[i]);
                let p: Pre = self.produces(frames, Extern::Field(i), only(subject), &cur, ty, None);
                frames = p.frames;
                cur = p.env;
                got.push((i, p.x));
            }
            i = i + 1;
        }
        (Matched { frames, env: cur }, got)
    }

    /// Match `p` against `subject`; where it fails, `fail` is invoked.
    pub fn match_pat(&mut self, p: &Pat, subject: Name, env: &Vec<Name>, fail: Name) -> (r: Matched)
        ensures
            r.with(final(self)@) == match_pat(old(self)@, *p, subject, env@, fail),
        decreases p, 0nat,
    {
        match p {
            Pat::Wild => Matched { frames: no_frames(), env: copy_names(env) },
            Pat::Var(v, _) => Matched {
                frames: only_frame(rename(subject, *v, env)),
                env: crate::seq::view::after(env, *v),
            },
            Pat::As(v, _, sub) => {
                let first: Vec<Frame> = only_frame(rename(subject, *v, env));
                let env1: Vec<Name> = crate::seq::view::after(env, *v);
                let m: Matched = self.match_pat(sub, subject, &env1, fail);
                Matched { frames: join(first, m.frames), env: m.env }
            },
            Pat::Lit(l) => {
                let test: Frame = Frame::Test {
                    op: Extern::BranchPrimK(Prim::Eq, *l),
                    args: only(subject),
                    env: copy_names(env),
                    miss: fail,
                };
                Matched { frames: only_frame(test), env: copy_names(env) }
            },
            Pat::Ctor(c, subs) => {
                let tag: Tag = self.tag_of(*c);
                let of: Option<Ty> = self.type_of_name(subject);
                let names: Vec<Name> = self.field_names(*c, subs, &of);
                let arm_env: Vec<Name> = both(&names, env);
                let got: Vec<(usize, Name)> = pairs(&names, subs.len());
                proof {
                    lemma_field_count(old(self)@.tagged(*c), *c, subs@, of);
                }
                let m: Matched = self.match_all(subs, &got, &arm_env, fail);
                let test: Frame = Frame::Only { subject, tag, arm_env, env: copy_names(env), miss: fail };
                Matched { frames: join(only_frame(test), m.frames), env: m.env }
            },
            Pat::Tuple(subs) => {
                let (r, got) = self.read_fields(subs, subject, env);
                let m: Matched = self.match_all(subs, &got, &r.env, fail);
                Matched { frames: join(r.frames, m.frames), env: m.env }
            },
            Pat::Array(subs) => {
                let n: Pre = self.produces(
                    no_frames(),
                    Extern::Prim(Prim::ArrayLen),
                    only(subject),
                    env,
                    Some(con(symbol::INT)),
                    None,
                );
                let test: Frame = Frame::Test {
                    op: Extern::BranchPrimK(Prim::Eq, Lit::Int(subs.len() as i64)),
                    args: only(n.x),
                    env: copy_names(&n.env),
                    miss: fail,
                };
                let frames: Vec<Frame> = then_frame(n.frames, test);
                let (r, got) = self.read_fields(subs, subject, &n.env);
                let m: Matched = self.match_all(subs, &got, &r.env, fail);
                Matched { frames: join(join(frames, r.frames), m.frames), env: m.env }
            },
            Pat::Record(fs) => {
                let ghost start = self@;
                let mut frames: Vec<Frame> = no_frames();
                let mut cur: Vec<Name> = copy_names(env);
                let mut i: usize = 0;
                while i < fs.len()
                    invariant
                        i <= fs@.len(),
                        decreases_to!(p => fs),
                        (MatchedV { st: self@, frames: frames_view(frames@), env: cur@ }) == match_labels(
                            start,
                            fs@,
                            i as nat,
                            subject,
                            env@,
                            fail,
                        ),
                    decreases fs@.len() - i,
                {
                    assert(decreases_to!(fs => fs@[i as int]));
                    let of: Option<Ty> = self.type_of_name(subject);
                    let ty: Option<Ty> = choose_field_type(type_of_label(&of, fs[i].0), &fs[i].1);
                    let p: Pre = self.produces(frames, Extern::Select(fs[i].0), only(subject), &cur, ty, None);
                    let m: Matched = self.match_pat(&fs[i].1, p.x, &p.env, fail);
                    frames = join(p.frames, m.frames);
                    cur = m.env;
                    i = i + 1;
                }
                Matched { frames, env: cur }
            },
        }
    }

    /// Try a pattern on `subject`.
    pub fn try_pat(&mut self, p: &Pat, subject: Name, env: &Vec<Name>, fail: Name) -> (r: Matched)
        ensures
            r.with(final(self)@) == tried(old(self)@, *p, subject, env@, fail),
    {
        proof {
            reveal(tried);
        }
        self.match_pat(p, subject, env, fail)
    }

    /// The arm of constructor `c`, in a value of type `of`, with its fields matched
    /// against `subs` in front of `env`.
    pub fn arm_tests(&mut self, c: Sym, subs: &Vec<Pat>, of: &Option<Ty>, env: &Vec<Name>, fail: Name) -> (r: (
        Tag,
        Vec<Name>,
        Matched,
    ))
        ensures
            r.0 == arm_tests(old(self)@, c, subs@, *of, env@, fail).tag,
            r.1@ == arm_tests(old(self)@, c, subs@, *of, env@, fail).arm_env,
            r.2.with(final(self)@) == arm_tests(old(self)@, c, subs@, *of, env@, fail).m,
    {
        proof {
            reveal(arm_tests);
        }
        let tag: Tag = self.tag_of(c);
        let fields: Vec<Name> = self.field_names(c, subs, of);
        let arm_env: Vec<Name> = both(&fields, env);
        let got: Vec<(usize, Name)> = pairs(&fields, subs.len());
        proof {
            lemma_field_count(old(self)@.tagged(c), c, subs@, *of);
        }
        let m: Matched = self.match_all(subs, &got, &arm_env, fail);
        (tag, arm_env, m)
    }

    /// Match a list of patterns against a list of values, left to right.
    pub fn match_all(&mut self, subs: &Vec<Pat>, got: &Vec<(usize, Name)>, env: &Vec<Name>, fail: Name) -> (r: Matched)
        ensures
            r.with(final(self)@) == match_all(old(self)@, subs@, got@, got@.len(), env@, fail),
        decreases subs, 1nat,
    {
        let ghost start = self@;
        let mut frames: Vec<Frame> = no_frames();
        let mut cur: Vec<Name> = copy_names(env);
        let mut i: usize = 0;
        while i < got.len()
            invariant
                i <= got@.len(),
                (MatchedV { st: self@, frames: frames_view(frames@), env: cur@ }) == match_all(
                    start,
                    subs@,
                    got@,
                    i as nat,
                    env@,
                    fail,
                ),
            decreases got@.len() - i,
        {
            let (j, x) = got[i];
            if j < subs.len() {
                assert(decreases_to!(subs => subs@[j as int]));
                let m: Matched = self.match_pat(&subs[j], x, &cur, fail);
                frames = join(frames, m.frames);
                cur = m.env;
            }
            i = i + 1;
        }
        Matched { frames, env: cur }
    }
}

/// As many names as there are patterns.
pub proof fn lemma_name_count(st: St, types: Option<Seq<Ty>>, subs: Seq<Pat>, n: nat)
    requires
        n <= subs.len(),
    ensures
        super::types::name_fields(st, types, subs, n).1.len() == n,
    decreases n,
{
    if n > 0 {
        lemma_name_count(st, types, subs, (n - 1) as nat);
    }
}

pub proof fn lemma_field_count(st: St, c: Sym, subs: Seq<Pat>, of: Option<Ty>)
    ensures
        field_names(st, c, subs, of).1.len() == subs.len(),
{
    lemma_name_count(st, super::types::field_types(st, c, of), subs, subs.len());
}

/// Each place with the name in the same position.
pub fn pairs(names: &Vec<Name>, n: usize) -> (r: Vec<(usize, Name)>)
    ensures
        r@ == paired(names@, n as nat),
{
    let mut r: Vec<(usize, Name)> = Vec::new();
    let mut i: usize = 0;
    while i < n && i < names.len()
        invariant
            i <= paired(names@, n as nat).len(),
            r@ == paired(names@, n as nat).take(i as int),
        decreases n - i,
    {
        r.push((i, names[i]));
        i = i + 1;
        proof {
            let all = paired(names@, n as nat);
            assert(all.take(i as int) =~= all.take(i - 1).push(all[i - 1]));
        }
    }
    proof {
        assert(paired(names@, n as nat).take(i as int) =~= paired(names@, n as nat));
    }
    r
}

} // verus!
