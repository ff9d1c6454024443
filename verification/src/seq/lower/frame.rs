//! Statements with a hole in them: what runs before something, with room left for
//! that something.

use super::state::{Lower, St};
use crate::seq::ir::{Block, Extern, Loc, Name, Statement, Tag};
use crate::seq::view::{
    after, before, enter_s, op_view, enter_v, let_s, let_v, new_s, new_v, one_s, one_v, sub_s, sub_v, switch_s,
    switch_v, two_s, two_v, BlockV, ExternV, StmtV,
};
use crate::terms::symbol::Sym;
use crate::terms::ty::Ty;
use vstd::prelude::*;

verus! {

pub enum Frame {
    Mark(Loc),
    /// An `extern` with one continuation: what follows.
    Bind { op: Extern, args: Vec<Name>, params: Vec<Name> },
    Build { name: Name, tag: Tag, ctor: Sym, fields: Vec<Name> },
    Object { name: Name, captures: Vec<Name>, method: Block },
    Rename { sel: Vec<Name>, params: Vec<Name> },
    /// A branch: what follows is where it is true, and `miss` is invoked otherwise.
    Test { op: Extern, args: Vec<Name>, env: Vec<Name>, miss: Name },
    /// A switch with one arm: what follows is that arm, and `miss` is invoked
    /// otherwise.
    Only { subject: Name, tag: Tag, arm_env: Vec<Name>, env: Vec<Name>, miss: Name },
}

pub enum FrameV {
    Mark(Loc),
    Bind { op: ExternV, args: Seq<Name>, params: Seq<Name> },
    Build { name: Name, tag: Tag, ctor: Sym, fields: Seq<Name> },
    Object { name: Name, captures: Seq<Name>, method: BlockV },
    Rename { sel: Seq<Name>, params: Seq<Name> },
    Test { op: ExternV, args: Seq<Name>, env: Seq<Name>, miss: Name },
    Only { subject: Name, tag: Tag, arm_env: Seq<Name>, env: Seq<Name>, miss: Name },
}

impl View for Frame {
    type V = FrameV;

    open spec fn view(&self) -> FrameV {
        match *self {
            Frame::Mark(loc) => FrameV::Mark(loc),
            Frame::Bind { op, args, params } => FrameV::Bind { op: op_view(op), args: args@, params: params@ },
            Frame::Build { name, tag, ctor, fields } => FrameV::Build { name, tag, ctor, fields: fields@ },
            Frame::Object { name, captures, method } => FrameV::Object {
                name,
                captures: captures@,
                method: method@,
            },
            Frame::Rename { sel, params } => FrameV::Rename { sel: sel@, params: params@ },
            Frame::Test { op, args, env, miss } => FrameV::Test { op: op_view(op), args: args@, env: env@, miss },
            Frame::Only { subject, tag, arm_env, env, miss } => FrameV::Only {
                subject,
                tag,
                arm_env: arm_env@,
                env: env@,
                miss,
            },
        }
    }
}

pub open spec fn frames_view(fs: Seq<Frame>) -> Seq<FrameV> {
    Seq::new(fs.len(), |i: int| fs[i]@)
}

/// A frame with its hole filled.
pub open spec fn filled(f: FrameV, body: StmtV) -> StmtV {
    match f {
        FrameV::Mark(loc) => StmtV::Mark(loc, Box::new(body)),
        FrameV::Bind { op, args, params } => one_v(op, args, params, body),
        FrameV::Build { name, tag, ctor, fields } => let_v(name, tag, ctor, fields, body),
        FrameV::Object { name, captures, method } => new_v(name, captures, method, body),
        FrameV::Rename { sel, params } => sub_v(sel, params, body),
        FrameV::Test { op, args, env, miss } => two_v(op, args, env, enter_v(miss), body),
        FrameV::Only { subject, tag, arm_env, env, miss } => switch_v(
            subject,
            seq![(tag, BlockV { params: arm_env, body })],
            env,
            enter_v(miss),
        ),
    }
}

/// Frames around a statement, the last innermost.
#[verifier::opaque]
pub open spec fn plugged(fs: Seq<FrameV>, body: StmtV) -> StmtV
    decreases fs.len(),
{
    if fs.len() == 0 {
        body
    } else {
        plugged(fs.drop_last(), filled(fs.last(), body))
    }
}

fn fill(f: Frame, body: Statement) -> (r: Statement)
    ensures
        r@ == filled(f@, body@),
{
    match f {
        Frame::Mark(loc) => Statement::Mark(loc, Box::new(body)),
        Frame::Bind { op, args, params } => one_s(op, args, params, body),
        Frame::Build { name, tag, ctor, fields } => let_s(name, tag, ctor, fields, body),
        Frame::Object { name, captures, method } => new_s(name, captures, method, body),
        Frame::Rename { sel, params } => sub_s(sel, params, body),
        Frame::Test { op, args, env, miss } => {
            let no: Statement = enter_s(miss);
            two_s(op, args, &env, no, body)
        },
        Frame::Only { subject, tag, arm_env, env, miss } => {
            let arms: Vec<(Tag, Block)> = vec![(tag, Block { params: arm_env, body })];
            proof {
                assert(crate::seq::view::arms_view(arms@) =~= seq![
                    (tag, BlockV { params: arm_env@, body: body@ }),
                ]);
            }
            let no: Statement = enter_s(miss);
            switch_s(subject, arms, env, no)
        },
    }
}

/// Put a statement into the frames' holes.
pub fn plug(fs: Vec<Frame>, body: Statement) -> (r: Statement)
    ensures
        r@ == plugged(frames_view(fs@), body@),
{
    proof {
        reveal(plugged);
    }
    let mut fs: Vec<Frame> = fs;
    let mut body: Statement = body;
    let ghost goal = plugged(frames_view(fs@), body@);
    while fs.len() > 0
        invariant
            goal == plugged(frames_view(fs@), body@),
        decreases fs@.len(),
    {
        let ghost was = fs@;
        let f: Frame = fs.pop().unwrap();
        proof {
            reveal(plugged);
            assert(frames_view(was).drop_last() =~= frames_view(fs@));
        }
        body = fill(f, body);
    }
    body
}

/// `b` behind `a`.
pub fn join(a: Vec<Frame>, b: Vec<Frame>) -> (r: Vec<Frame>)
    ensures
        frames_view(r@) == frames_view(a@) + frames_view(b@),
{
    let mut a: Vec<Frame> = a;
    let mut b: Vec<Frame> = b;
    let ghost x = a@;
    let ghost y = b@;
    a.append(&mut b);
    proof {
        assert(frames_view(a@) =~= frames_view(x) + frames_view(y));
    }
    a
}

/// `f` behind `a`.
pub fn then_frame(a: Vec<Frame>, f: Frame) -> (r: Vec<Frame>)
    ensures
        frames_view(r@) == frames_view(a@).push(f@),
{
    let mut a: Vec<Frame> = a;
    let ghost x = a@;
    a.push(f);
    proof {
        assert(frames_view(a@) =~= frames_view(x).push(f@));
    }
    a
}

pub fn no_frames() -> (r: Vec<Frame>)
    ensures
        frames_view(r@) == Seq::<FrameV>::empty(),
{
    let r: Vec<Frame> = Vec::new();
    proof {
        assert(frames_view(r@) =~= Seq::<FrameV>::empty());
    }
    r
}

/// What lowering something in place leaves: the frames that compute it, the name it
/// is bound to, and the environment that then holds.
pub struct Pre {
    pub frames: Vec<Frame>,
    pub x: Name,
    pub env: Vec<Name>,
}

/// The same as a value, with the state lowering is then in.
pub struct PreV {
    pub st: St,
    pub frames: Seq<FrameV>,
    pub x: Name,
    pub env: Seq<Name>,
}

impl Pre {
    pub open spec fn with(self, st: St) -> PreV {
        PreV { st, frames: frames_view(self.frames@), x: self.x, env: self.env@ }
    }
}

/// What lowering several things in place leaves.
pub struct Several {
    pub frames: Vec<Frame>,
    pub done: Vec<Name>,
    pub env: Vec<Name>,
}

pub struct SeveralV {
    pub st: St,
    pub frames: Seq<FrameV>,
    pub done: Seq<Name>,
    pub env: Seq<Name>,
}

impl Several {
    pub open spec fn with(self, st: St) -> SeveralV {
        SeveralV { st, frames: frames_view(self.frames@), done: self.done@, env: self.env@ }
    }
}

/// The name something is bound to: the one it is given, or the next, for a value of
/// type `ty`.
pub open spec fn bound_name(st: St, name: Option<Name>) -> Name {
    match name {
        Some(n) => n,
        None => st.next_name,
    }
}

pub open spec fn name_taken(st: St, ty: Option<Ty>, name: Option<Name>) -> St {
    match name {
        Some(_) => st,
        None => st.fresh_typed(ty),
    }
}

/// Behind `frames`, an `extern` that produces one value.
#[verifier::opaque]
pub open spec fn produced(
    st: St,
    frames: Seq<FrameV>,
    op: ExternV,
    args: Seq<Name>,
    env: Seq<Name>,
    ty: Option<Ty>,
    name: Option<Name>,
) -> PreV {
    let x = bound_name(st, name);
    PreV {
        st: name_taken(st, ty, name),
        frames: frames.push(FrameV::Bind { op, args, params: seq![x] + env }),
        x,
        env: seq![x] + env,
    }
}

/// Behind `frames`, a data value built.
#[verifier::opaque]
pub open spec fn built(
    st: St,
    frames: Seq<FrameV>,
    ctor: Sym,
    tag: Tag,
    fields: Seq<Name>,
    env: Seq<Name>,
    ty: Option<Ty>,
    name: Option<Name>,
) -> PreV {
    let x = bound_name(st, name);
    PreV {
        st: name_taken(st, ty, name),
        frames: frames.push(FrameV::Build { name: x, tag, ctor, fields }),
        x,
        env: seq![x] + env,
    }
}

/// An object made, under the name it is given or the next.
#[verifier::opaque]
pub open spec fn made(st: St, captures: Seq<Name>, method: BlockV, env: Seq<Name>, name: Option<Name>) -> PreV {
    let x = bound_name(st, name);
    PreV {
        st: match name {
            Some(_) => st,
            None => st.fresh_ref(),
        },
        frames: seq![FrameV::Object { name: x, captures, method }],
        x,
        env: seq![x] + env,
    }
}

impl Lower {
    fn take_name(&mut self, ty: Option<Ty>, name: Option<Name>) -> (r: Name)
        ensures
            r == bound_name(old(self)@, name),
            final(self)@ == name_taken(old(self)@, ty, name),
    {
        match name {
            Some(n) => n,
            None => self.fresh_typed(ty),
        }
    }

    /// An `extern` that produces one value, binds it, and continues.
    pub fn produces(
        &mut self,
        frames: Vec<Frame>,
        op: Extern,
        args: Vec<Name>,
        env: &Vec<Name>,
        ty: Option<Ty>,
        name: Option<Name>,
    ) -> (r: Pre)
        ensures
            r.with(final(self)@) == produced(old(self)@, frames_view(frames@), op_view(op), args@, env@, ty, name),
    {
        proof {
            reveal(produced);
        }
        let x: Name = self.take_name(ty, name);
        let params: Vec<Name> = before(x, env);
        let env1: Vec<Name> = before(x, env);
        let frames: Vec<Frame> = then_frame(frames, Frame::Bind { op, args, params });
        Pre { frames, x, env: env1 }
    }

    /// An `extern` of one argument that produces one value.
    pub fn produces_from(&mut self, frames: Vec<Frame>, op: Extern, arg: Name, env: &Vec<Name>, ty: Option<Ty>, name: Option<Name>) -> (r: Pre)
        ensures
            r.with(final(self)@) == produced(old(self)@, frames_view(frames@), op_view(op), seq![arg], env@, ty, name),
    {
        let args: Vec<Name> = vec![arg];
        proof {
            assert(args@ =~= seq![arg]);
        }
        self.produces(frames, op, args, env, ty, name)
    }

    /// An `extern` of two arguments that produces one value.
    pub fn produces_from2(&mut self, frames: Vec<Frame>, op: Extern, a: Name, b: Name, env: &Vec<Name>, ty: Option<Ty>, name: Option<Name>) -> (r: Pre)
        ensures
            r.with(final(self)@) == produced(old(self)@, frames_view(frames@), op_view(op), seq![a, b], env@, ty, name),
    {
        let args: Vec<Name> = vec![a, b];
        proof {
            assert(args@ =~= seq![a, b]);
        }
        self.produces(frames, op, args, env, ty, name)
    }

    /// A data value, built and bound.
    pub fn builds(
        &mut self,
        frames: Vec<Frame>,
        ctor: Sym,
        tag: Tag,
        fields: Vec<Name>,
        env: &Vec<Name>,
        ty: Option<Ty>,
        name: Option<Name>,
    ) -> (r: Pre)
        ensures
            r.with(final(self)@) == built(old(self)@, frames_view(frames@), ctor, tag, fields@, env@, ty, name),
    {
        proof {
            reveal(built);
        }
        let x: Name = self.take_name(ty, name);
        let env1: Vec<Name> = before(x, env);
        let frames: Vec<Frame> = then_frame(frames, Frame::Build { name: x, tag, ctor, fields });
        Pre { frames, x, env: env1 }
    }

    /// An object, made and bound.
    pub fn makes(&mut self, captures: Vec<Name>, method: Block, env: &Vec<Name>, name: Option<Name>) -> (r: Pre)
        ensures
            r.with(final(self)@) == made(old(self)@, captures@, method@, env@, name),
    {
        proof {
            reveal(made);
        }
        let x: Name = match name {
            Some(n) => n,
            None => self.fresh_ref(),
        };
        let env1: Vec<Name> = before(x, env);
        let frames: Vec<Frame> = then_frame(no_frames(), Frame::Object { name: x, captures, method });
        proof {
            assert(frames_view(frames@) =~= seq![
                FrameV::Object { name: x, captures: captures@, method: method@ },
            ]);
        }
        Pre { frames, x, env: env1 }
    }
}

/// A second name for `subject`'s value, at the end of the environment.
pub open spec fn rename_v(subject: Name, name: Name, env: Seq<Name>) -> FrameV {
    FrameV::Rename { sel: env.push(subject), params: env.push(name) }
}

pub fn rename(subject: Name, name: Name, env: &Vec<Name>) -> (r: Frame)
    ensures
        r@ == rename_v(subject, name, env@),
{
    Frame::Rename { sel: after(env, subject), params: after(env, name) }
}

} // verus!
