//! Records on the machine: what putting, making, selecting and extending do, by label.

use super::equal::{field_at, field_of};
use super::laws::{all_hold, lemma_entered, lemma_looked, produces};
use super::state::S;
use super::trans::{labelled, put_label, stepped};
use super::value::ValueV;
use crate::seq::ir::{Block, Extern, Name, Program, Statement};
use crate::terms::symbol::Sym;
use vstd::prelude::*;

verus! {

/// A record's fields are in the order of their labels.
pub open spec fn in_order(fs: Seq<(Sym, ValueV)>) -> bool {
    forall|i: int, j: int| 0 <= i < j < fs.len() ==> (#[trigger] fs[i]).0 < (#[trigger] fs[j]).0
}

/// A record has field `l`, and it is `v`.
pub open spec fn has(fs: Seq<(Sym, ValueV)>, l: Sym, v: ValueV) -> bool {
    exists|i: int| 0 <= i < fs.len() && #[trigger] fs[i] == (l, v)
}

/// A field put into a record is there, over what was there of its label; every other field
/// stays, and nothing else comes.
pub proof fn a_label_put_is_there(fs: Seq<(Sym, ValueV)>, l: Sym, v: ValueV)
    requires
        in_order(fs),
    ensures
        in_order(put_label(fs, l, v)),
        forall|k: Sym, w: ValueV| #[trigger]
            has(put_label(fs, l, v), k, w) <==> (if k == l {
                w == v
            } else {
                has(fs, k, w)
            }),
        forall|i: int|
            0 <= i < put_label(fs, l, v).len() ==> (#[trigger] put_label(fs, l, v)[i]).0 == l || exists|j: int|
                0 <= j < fs.len() && (#[trigger] fs[j]).0 == put_label(fs, l, v)[i].0,
    decreases fs.len(),
{
    let out = put_label(fs, l, v);
    if fs.len() == 0 || fs.last().0 < l {
        assert(out == fs.push((l, v)));
        assert forall|i: int, j: int| 0 <= i < j < out.len() implies (#[trigger] out[i]).0 < (#[trigger] out[j]).0 by {
            if j == fs.len() && i < fs.len() - 1 {
                assert(fs[i].0 < fs[fs.len() - 1].0);
            }
        }
        assert forall|k: Sym, w: ValueV| #[trigger]
            has(out, k, w) <==> (if k == l {
                w == v
            } else {
                has(fs, k, w)
            }) by {
            if has(out, k, w) {
                let i = choose|i: int| 0 <= i < out.len() && #[trigger] out[i] == (k, w);
                if i < fs.len() {
                    assert(fs[i] == (k, w));
                    if i < fs.len() - 1 {
                        assert(fs[i].0 < fs[fs.len() - 1].0);
                    }
                }
            }
            if k == l && w == v {
                assert(out[fs.len() as int] == (l, v));
            }
            if k != l && has(fs, k, w) {
                let i = choose|i: int| 0 <= i < fs.len() && #[trigger] fs[i] == (k, w);
                assert(out[i] == (k, w));
            }
        }
    } else {
        let front = fs.drop_last();
        let last = fs.last();
        assert forall|i: int, j: int| 0 <= i < j < front.len() implies (#[trigger] front[i]).0 < (#[trigger] front[j]).0 by {
            assert(fs[i].0 < fs[j].0);
        }
        let inner = if last.0 == l {
            front
        } else {
            put_label(front, l, v)
        };
        let end = if last.0 == l {
            (l, v)
        } else {
            last
        };
        if last.0 != l {
            a_label_put_is_there(front, l, v);
        }
        assert(out == inner.push(end));
        assert forall|i: int| 0 <= i < inner.len() implies (#[trigger] inner[i]).0 < end.0 by {
            if last.0 == l {
                assert(fs[i].0 < fs[fs.len() - 1].0);
            } else if inner[i].0 != l {
                let j = choose|j: int| 0 <= j < front.len() && (#[trigger] front[j]).0 == inner[i].0;
                assert(fs[j].0 < fs[fs.len() - 1].0);
            }
        }
        assert forall|i: int, j: int| 0 <= i < j < out.len() implies (#[trigger] out[i]).0 < (#[trigger] out[j]).0 by {
            if j < inner.len() {
                assert(out[i] == inner[i] && out[j] == inner[j]);
            } else {
                assert(out[i] == inner[i]);
            }
        }
        assert forall|k: Sym, w: ValueV| #[trigger]
            has(out, k, w) <==> (if k == l {
                w == v
            } else {
                has(fs, k, w)
            }) by {
            if has(out, k, w) {
                let i = choose|i: int| 0 <= i < out.len() && #[trigger] out[i] == (k, w);
                if i < inner.len() {
                    assert(inner[i] == (k, w));
                    if last.0 == l {
                        assert(fs[i] == (k, w));
                        assert(inner[i].0 < end.0);
                    } else {
                        assert(has(inner, k, w));
                        if k != l {
                            assert(has(front, k, w));
                            let j = choose|j: int| 0 <= j < front.len() && #[trigger] front[j] == (k, w);
                            assert(fs[j] == (k, w));
                        }
                    }
                } else if last.0 != l {
                    assert(fs[fs.len() - 1] == (k, w));
                }
            }
            if k == l && w == v {
                if last.0 == l {
                    assert(out[inner.len() as int] == (l, v));
                } else {
                    assert(has(inner, l, v));
                    let i = choose|i: int| 0 <= i < inner.len() && #[trigger] inner[i] == (l, v);
                    assert(out[i] == (l, v));
                }
            }
            if k != l && has(fs, k, w) {
                let i = choose|i: int| 0 <= i < fs.len() && #[trigger] fs[i] == (k, w);
                if i < front.len() {
                    assert(front[i] == (k, w));
                    if last.0 == l {
                        assert(out[i] == (k, w));
                    } else {
                        assert(has(front, k, w));
                        assert(has(inner, k, w));
                        let j = choose|j: int| 0 <= j < inner.len() && #[trigger] inner[j] == (k, w);
                        assert(out[j] == (k, w));
                    }
                } else {
                    assert(out[inner.len() as int] == (k, w));
                }
            }
        }
        assert forall|i: int| 0 <= i < out.len() implies (#[trigger] out[i]).0 == l || exists|j: int|
            0 <= j < fs.len() && (#[trigger] fs[j]).0 == out[i].0 by {
            if i < inner.len() {
                assert(out[i] == inner[i]);
                if last.0 == l {
                    assert(fs[i].0 == out[i].0);
                } else if inner[i].0 != l {
                    let j = choose|j: int| 0 <= j < front.len() && (#[trigger] front[j]).0 == inner[i].0;
                    assert(fs[j].0 == out[i].0);
                }
            } else {
                assert(fs[fs.len() - 1].0 == out[i].0 || out[i].0 == l);
            }
        }
    }
}

/// Looking a label up finds its field.
pub proof fn a_field_is_found_by_its_label(fs: Seq<(Sym, ValueV)>, l: Sym, v: ValueV)
    requires
        in_order(fs),
        has(fs, l, v),
    ensures
        field_of(fs, l) == Some(v),
{
    let i = choose|i: int| 0 <= i < fs.len() && #[trigger] fs[i] == (l, v);
    assert forall|j: int| 0 <= j < i implies (#[trigger] fs[j]).0 != l by {
        assert(fs[j].0 < fs[i].0);
    }
    lemma_field_at(fs, l, 0, i);
}

proof fn lemma_field_at(fs: Seq<(Sym, ValueV)>, l: Sym, from: nat, i: int)
    requires
        from <= i < fs.len(),
        fs[i].0 == l,
        forall|j: int| from <= j < i ==> (#[trigger] fs[j]).0 != l,
    ensures
        field_at(fs, l, from) == i,
    decreases i - from,
{
    if from < i {
        lemma_field_at(fs, l, from + 1, i);
    }
}

/// The first `n` of some labels given values: each label has the last value given it, and
/// no other label has any.
pub open spec fn last_given(ls: Seq<Sym>, vs: Seq<ValueV>, n: nat, l: Sym, v: ValueV) -> bool {
    exists|i: int|
        0 <= i < n && #[trigger] ls[i] == l && vs[i] == v && forall|j: int| i < j < n ==> #[trigger] ls[j] != l
}

/// A record made of labels and values has, of each label, the last value given it.
pub proof fn a_record_has_what_its_labels_were_given(ls: Seq<Sym>, vs: Seq<ValueV>, n: nat)
    requires
        n <= ls.len(),
        ls.len() == vs.len(),
    ensures
        in_order(labelled(ls, vs, n)),
        forall|l: Sym, v: ValueV| #[trigger] has(labelled(ls, vs, n), l, v) <==> last_given(ls, vs, n, l, v),
    decreases n,
{
    if n > 0 {
        let k = (n - 1) as nat;
        let fs = labelled(ls, vs, k);
        a_record_has_what_its_labels_were_given(ls, vs, k);
        a_label_put_is_there(fs, ls[n - 1], vs[n - 1]);
        let out = labelled(ls, vs, n);
        assert forall|l: Sym, v: ValueV| #[trigger] has(out, l, v) <==> last_given(ls, vs, n, l, v) by {
            if has(out, l, v) {
                if l == ls[n - 1] {
                    assert(ls[n - 1] == l);
                } else {
                    assert(has(fs, l, v));
                    assert(last_given(ls, vs, k, l, v));
                    let i = choose|i: int|
                        0 <= i < k && #[trigger] ls[i] == l && vs[i] == v && forall|j: int|
                            i < j < k ==> #[trigger] ls[j] != l;
                    assert(ls[i] == l);
                    assert forall|j: int| i < j < n implies #[trigger] ls[j] != l by {}
                }
            }
            if last_given(ls, vs, n, l, v) {
                let i = choose|i: int|
                    0 <= i < n && #[trigger] ls[i] == l && vs[i] == v && forall|j: int|
                        i < j < n ==> #[trigger] ls[j] != l;
                if i < n - 1 {
                    assert(ls[n - 1] != l);
                    assert(ls[i] == l);
                    assert(last_given(ls, vs, k, l, v));
                    assert(has(fs, l, v));
                }
            }
        }
    }
}

/// Making a record hands its block one that has, of each label, the last value given it.
pub proof fn a_record_is_made_of_its_labels(
    p: Program,
    s: S,
    ls: Vec<Sym>,
    args: Vec<Name>,
    blocks: Vec<Block>,
    vs: Seq<ValueV>,
) -> (fs: Seq<(Sym, ValueV)>)
    requires
        s.stmt == (Statement::Extern { op: Extern::Record(ls), args, blocks }),
        blocks@.len() == 1,
        blocks@[0].params@.len() == s.env.len() + 1,
        all_hold(s, args@, vs),
        ls@.len() == vs.len(),
    ensures
        produces(p, s, stepped(p, s), blocks@[0], ValueV::Record(fs)),
        in_order(fs),
        forall|l: Sym, v: ValueV| #[trigger] has(fs, l, v) <==> last_given(ls@, vs, vs.len(), l, v),
{
    reveal(stepped);
    lemma_looked(p, s, args@, vs);
    let fs = labelled(ls@, vs, ls@.len());
    a_record_has_what_its_labels_were_given(ls@, vs, ls@.len());
    lemma_entered(p, s, blocks@[0], seq![ValueV::Record(fs)] + s.env);
    fs
}

/// Selecting a label hands its block the record's field of that label.
pub proof fn a_selection_gives_the_field(
    p: Program,
    s: S,
    l: Sym,
    args: Vec<Name>,
    blocks: Vec<Block>,
    fs: Seq<(Sym, ValueV)>,
    v: ValueV,
)
    requires
        s.stmt == (Statement::Extern { op: Extern::Select(l), args, blocks }),
        blocks@.len() == 1,
        blocks@[0].params@.len() == s.env.len() + 1,
        all_hold(s, args@, seq![ValueV::Record(fs)]),
        in_order(fs),
        has(fs, l, v),
    ensures
        produces(p, s, stepped(p, s), blocks@[0], v),
{
    reveal(stepped);
    lemma_looked(p, s, args@, seq![ValueV::Record(fs)]);
    a_field_is_found_by_its_label(fs, l, v);
    lemma_entered(p, s, blocks@[0], seq![v] + s.env);
}

/// Extending a record hands its block one that has the value under the label, and every
/// other field as it was.
pub proof fn an_extension_has_the_field(
    p: Program,
    s: S,
    l: Sym,
    args: Vec<Name>,
    blocks: Vec<Block>,
    fs: Seq<(Sym, ValueV)>,
    v: ValueV,
) -> (gs: Seq<(Sym, ValueV)>)
    requires
        s.stmt == (Statement::Extern { op: Extern::Extend(l), args, blocks }),
        blocks@.len() == 1,
        blocks@[0].params@.len() == s.env.len() + 1,
        all_hold(s, args@, seq![ValueV::Record(fs), v]),
        in_order(fs),
    ensures
        produces(p, s, stepped(p, s), blocks@[0], ValueV::Record(gs)),
        in_order(gs),
        forall|k: Sym, w: ValueV| #[trigger]
            has(gs, k, w) <==> (if k == l {
                w == v
            } else {
                has(fs, k, w)
            }),
{
    reveal(stepped);
    lemma_looked(p, s, args@, seq![ValueV::Record(fs), v]);
    let gs = put_label(fs, l, v);
    a_label_put_is_there(fs, l, v);
    lemma_entered(p, s, blocks@[0], seq![ValueV::Record(gs)] + s.env);
    gs
}

} // verus!
