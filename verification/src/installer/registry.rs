//! The user `PATH` of a Windows machine: one registry value, its entries parted
//! by semicolons.
//!
//! The value is read and written **raw**: it often holds entries like
//! `%JAVA_HOME%\bin`, and expanding those would bake the expansion in
//! permanently.

use crate::text::{cut, join_with, joined_by, lemma_cut_append, lemma_cut_whole, pieces, texts};
use vstd::prelude::*;

verus! {

/// `str::to_lowercase` of `s`.
pub uninterp spec fn lowercase(s: Seq<char>) -> Seq<char>;

/// `str::to_lowercase`: each character by the Unicode lower-case mapping, which
/// is a function of the text alone. What the mapping is of a given character is
/// not stated.
#[verifier::external_body]
fn to_lowercase(s: &str) -> (r: String)
    ensures
        r@ == lowercase(s@),
{
    s.to_lowercase()
}

/// The entries of a `PATH`: what its semicolons part, less what is empty.
pub open spec fn listed(value: Seq<char>) -> Seq<Seq<char>> {
    cut(value, ';').0.push(cut(value, ';').1).filter(|e: Seq<char>| e.len() > 0)
}

/// `s` without the slashes it ends with.
pub open spec fn unslashed(s: Seq<char>) -> Seq<char>
    decreases s.len(),
{
    if s.len() > 0 && (s.last() == '\\' || s.last() == '/') {
        unslashed(s.drop_last())
    } else {
        s
    }
}

/// Two paths name one directory: case means nothing, and neither do slashes at
/// the end.
pub open spec fn same_dir(a: Seq<char>, b: Seq<char>) -> bool {
    lowercase(unslashed(a)) == lowercase(unslashed(b))
}

/// `dir` is an entry of this `PATH`.
pub open spec fn lists(value: Seq<char>, dir: Seq<char>) -> bool {
    exists|i: int| 0 <= i < listed(value).len() && same_dir(#[trigger] listed(value)[i], dir)
}

/// The entries of this `PATH` but those that name `dir`.
pub open spec fn others(value: Seq<char>, dir: Seq<char>) -> Seq<Seq<char>> {
    listed(value).filter(|e: Seq<char>| !same_dir(e, dir))
}

/// The entries of a `PATH` that are not empty.
pub fn entries(value: &str) -> (r: Vec<String>)
    ensures
        texts(r@) == listed(value@),
{
    let cs: Vec<char> = crate::text::chars(value);
    let (mut all, last) = pieces(cs.as_slice(), ';');
    let ghost whole = texts(all@).push(last@);
    all.push(last);
    let ghost keep = |e: Seq<char>| e.len() > 0;
    let mut r: Vec<String> = Vec::new();
    let mut i: usize = 0;
    proof {
        reveal(Seq::filter);
        assert(texts(all@) =~= whole);
        assert(whole.take(0).filter(keep) =~= Seq::<Seq<char>>::empty());
        assert(texts(r@) =~= Seq::<Seq<char>>::empty());
    }
    while i < all.len()
        invariant
            i <= all.len(),
            texts(all@) == whole,
            keep == (|e: Seq<char>| e.len() > 0),
            texts(r@) == whole.take(i as int).filter(keep),
        decreases all.len() - i,
    {
        let ghost before = r@;
        proof {
            reveal(Seq::filter);
            assert(whole.take(i + 1).drop_last() =~= whole.take(i as int));
            assert(whole[i as int] == all@[i as int]@);
        }
        if all[i].as_str().unicode_len() > 0 {
            r.push(all[i].clone());
            proof {
                assert(texts(r@) =~= texts(before).push(whole[i as int]));
            }
        }
        i = i + 1;
    }
    proof {
        assert(whole.take(i as int) =~= whole);
    }
    r
}

/// Windows paths are case-insensitive, and a trailing slash means nothing.
pub fn eq_path(a: &str, b: &str) -> (r: bool)
    ensures
        r == same_dir(a@, b@),
{
    normal(a) == normal(b)
}

fn normal(s: &str) -> (r: String)
    ensures
        r@ == lowercase(unslashed(s@)),
{
    let mut cs: Vec<char> = crate::text::chars(s);
    while cs.len() > 0 && (cs[cs.len() - 1] == '\\' || cs[cs.len() - 1] == '/')
        invariant
            unslashed(cs@) == unslashed(s@),
        decreases cs.len(),
    {
        cs.pop();
    }
    to_lowercase(crate::text::text(cs.as_slice()).as_str())
}

fn any_names(all: &Vec<String>, dir: &str) -> (r: bool)
    ensures
        r == exists|i: int| 0 <= i < texts(all@).len() && same_dir(#[trigger] texts(all@)[i], dir@),
{
    let mut i: usize = 0;
    while i < all.len()
        invariant
            i <= all.len(),
            forall|j: int| 0 <= j < i ==> !same_dir(#[trigger] texts(all@)[j], dir@),
        decreases all.len() - i,
    {
        if eq_path(all[i].as_str(), dir) {
            assert(same_dir(texts(all@)[i as int], dir@));
            return true;
        }
        i = i + 1;
    }
    false
}

/// `value` with `dir` added, or nothing if it was already there.
pub fn add(value: &str, dir: &str) -> (r: Option<String>)
    ensures
        match r {
            None => lists(value@, dir@),
            Some(v) => !lists(value@, dir@) && v@ == joined_by(listed(value@).push(dir@), ';'),
        },
{
    let mut all: Vec<String> = entries(value);
    if any_names(&all, dir) {
        return None;
    }
    let ghost before = all@;
    all.push(dir.to_owned());
    proof {
        assert(texts(all@) =~= texts(before).push(dir@));
    }
    Some(join_with(all.as_slice(), ';'))
}

/// `value` with `dir` taken out, or nothing if it was not there -- in which case
/// the registry is left completely untouched.
pub fn remove(value: &str, dir: &str) -> (r: Option<String>)
    ensures
        match r {
            None => !lists(value@, dir@),
            Some(v) => lists(value@, dir@) && v@ == joined_by(others(value@, dir@), ';'),
        },
{
    let all: Vec<String> = entries(value);
    if !any_names(&all, dir) {
        return None;
    }
    let ghost whole = texts(all@);
    let ghost keep = |e: Seq<char>| !same_dir(e, dir@);
    let mut r: Vec<String> = Vec::new();
    let mut i: usize = 0;
    proof {
        reveal(Seq::filter);
        assert(whole.take(0).filter(keep) =~= Seq::<Seq<char>>::empty());
        assert(texts(r@) =~= Seq::<Seq<char>>::empty());
    }
    while i < all.len()
        invariant
            i <= all.len(),
            texts(all@) == whole,
            keep == (|e: Seq<char>| !same_dir(e, dir@)),
            texts(r@) == whole.take(i as int).filter(keep),
        decreases all.len() - i,
    {
        let ghost before = r@;
        proof {
            reveal(Seq::filter);
            assert(whole.take(i + 1).drop_last() =~= whole.take(i as int));
            assert(whole[i as int] == all@[i as int]@);
        }
        if !eq_path(all[i].as_str(), dir) {
            r.push(all[i].clone());
            proof {
                assert(texts(r@) =~= texts(before).push(whole[i as int]));
            }
        }
        i = i + 1;
    }
    proof {
        assert(whole.take(i as int) =~= whole);
    }
    Some(join_with(r.as_slice(), ';'))
}

/// Must the value be one whose `%VARS%` are expanded? An entry with them only
/// works from such a value; any other stays what it was.
pub fn must_expand(value: &str, expands: bool) -> (r: bool)
    ensures
        r == (expands || value@.contains('%')),
{
    let cs: Vec<char> = crate::text::chars(value);
    let mut i: usize = 0;
    while i < cs.len()
        invariant
            i <= cs.len(),
            cs@ == value@,
            forall|j: int| 0 <= j < i ==> cs@[j] != '%',
        decreases cs.len() - i,
    {
        if cs[i] == '%' {
            assert(value@[i as int] == '%');
            return true;
        }
        i = i + 1;
    }
    expands
}

/// The sixteen-bit units of some bytes, least byte first. A byte left over is
/// dropped.
pub fn as_u16(bytes: &[u8]) -> (r: Vec<u16>)
    ensures
        r@ == Seq::new(bytes@.len() / 2, |i: int| (bytes@[2 * i] + 256 * bytes@[2 * i + 1]) as u16),
{
    let mut r: Vec<u16> = Vec::new();
    let len: usize = bytes.len();
    let n: usize = len / 2;
    let mut i: usize = 0;
    while i < n
        invariant
            i <= n,
            n == len / 2,
            len == bytes@.len(),
            r@ == Seq::new(i as nat, |i: int| (bytes@[2 * i] + 256 * bytes@[2 * i + 1]) as u16),
        decreases n - i,
    {
        r.push(bytes[2 * i] as u16 + 256 * bytes[2 * i + 1] as u16);
        proof {
            assert(r@ =~= Seq::new((i + 1) as nat, |i: int| (bytes@[2 * i] + 256 * bytes@[2 * i + 1]) as u16));
        }
        i = i + 1;
    }
    r
}

/// An entry a `PATH` can hold: not empty, and with no semicolon in it.
pub open spec fn is_entry(e: Seq<char>) -> bool {
    e.len() > 0 && !e.contains(';')
}

proof fn lemma_filter_all<A>(s: Seq<A>, p: spec_fn(A) -> bool)
    requires
        forall|i: int| 0 <= i < s.len() ==> p(#[trigger] s[i]),
    ensures
        s.filter(p) == s,
    decreases s.len(),
{
    reveal(Seq::filter);
    if s.len() > 0 {
        lemma_filter_all(s.drop_last(), p);
        assert(s.drop_last().push(s.last()) =~= s);
    } else {
        assert(s.filter(p) =~= s);
    }
}

proof fn lemma_cut_entries(s: Seq<char>)
    ensures
        forall|i: int| 0 <= i < cut(s, ';').0.len() ==> !(#[trigger] cut(s, ';').0[i]).contains(';'),
        !cut(s, ';').1.contains(';'),
    decreases s.len(),
{
    if s.len() > 0 {
        lemma_cut_entries(s.drop_last());
        let rest = cut(s.drop_last(), ';').1;
        if s.last() != ';' {
            assert forall|i: int| 0 <= i < rest.push(s.last()).len() implies rest.push(s.last())[i] != ';' by {
                if i < rest.len() {
                    assert(rest.contains(rest[i]));
                }
            }
        }
    }
}

proof fn lemma_filter_members<A>(s: Seq<A>, p: spec_fn(A) -> bool)
    ensures
        forall|i: int| 0 <= i < s.filter(p).len() ==> p(#[trigger] s.filter(p)[i]) && s.contains(s.filter(p)[i]),
    decreases s.len(),
{
    reveal(Seq::filter);
    if s.len() > 0 {
        lemma_filter_members(s.drop_last(), p);
        assert forall|i: int| 0 <= i < s.filter(p).len() implies p(#[trigger] s.filter(p)[i]) && s.contains(
            s.filter(p)[i],
        ) by {
            let f = s.drop_last().filter(p);
            if i < f.len() {
                let j = choose|j: int| 0 <= j < s.drop_last().len() && s.drop_last()[j] == f[i];
                assert(s[j] == f[i]);
            } else {
                assert(s[s.len() - 1] == s.last());
            }
        }
    }
}

/// Every entry of a `PATH` is one it can hold.
pub proof fn listed_are_entries(value: Seq<char>)
    ensures
        forall|i: int| 0 <= i < listed(value).len() ==> is_entry(#[trigger] listed(value)[i]),
{
    lemma_cut_entries(value);
    let all = cut(value, ';').0.push(cut(value, ';').1);
    lemma_filter_members(all, |e: Seq<char>| e.len() > 0);
    assert forall|i: int| 0 <= i < listed(value).len() implies is_entry(#[trigger] listed(value)[i]) by {
        let e = listed(value)[i];
        let j = choose|j: int| 0 <= j < all.len() && all[j] == e;
        assert(!all[j].contains(';'));
    }
}

/// Entries put together are the entries of what they make.
pub proof fn entries_of_joined(all: Seq<Seq<char>>)
    requires
        forall|i: int| 0 <= i < all.len() ==> is_entry(#[trigger] all[i]),
    ensures
        listed(joined_by(all, ';')) == all,
    decreases all.len(),
{
    let keep = |e: Seq<char>| e.len() > 0;
    reveal(Seq::filter);
    if all.len() == 0 {
        assert(listed(Seq::<char>::empty()) =~= all) by {
            let one = Seq::<Seq<char>>::empty().push(Seq::<char>::empty());
            assert(one.drop_last() =~= Seq::<Seq<char>>::empty());
            assert(Seq::<Seq<char>>::empty().filter(keep) =~= Seq::<Seq<char>>::empty());
            assert(cut(Seq::<char>::empty(), ';').0.push(cut(Seq::<char>::empty(), ';').1) =~= one);
            assert(one.filter(keep) =~= Seq::<Seq<char>>::empty());
        }
    } else if all.len() == 1 {
        lemma_cut_whole(all[0], ';');
        let one = Seq::<Seq<char>>::empty().push(all[0]);
        assert(one =~= all);
        lemma_filter_all(all, keep);
    } else {
        let before = all.drop_last();
        entries_of_joined(before);
        let a = joined_by(before, ';');
        lemma_cut_append(a, all.last(), ';');
        lemma_cut_whole(all.last(), ';');
        let pieces = cut(a, ';').0.push(cut(a, ';').1);
        assert(pieces + Seq::<Seq<char>>::empty() =~= pieces);
        assert(pieces.push(all.last()).drop_last() =~= pieces);
        assert(listed(joined_by(all, ';')) == pieces.filter(keep).push(all.last()));
        assert(before.push(all.last()) =~= all);
    }
}

/// Adding a directory makes it the last entry and changes no other.
pub proof fn adding_appends(value: Seq<char>, dir: Seq<char>)
    requires
        is_entry(dir),
    ensures
        listed(joined_by(listed(value).push(dir), ';')) == listed(value).push(dir),
{
    listed_are_entries(value);
    entries_of_joined(listed(value).push(dir));
}

/// Adding twice adds once: the second time it is already there.
pub proof fn adding_twice_adds_once(value: Seq<char>, dir: Seq<char>)
    requires
        is_entry(dir),
    ensures
        lists(joined_by(listed(value).push(dir), ';'), dir),
{
    adding_appends(value, dir);
    assert(listed(value).push(dir)[listed(value).len() as int] == dir);
}

/// Taking out what was added leaves the entries there were, each as it was
/// written.
pub proof fn removing_undoes_adding(value: Seq<char>, dir: Seq<char>)
    requires
        is_entry(dir),
        !lists(value, dir),
    ensures
        others(joined_by(listed(value).push(dir), ';'), dir) == listed(value),
{
    adding_appends(value, dir);
    let keep = |e: Seq<char>| !same_dir(e, dir);
    reveal(Seq::filter);
    assert(listed(value).push(dir).drop_last() =~= listed(value));
    lemma_filter_all(listed(value), keep);
}

} // verus!
