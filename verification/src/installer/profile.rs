//! The shell profiles of a Unix machine: a line in each that sources a file
//! which puts the `bin` directory on the `PATH`.

use super::names::{env_file, join, joined, System};
use crate::text::{
    cut, drop_trailing_space, holds, is_space, join_with, joined_by, lemma_cut_append, lemma_cut_joins,
    lemma_cut_part, lemma_cut_whole, pieces, same, skip_space, stands_at, texts, trim_end, trim_start,
};
use vstd::prelude::*;

verus! {

/// What a profile says above the line it sources with.
pub const MARK: &'static str = "# added by the meadow installer";

/// The profiles a login or interactive shell reads. All of them that exist are
/// edited: which one is read depends on the shell and on how it was started,
/// and adding a line to each is cheaper than being wrong.
pub fn profiles_in(home: &str) -> (r: Vec<String>)
    ensures
        texts(r@) == seq![
            joined(System::Unix, home@, ".profile"@),
            joined(System::Unix, home@, ".bash_profile"@),
            joined(System::Unix, home@, ".bashrc"@),
            joined(System::Unix, home@, ".zshenv"@),
        ],
{
    let mut r: Vec<String> = Vec::new();
    r.push(join(System::Unix, home, ".profile"));
    r.push(join(System::Unix, home, ".bash_profile"));
    r.push(join(System::Unix, home, ".bashrc"));
    r.push(join(System::Unix, home, ".zshenv"));
    proof {
        assert(texts(r@) =~= seq![
            joined(System::Unix, home@, ".profile"@),
            joined(System::Unix, home@, ".bash_profile"@),
            joined(System::Unix, home@, ".bashrc"@),
            joined(System::Unix, home@, ".zshenv"@),
        ]);
    }
    r
}

/// The file the profiles source: what the removal looks for.
pub open spec fn marker(home: Seq<char>) -> Seq<char> {
    joined(System::Unix, home, "env"@)
}

/// The line a profile carries.
pub open spec fn sourcing(home: Seq<char>) -> Seq<char> {
    ". \""@ + marker(home) + "\""@
}

/// The line a profile carries. It names the env file.
pub fn source_line(home: &str) -> (r: String)
    ensures
        r@ == sourcing(home@),
{
    let mut r: String = ". \"".to_owned();
    r.append(env_file(System::Unix, home).as_str());
    r.append("\"");
    r
}

/// The file the profiles source.
pub open spec fn env_of(bin: Seq<char>) -> Seq<char> {
    "#!/bin/sh\n# Adds meadow to PATH. Sourced from your shell profile.\ncase \":${PATH}:\" in\n    *:\""@ + bin
        + "\":*) ;;\n    *) export PATH=\""@ + bin + ":$PATH\" ;;\nesac\n"@
}

/// The text of the file the profiles source.
///
/// It guards against adding the directory twice, so re-sourcing it -- which a
/// shell does on every new terminal -- does not grow `PATH`.
pub fn env_text(bin: &str) -> (r: String)
    ensures
        r@ == env_of(bin@),
{
    let mut r: String =
        "#!/bin/sh\n# Adds meadow to PATH. Sourced from your shell profile.\ncase \":${PATH}:\" in\n    *:\"".to_owned();
    r.append(bin);
    r.append("\":*) ;;\n    *) export PATH=\"");
    r.append(bin);
    r.append(":$PATH\" ;;\nesac\n");
    r
}

/// `had` with the line added, after a blank one.
pub open spec fn with_line(had: Seq<char>, home: Seq<char>) -> Seq<char> {
    had + "\n"@ + MARK@ + "\n"@ + sourcing(home) + "\n"@
}

/// A profile that holds the line and nothing else.
pub open spec fn only_line(home: Seq<char>) -> Seq<char> {
    MARK@ + "\n"@ + sourcing(home) + "\n"@
}

/// A line without the carriage return it ends with.
pub open spec fn uncarriaged(l: Seq<char>) -> Seq<char> {
    if l.len() > 0 && l.last() == '\r' {
        l.drop_last()
    } else {
        l
    }
}

/// The lines of a text.
pub open spec fn lines(s: Seq<char>) -> Seq<Seq<char>> {
    let (done, rest) = cut(s, '\n');
    let ended = done.map_values(|l: Seq<char>| uncarriaged(l));
    if rest.len() == 0 {
        ended
    } else {
        ended.push(rest)
    }
}

/// A line the removal keeps: not one that names the file, nor the one above it.
pub open spec fn stays(l: Seq<char>, home: Seq<char>) -> bool {
    !holds(l, marker(home)) && trim_end(trim_start(l)) != MARK@
}

/// `had` without the line, and ending in one newline.
pub open spec fn without_line(had: Seq<char>, home: Seq<char>) -> Seq<char> {
    trim_end(joined_by(lines(had).filter(|l: Seq<char>| stays(l, home)), '\n')).push('\n')
}

fn holds_marker(had: &str, home: &str) -> (r: bool)
    ensures
        r == holds(had@, marker(home@)),
{
    let m: Vec<char> = crate::text::chars(env_file(System::Unix, home).as_str());
    let cs: Vec<char> = crate::text::chars(had);
    let found: Option<usize> = crate::text::find(cs.as_slice(), m.as_slice());
    found.is_some()
}

/// A profile as it is on disk.
pub struct Profile {
    /// Something is there.
    pub exists: bool,
    /// It is a file.
    pub is_file: bool,
    /// What it holds.
    pub text: String,
}

/// Profile `p` is one a line is added to.
pub open spec fn wants_line(p: Profile, home: Seq<char>) -> bool {
    p.is_file && !holds(p.text@, marker(home))
}

/// There is no profile at all, and nothing where the first would be.
pub open spec fn bare(profiles: Seq<Profile>) -> bool {
    &&& profiles.len() > 0 ==> !profiles[0].exists
    &&& forall|i: int| 0 <= i < profiles.len() ==> !(#[trigger] profiles[i]).is_file
}

/// What each profile is written with: the line added to every one that exists
/// and lacks it, and the first of them made when there is none at all.
pub open spec fn added(profiles: Seq<Profile>, home: Seq<char>) -> Seq<Option<Seq<char>>> {
    Seq::new(
        profiles.len(),
        |i: int|
            if wants_line(profiles[i], home) {
                Some(with_line(profiles[i].text@, home))
            } else if i == 0 && bare(profiles) {
                Some(only_line(home))
            } else {
                None
            },
    )
}

/// The text of each of some optional strings.
pub open spec fn texts_or(v: Seq<Option<String>>) -> Seq<Option<Seq<char>>> {
    v.map_values(
        |o: Option<String>|
            match o {
                Some(s) => Some(s@),
                None => None,
            },
    )
}

/// What to write to each profile, for the `bin` directory of `home` to be on
/// the `PATH` of a new shell: nothing to one that has the line already. The first
/// is made only where there is no profile at all.
pub fn add(home: &str, profiles: &Vec<Profile>) -> (r: Vec<Option<String>>)
    ensures
        texts_or(r@) == added(profiles@, home@),
{
    let mut r: Vec<Option<String>> = Vec::new();
    let mut found: bool = false;
    let mut i: usize = 0;
    while i < profiles.len()
        invariant
            i <= profiles.len(),
            r.len() == i,
            found == exists|j: int| 0 <= j < i && (#[trigger] profiles@[j]).is_file,
            forall|j: int|
                0 <= j < i ==> #[trigger] texts_or(r@)[j] == (if wants_line(profiles@[j], home@) {
                    Some(with_line(profiles@[j].text@, home@))
                } else {
                    None
                }),
        decreases profiles.len() - i,
    {
        let ghost before = r@;
        let p: &Profile = &profiles[i];
        if p.is_file && !holds_marker(p.text.as_str(), home) {
            let mut t: String = p.text.clone();
            t.append("\n");
            t.append(MARK);
            t.append("\n");
            t.append(source_line(home).as_str());
            t.append("\n");
            r.push(Some(t));
        } else {
            r.push(None);
        }
        if p.is_file {
            found = true;
            assert(profiles@[i as int].is_file);
        }
        proof {
            assert(texts_or(r@).take(i as int) =~= texts_or(before));
            assert forall|j: int| 0 <= j < i + 1 implies #[trigger] texts_or(r@)[j] == (if wants_line(
                profiles@[j],
                home@,
            ) {
                Some(with_line(profiles@[j].text@, home@))
            } else {
                None
            }) by {
                if j < i {
                    assert(texts_or(r@)[j] == texts_or(before)[j]);
                }
            }
        }
        i = i + 1;
    }
    let ghost lined = texts_or(r@);
    if !found && profiles.len() > 0 && !profiles[0].exists {
        let mut t: String = MARK.to_owned();
        t.append("\n");
        t.append(source_line(home).as_str());
        t.append("\n");
        r.set(0, Some(t));
    }
    proof {
        let want = added(profiles@, home@);
        assert(r@.len() == want.len());
        assert forall|j: int| 0 <= j < want.len() implies #[trigger] texts_or(r@)[j] == want[j] by {
            if j > 0 || found || profiles@[0].exists {
                assert(texts_or(r@)[j] == lined[j]);
            } else {
                assert(!profiles@[0].is_file);
            }
        }
        assert(texts_or(r@) =~= want);
    }
    r
}

/// `had` without the line, or nothing where it does not have it.
pub fn remove(home: &str, had: &str) -> (r: Option<String>)
    ensures
        match r {
            None => !holds(had@, marker(home@)),
            Some(t) => holds(had@, marker(home@)) && t@ == without_line(had@, home@),
        },
{
    if !holds_marker(had, home) {
        return None;
    }
    let cs: Vec<char> = crate::text::chars(had);
    let (done, rest) = pieces(cs.as_slice(), '\n');
    let ghost whole = lines(had@);
    let ghost keep = |l: Seq<char>| stays(l, home@);
    let mut kept: Vec<String> = Vec::new();
    let mut i: usize = 0;
    proof {
        reveal(Seq::filter);
        assert(whole.take(0).filter(keep) =~= Seq::<Seq<char>>::empty());
        assert(texts(kept@) =~= Seq::<Seq<char>>::empty());
    }
    while i < done.len()
        invariant
            i <= done.len(),
            texts(done@) == cut(had@, '\n').0,
            whole == lines(had@),
            keep == (|l: Seq<char>| stays(l, home@)),
            texts(kept@) == whole.take(i as int).filter(keep),
        decreases done.len() - i,
    {
        let l: String = without_carriage(done[i].as_str());
        proof {
            assert(texts(done@)[i as int] == done@[i as int]@);
            assert(whole[i as int] == l@);
        }
        keep_line(&mut kept, l, home, Ghost(whole), Ghost(i as int));
        i = i + 1;
    }
    if rest.as_str().unicode_len() > 0 {
        proof {
            assert(whole[i as int] == rest@);
        }
        keep_line(&mut kept, rest, home, Ghost(whole), Ghost(i as int));
        proof {
            assert(whole.take(i + 1) =~= whole);
        }
    } else {
        proof {
            assert(whole.take(i as int) =~= whole);
        }
    }
    let mut text: Vec<char> = crate::text::chars(join_with(kept.as_slice(), '\n').as_str());
    drop_trailing_space(&mut text);
    text.push('\n');
    Some(crate::text::text(text.as_slice()))
}

fn without_carriage(l: &str) -> (r: String)
    ensures
        r@ == uncarriaged(l@),
{
    let mut cs: Vec<char> = crate::text::chars(l);
    if cs.len() > 0 && cs[cs.len() - 1] == '\r' {
        cs.pop();
        proof {
            assert(cs@ =~= l@.drop_last());
        }
    }
    crate::text::text(cs.as_slice())
}

/// Keep line `l`, the `i`th of `all`, if it stays.
fn keep_line(kept: &mut Vec<String>, l: String, home: &str, Ghost(all): Ghost<Seq<Seq<char>>>, Ghost(i): Ghost<int>)
    requires
        0 <= i < all.len(),
        all[i] == l@,
        texts(old(kept)@) == all.take(i).filter(|l: Seq<char>| stays(l, home@)),
    ensures
        texts(final(kept)@) == all.take(i + 1).filter(|l: Seq<char>| stays(l, home@)),
{
    let ghost before = kept@;
    proof {
        reveal(Seq::filter);
        assert(all.take(i + 1).drop_last() =~= all.take(i));
    }
    let mut trimmed: Vec<char> = crate::text::chars(l.as_str());
    let from: usize = skip_space(trimmed.as_slice(), 0);
    proof {
        assert(trimmed@.skip(0) =~= trimmed@);
    }
    let mut middle: Vec<char> = trimmed.split_off(from);
    proof {
        assert(middle@ =~= l@.skip(from as int));
    }
    drop_trailing_space(&mut middle);
    let core: String = crate::text::text(middle.as_slice());
    let ghost piece = l@;
    if !holds_marker(l.as_str(), home) && !same(core.as_str(), MARK) {
        kept.push(l);
        proof {
            assert(texts(kept@) =~= texts(before).push(piece));
        }
    }
}

/// A profile as a person leaves one: it ends in one newline after something that
/// is not blank, and says nothing of Meadow yet.
pub open spec fn untouched(had: Seq<char>, home: Seq<char>) -> bool {
    &&& had.len() > 0
    &&& had.last() == '\n'
    &&& had.len() > 1 ==> !is_space(had[had.len() - 2])
    &&& !had.contains('\r')
    &&& !holds(had, marker(home))
    &&& forall|i: int| 0 <= i < lines(had).len() ==> trim_end(trim_start(#[trigger] lines(had)[i])) != MARK@
}

/// The name of a directory that fits on a line.
pub open spec fn on_one_line(home: Seq<char>) -> bool {
    !home.contains('\n')
}

proof fn lemma_filter_append<A>(a: Seq<A>, b: Seq<A>, p: spec_fn(A) -> bool)
    ensures
        (a + b).filter(p) == a.filter(p) + b.filter(p),
    decreases b.len(),
{
    reveal(Seq::filter);
    if b.len() == 0 {
        assert(a + b =~= a);
        assert(a.filter(p) + b.filter(p) =~= a.filter(p));
    } else {
        assert((a + b).drop_last() =~= a + b.drop_last());
        lemma_filter_append(a, b.drop_last(), p);
        assert(a.filter(p) + b.filter(p) =~= (if p(b.last()) {
            (a.filter(p) + b.drop_last().filter(p)).push(b.last())
        } else {
            a.filter(p) + b.drop_last().filter(p)
        }));
    }
}

proof fn lemma_filter_keeps<A>(s: Seq<A>, p: spec_fn(A) -> bool)
    requires
        forall|i: int| 0 <= i < s.len() ==> p(#[trigger] s[i]),
    ensures
        s.filter(p) == s,
    decreases s.len(),
{
    reveal(Seq::filter);
    if s.len() > 0 {
        lemma_filter_keeps(s.drop_last(), p);
        assert(s.drop_last().push(s.last()) =~= s);
    } else {
        assert(s.filter(p) =~= s);
    }
}

/// A text with no carriage return has no line with one.
proof fn lemma_cut_no_carriage(s: Seq<char>)
    requires
        !s.contains('\r'),
    ensures
        cut(s, '\n').0.map_values(|l: Seq<char>| uncarriaged(l)) == cut(s, '\n').0,
        !cut(s, '\n').1.contains('\r'),
    decreases s.len(),
{
    if s.len() > 0 {
        assert(s.contains(s.last()));
        assert(!s.drop_last().contains('\r')) by {
            if s.drop_last().contains('\r') {
                let i = choose|i: int| 0 <= i < s.drop_last().len() && s.drop_last()[i] == '\r';
                assert(s[i] == '\r');
            }
        }
        lemma_cut_no_carriage(s.drop_last());
        let (done, rest) = cut(s.drop_last(), '\n');
        if s.last() == '\n' {
            if rest.len() > 0 {
                assert(rest.contains(rest.last()));
            }
            assert(done.push(rest).map_values(|l: Seq<char>| uncarriaged(l)) =~= done.map_values(
                |l: Seq<char>| uncarriaged(l),
            ).push(uncarriaged(rest)));
        } else {
            assert forall|i: int| 0 <= i < rest.push(s.last()).len() implies rest.push(s.last())[i] != '\r' by {
                if i < rest.len() {
                    assert(rest.contains(rest[i]));
                }
            }
        }
    } else {
        assert(cut(s, '\n').0.map_values(|l: Seq<char>| uncarriaged(l)) =~= cut(s, '\n').0);
    }
}

proof fn lemma_mark()
    ensures
        !MARK@.contains('\n'),
        !MARK@.contains('\r'),
        trim_end(trim_start(MARK@)) == MARK@,
{
    reveal_strlit("# added by the meadow installer");
    assert(!is_space(MARK@[0]));
    assert(!is_space(MARK@.last()));
}

proof fn lemma_sourcing_holds(home: Seq<char>)
    ensures
        holds(sourcing(home), marker(home)),
        sourcing(home).len() > 0,
        sourcing(home).last() == '"',
{
    reveal_strlit(". \"");
    reveal_strlit("\"");
    let m = marker(home);
    let s = sourcing(home);
    assert(s.subrange(3, 3int + m.len()) =~= m);
    assert(stands_at(s, m, 3));
}

proof fn lemma_sourcing(home: Seq<char>)
    requires
        on_one_line(home),
    ensures
        !sourcing(home).contains('\n'),
{
    reveal_strlit(". \"");
    reveal_strlit("\"");
    reveal_strlit("env");
    let m = marker(home);
    let s = sourcing(home);
    assert forall|i: int| 0 <= i < m.len() implies m[i] != '\n' by {
        if i < home.len() {
            assert(home.contains(home[i]));
            assert(m[i] == home[i]);
        }
    }
    assert forall|i: int| 0 <= i < s.len() implies s[i] != '\n' by {
        if 3 <= i < 3 + m.len() {
            assert(s[i] == m[i - 3]);
        }
    }
}

/// Removing what was added leaves the profile as it was.
pub proof fn removing_leaves_the_profile_as_it_was(had: Seq<char>, home: Seq<char>)
    requires
        untouched(had, home),
        on_one_line(home),
    ensures
        without_line(with_line(had, home), home) == had,
{
    reveal_strlit("\n");
    let keep = |l: Seq<char>| stays(l, home);
    let none = Seq::<Seq<char>>::empty();
    let blank = Seq::<char>::empty();
    let done = cut(had, '\n').0;
    let line = sourcing(home);
    lemma_mark();
    lemma_sourcing(home);
    lemma_sourcing_holds(home);
    lemma_cut_whole(MARK@, '\n');
    lemma_cut_whole(line, '\n');
    lemma_cut_joins(had, '\n');
    lemma_cut_part(had, '\n', marker(home));
    lemma_cut_no_carriage(had);
    // The profile ends where a line does, so nothing is left over.
    assert(cut(had, '\n').1 == blank);
    assert(done.len() > 0);
    // What is added is three lines more.
    let tail = MARK@.push('\n') + line.push('\n');
    let end = line.push('\n') + blank;
    assert(end =~= line.push('\n'));
    lemma_cut_append(line, blank, '\n');
    lemma_cut_append(MARK@, line.push('\n'), '\n');
    lemma_cut_append(had, tail, '\n');
    assert(with_line(had, home) =~= had.push('\n') + tail);
    let three = seq![blank, MARK@, line];
    assert(cut(with_line(had, home), '\n').0 =~= done + three);
    assert(cut(with_line(had, home), '\n').1 == blank);
    let all = (done + three).map_values(|l: Seq<char>| uncarriaged(l));
    assert(uncarriaged(MARK@) == MARK@) by {
        if MARK@.len() > 0 {
            assert(MARK@.contains(MARK@.last()));
        }
    }
    assert(uncarriaged(line) == line);
    assert(all =~= done + three) by {
        assert(done.map_values(|l: Seq<char>| uncarriaged(l)) == done);
        assert forall|i: int| 0 <= i < all.len() implies all[i] == (done + three)[i] by {
            if i < done.len() {
                assert(done.map_values(|l: Seq<char>| uncarriaged(l))[i] == uncarriaged(done[i]));
            }
        }
    }
    assert(lines(with_line(had, home)) == done + three);
    assert(lines(had) == done);
    // Of those only the blank one stays, and every line there was.
    assert(!holds(blank, marker(home))) by {
        reveal_strlit("env");
        assert(marker(home).len() >= 3);
    }
    assert(trim_end(trim_start(blank)) == blank);
    assert(blank != MARK@) by {
        reveal_strlit("# added by the meadow installer");
    }
    lemma_filter_append(done, three, keep);
    lemma_filter_keeps(done, keep);
    reveal(Seq::filter);
    assert(three.filter(keep) =~= seq![blank]) by {
        let two = seq![blank, MARK@];
        let one = seq![blank];
        assert(three.drop_last() =~= two);
        assert(two.drop_last() =~= one);
        assert(one.drop_last() =~= none);
        assert(none.filter(keep) =~= none);
        assert(one.filter(keep) =~= one);
        assert(two.filter(keep) =~= one);
    }
    let kept = done + seq![blank];
    assert(kept.drop_last() =~= done);
    assert(joined_by(kept, '\n') =~= joined_by(done, '\n').push('\n') + blank);
    assert(joined_by(kept, '\n') == had);
    // And the one newline at its end comes off and goes on again.
    assert(trim_end(had) == had.drop_last()) by {
        assert(is_space('\n'));
        let short = had.drop_last();
        if short.len() > 0 {
            assert(short.last() == had[had.len() - 2]);
        }
        assert(trim_end(short) == short);
    }
    assert(had.drop_last().push('\n') =~= had);
}

/// The text of a profile after `n` installs, each undone.
pub open spec fn cycled(had: Seq<char>, home: Seq<char>, n: nat) -> Seq<char>
    decreases n,
{
    if n == 0 {
        had
    } else {
        without_line(with_line(cycled(had, home, (n - 1) as nat), home), home)
    }
}

/// However often Meadow is installed and removed, the profile does not grow.
pub proof fn cycles_do_not_pile_up(had: Seq<char>, home: Seq<char>, n: nat)
    requires
        untouched(had, home),
        on_one_line(home),
    ensures
        cycled(had, home, n) == had,
    decreases n,
{
    if n > 0 {
        cycles_do_not_pile_up(had, home, (n - 1) as nat);
        removing_leaves_the_profile_as_it_was(had, home);
    }
}

/// What is written holds the line.
proof fn lemma_written_holds(had: Seq<char>, home: Seq<char>)
    ensures
        holds(with_line(had, home), marker(home)),
        holds(only_line(home), marker(home)),
{
    lemma_sourcing_holds(home);
    let line = sourcing(home);
    let k = choose|k: int| stands_at(line, marker(home), k);
    let t = with_line(had, home);
    let at: int = 0int + had.len() + "\n"@.len() + MARK@.len() + "\n"@.len();
    assert(t.subrange(at + k, at + k + marker(home).len()) =~= line.subrange(k, k + marker(home).len()));
    assert(stands_at(t, marker(home), at + k));
    let o = only_line(home);
    let below: int = 0int + MARK@.len() + "\n"@.len();
    assert(o.subrange(below + k, below + k + marker(home).len()) =~= line.subrange(k, k + marker(home).len()));
    assert(stands_at(o, marker(home), below + k));
}

/// `q` is profile `p` once `w` has been written to it.
pub open spec fn rewritten(p: Profile, w: Option<Seq<char>>, q: Profile) -> bool {
    match w {
        Some(t) => q.exists && q.is_file && q.text@ == t,
        None => q == p,
    }
}

/// Once what there was to write has been written, there is nothing more to write:
/// a second install adds to no profile and makes none.
pub proof fn adding_twice_does_not_write_twice(before: Seq<Profile>, after: Seq<Profile>, home: Seq<char>)
    requires
        after.len() == before.len(),
        forall|i: int| 0 <= i < before.len() ==> rewritten(#[trigger] before[i], added(before, home)[i], after[i]),
    ensures
        forall|i: int| 0 <= i < after.len() ==> #[trigger] added(after, home)[i] is None,
{
    assert forall|i: int| 0 <= i < after.len() implies #[trigger] added(after, home)[i] is None by {
        lemma_written_holds(before[i].text@, home);
        assert(rewritten(before[i], added(before, home)[i], after[i]));
        if i == 0 && bare(before) {
            assert(added(before, home)[0] is Some);
            assert(after[0].exists);
        } else if i == 0 && !before[0].exists {
            let j = choose|j: int| 0 <= j < before.len() && (#[trigger] before[j]).is_file;
            assert(rewritten(before[j], added(before, home)[j], after[j]));
            assert(after[j].is_file);
        }
    }
}

/// Where there was a profile, and each was as a person leaves one, an uninstall finds the
/// line in every one that was added to and gives back the text it had; what is left holds
/// nothing for another uninstall to find.
pub proof fn removing_undoes_adding(before: Seq<Profile>, after: Seq<Profile>, home: Seq<char>)
    requires
        on_one_line(home),
        after.len() == before.len(),
        !bare(before),
        forall|i: int| 0 <= i < before.len() && (#[trigger] before[i]).is_file ==> untouched(before[i].text@, home),
        forall|i: int| 0 <= i < before.len() ==> rewritten(#[trigger] before[i], added(before, home)[i], after[i]),
    ensures
        forall|i: int|
            0 <= i < before.len() ==> if (#[trigger] before[i]).is_file {
                &&& holds(after[i].text@, marker(home))
                &&& without_line(after[i].text@, home) == before[i].text@
                &&& !holds(before[i].text@, marker(home))
            } else {
                after[i] == before[i]
            },
{
    assert forall|i: int| 0 <= i < before.len() implies if (#[trigger] before[i]).is_file {
        &&& holds(after[i].text@, marker(home))
        &&& without_line(after[i].text@, home) == before[i].text@
        &&& !holds(before[i].text@, marker(home))
    } else {
        after[i] == before[i]
    } by {
        assert(rewritten(before[i], added(before, home)[i], after[i]));
        if before[i].is_file {
            assert(wants_line(before[i], home));
            lemma_written_holds(before[i].text@, home);
            removing_leaves_the_profile_as_it_was(before[i].text@, home);
        }
    }
}

} // verus!
