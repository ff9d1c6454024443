//! What the installer's files and directories are called.

use crate::text::same;
use vstd::prelude::*;

verus! {

/// Where releases come from.
pub const REPO: &'static str = "mcdearman/meadow";

/// The kind of system a path is for.
#[derive(Debug, Clone, Copy, PartialEq, Eq, Structural, Hash)]
pub enum System {
    Windows,
    Unix,
}

/// The build tool's file name on this system.
pub fn exe_name(on: System) -> (r: &'static str)
    ensures
        r@ == (if on is Windows {
            "meadow.exe"@
        } else {
            "meadow"@
        }),
{
    match on {
        System::Windows => "meadow.exe",
        System::Unix => "meadow",
    }
}

/// The updater's own file name on this system.
pub fn up_name(on: System) -> (r: &'static str)
    ensures
        r@ == (if on is Windows {
            "meadowup.exe"@
        } else {
            "meadowup"@
        }),
{
    match on {
        System::Windows => "meadowup.exe",
        System::Unix => "meadowup",
    }
}

/// What a release archive is called on this system.
pub fn archive_ext(on: System) -> (r: &'static str)
    ensures
        r@ == (if on is Windows {
            "zip"@
        } else {
            "tar.gz"@
        }),
{
    match on {
        System::Windows => "zip",
        System::Unix => "tar.gz",
    }
}

/// `curl` on this system.
pub fn curl(on: System) -> (r: &'static str)
    ensures
        r@ == (if on is Windows {
            "curl.exe"@
        } else {
            "curl"@
        }),
{
    match on {
        System::Windows => "curl.exe",
        System::Unix => "curl",
    }
}

/// Does `c` part the components of a path?
pub open spec fn parts(on: System, c: char) -> bool {
    c == '/' || (on is Windows && c == '\\')
}

pub fn is_separator(on: System, c: char) -> (r: bool)
    ensures
        r == parts(on, c),
{
    match on {
        System::Windows => c == '/' || c == '\\',
        System::Unix => c == '/',
    }
}

/// `s` is a drive and nothing else, as `C:` is.
pub open spec fn is_drive(on: System, s: Seq<char>) -> bool {
    on is Windows && s.len() == 2 && s[1] == ':' && (('a' <= s[0] && s[0] <= 'z') || ('A' <= s[0] && s[0] <= 'Z'))
}

/// What stands between directory `base` and a name in it.
pub open spec fn between(on: System, base: Seq<char>) -> Seq<char> {
    if base.len() == 0 || parts(on, base.last()) || is_drive(on, base) {
        Seq::empty()
    } else if on is Windows {
        seq!['\\']
    } else {
        seq!['/']
    }
}

/// `name` in directory `base`.
pub open spec fn joined(on: System, base: Seq<char>, name: Seq<char>) -> Seq<char> {
    base + between(on, base) + name
}

/// `name` in directory `base`, where `name` is one component.
pub fn join(on: System, base: &str, name: &str) -> (r: String)
    ensures
        r@ == joined(on, base@, name@),
{
    let mut r: String = base.to_owned();
    let n: usize = base.unicode_len();
    if n > 0 {
        let last: char = base.get_char(n - 1);
        let first: char = base.get_char(0);
        let drive: bool = matches!(on, System::Windows) && n == 2 && last == ':' && (('a' <= first && first <= 'z')
            || ('A' <= first && first <= 'Z'));
        if !is_separator(on, last) && !drive {
            match on {
                System::Windows => r.push('\\'),
                System::Unix => r.push('/'),
            }
        }
    }
    r.append(name);
    proof {
        assert(r@ =~= joined(on, base@, name@));
    }
    r
}

/// Where Meadow keeps everything that is not a source file, from what the
/// environment says: `MEADOW_HOME`, or `.meadow` in the user's own directory.
pub fn home(on: System, meadow_home: Option<String>, user_profile: Option<String>, user_home: Option<String>) -> (r: String)
    ensures
        r@ == (match (meadow_home, user_profile, user_home) {
            (Some(dir), _, _) => dir@,
            (None, Some(base), _) => joined(on, base@, ".meadow"@),
            (None, None, Some(base)) => joined(on, base@, ".meadow"@),
            (None, None, None) => joined(on, "."@, ".meadow"@),
        }),
{
    match meadow_home {
        Some(dir) => dir,
        None => match user_profile {
            Some(base) => join(on, base.as_str(), ".meadow"),
            None => match user_home {
                Some(base) => join(on, base.as_str(), ".meadow"),
                None => join(on, ".", ".meadow"),
            },
        },
    }
}

/// Where the binaries go, and what joins the `PATH`.
pub fn bin_dir(on: System, home: &str) -> (r: String)
    ensures
        r@ == joined(on, home@, "bin"@),
{
    join(on, home, "bin")
}

/// The shell fragment a Unix profile sources: one line in a profile that keeps
/// working when the rest of this changes.
pub fn env_file(on: System, home: &str) -> (r: String)
    ensures
        r@ == joined(on, home@, "env"@),
{
    join(on, home, "env")
}

/// `path` without the separators and the `.` components it ends with.
pub open spec fn stripped(on: System, path: Seq<char>) -> Seq<char>
    decreases path.len(),
{
    if path.len() >= 2 && (parts(on, path.last()) || (path.last() == '.' && parts(on, path[path.len() - 2]))) {
        stripped(on, path.drop_last())
    } else {
        path
    }
}

/// Where the last component of `path` starts.
pub open spec fn last_starts(on: System, path: Seq<char>) -> nat
    decreases path.len(),
{
    if path.len() == 0 || parts(on, path.last()) {
        path.len()
    } else {
        last_starts(on, path.drop_last())
    }
}

/// The last component of `path`.
pub open spec fn last_of(on: System, path: Seq<char>) -> Seq<char> {
    stripped(on, path).skip(last_starts(on, stripped(on, path)) as int)
}

/// `path` without its last component.
pub open spec fn parent_of(on: System, path: Seq<char>) -> Seq<char> {
    stripped(on, stripped(on, path).take(last_starts(on, stripped(on, path)) as int))
}

/// Where a displaced binary is put: beside it, its name ending in `.old`.
pub open spec fn backup_of(on: System, path: Seq<char>) -> Seq<char> {
    let name = last_of(on, path);
    if name.len() == 0 || name == "."@ || name == ".."@ {
        joined(on, path, ".old"@)
    } else {
        joined(on, parent_of(on, path), name + ".old"@)
    }
}

proof fn lemma_last_starts(on: System, path: Seq<char>)
    ensures
        last_starts(on, path) <= path.len(),
    decreases path.len(),
{
    if path.len() > 0 && !parts(on, path.last()) {
        lemma_last_starts(on, path.drop_last());
    }
}

fn strip(on: System, path: &mut Vec<char>)
    ensures
        final(path)@ == stripped(on, old(path)@),
{
    while path.len() >= 2 && (is_separator(on, path[path.len() - 1]) || (path[path.len() - 1] == '.' && is_separator(
        on,
        path[path.len() - 2],
    )))
        invariant
            stripped(on, path@) == stripped(on, old(path)@),
        decreases path.len(),
    {
        path.pop();
    }
}

/// Where a displaced binary is put.
///
/// A running program's image cannot be deleted on Windows, and the updater
/// replacing itself is exactly that case. Moving it aside always works, and the
/// next run clears it.
pub fn backup_path(on: System, exe: &str) -> (r: String)
    ensures
        r@ == backup_of(on, exe@),
{
    let mut path: Vec<char> = crate::text::chars(exe);
    strip(on, &mut path);
    let ghost whole = path@;
    let mut name_at: usize = path.len();
    proof {
        lemma_last_starts(on, whole);
        assert(whole.take(whole.len() as int) =~= whole);
    }
    while name_at > 0 && !is_separator(on, path[name_at - 1])
        invariant
            name_at <= path.len(),
            path@ == whole,
            last_starts(on, whole.take(name_at as int)) == last_starts(on, whole),
        decreases name_at,
    {
        proof {
            assert(whole.take(name_at as int).drop_last() =~= whole.take(name_at - 1));
        }
        name_at = name_at - 1;
    }
    let mut name: String = String::new();
    let mut i: usize = name_at;
    while i < path.len()
        invariant
            name_at <= i <= path.len(),
            path@ == whole,
            name@ == whole.subrange(name_at as int, i as int),
        decreases path.len() - i,
    {
        name.push(path[i]);
        proof {
            assert(whole.subrange(name_at as int, i + 1) =~= whole.subrange(name_at as int, i as int).push(
                whole[i as int],
            ));
        }
        i = i + 1;
    }
    proof {
        assert(name@ =~= whole.skip(name_at as int));
    }
    if name_at == path.len() || same(name.as_str(), ".") || same(name.as_str(), "..") {
        return join(on, exe, ".old");
    }
    path.truncate(name_at);
    proof {
        assert(path@ =~= whole.take(name_at as int));
    }
    strip(on, &mut path);
    name.append(".old");
    let parent: String = crate::text::text(path.as_slice());
    join(on, parent.as_str(), name.as_str())
}

/// The triple whose release assets suit a machine.
pub open spec fn triple_of(os: Seq<char>, arch: Seq<char>) -> Option<Seq<char>> {
    if os == "macos"@ && arch == "aarch64"@ {
        Some("aarch64-apple-darwin"@)
    } else if os == "macos"@ && arch == "x86_64"@ {
        Some("x86_64-apple-darwin"@)
    } else if os == "linux"@ && arch == "aarch64"@ {
        Some("aarch64-unknown-linux-gnu"@)
    } else if os == "linux"@ && arch == "x86_64"@ {
        Some("x86_64-unknown-linux-gnu"@)
    } else if os == "windows"@ && arch == "x86_64"@ {
        Some("x86_64-pc-windows-msvc"@)
    } else if os == "windows"@ && arch == "aarch64"@ {
        Some("aarch64-pc-windows-msvc"@)
    } else {
        None
    }
}

/// The triple whose release assets suit a machine of this system and processor.
pub fn target_triple(os: &str, arch: &str) -> (r: Result<&'static str, String>)
    ensures
        match r {
            Ok(t) => triple_of(os@, arch@) == Some(t@),
            Err(e) => triple_of(os@, arch@) is None && e@ == "no published build for "@ + os@ + " on "@
                + arch@,
        },
{
    if same(os, "macos") && same(arch, "aarch64") {
        Ok("aarch64-apple-darwin")
    } else if same(os, "macos") && same(arch, "x86_64") {
        Ok("x86_64-apple-darwin")
    } else if same(os, "linux") && same(arch, "aarch64") {
        Ok("aarch64-unknown-linux-gnu")
    } else if same(os, "linux") && same(arch, "x86_64") {
        Ok("x86_64-unknown-linux-gnu")
    } else if same(os, "windows") && same(arch, "x86_64") {
        Ok("x86_64-pc-windows-msvc")
    } else if same(os, "windows") && same(arch, "aarch64") {
        Ok("aarch64-pc-windows-msvc")
    } else {
        let mut e: String = "no published build for ".to_owned();
        e.append(os);
        e.append(" on ");
        e.append(arch);
        Err(e)
    }
}

/// The characters a release tag may have.
pub open spec fn tag_char(c: char) -> bool {
    ('a' <= c && c <= 'z') || ('A' <= c && c <= 'Z') || ('0' <= c && c <= '9') || c == '.' || c == '-' || c == '_'
        || c == '+'
}

/// A tag that is safe to put in a URL.
pub open spec fn safe_tag(tag: Seq<char>) -> bool {
    &&& 0 < tag.len() <= 64
    &&& forall|i: int| 0 <= i < tag.len() ==> tag_char(#[trigger] tag[i])
    &&& forall|i: int| 0 <= i < tag.len() - 1 ==> !(#[trigger] tag[i] == '.' && tag[i + 1] == '.')
}

/// A tag that is safe to put in a URL.
///
/// Release tags are `v1.2.3`, sometimes with a suffix. Anything else is refused
/// rather than escaped, because a tag is not a place to be clever: a `..` or a
/// `/` in one would reach somewhere else entirely. A safe tag is ASCII, so its
/// length in characters is its length in bytes.
pub fn valid_tag(tag: &str) -> (r: bool)
    ensures
        r == safe_tag(tag@),
{
    let n: usize = tag.unicode_len();
    if n == 0 || n > 64 {
        return false;
    }
    let mut i: usize = 0;
    let mut dot: bool = false;
    while i < n
        invariant
            i <= n,
            n == tag@.len(),
            dot == (i > 0 && tag@[i - 1] == '.'),
            forall|j: int| 0 <= j < i ==> tag_char(#[trigger] tag@[j]),
            forall|j: int| 0 <= j < i - 1 ==> !(#[trigger] tag@[j] == '.' && tag@[j + 1] == '.'),
        decreases n - i,
    {
        let c: char = tag.get_char(i);
        let ok: bool = ('a' <= c && c <= 'z') || ('A' <= c && c <= 'Z') || ('0' <= c && c <= '9') || c == '.' || c
            == '-' || c == '_' || c == '+';
        if !ok {
            assert(!tag_char(tag@[i as int]));
            return false;
        }
        if dot && c == '.' {
            assert(tag@[i - 1] == '.' && tag@[(i - 1) + 1] == '.');
            return false;
        }
        dot = c == '.';
        i = i + 1;
    }
    true
}

/// A safe tag reaches nowhere else: it holds no separator of either system and
/// does not climb.
pub proof fn a_safe_tag_stays_put(tag: Seq<char>, i: int)
    requires
        safe_tag(tag),
    ensures
        0 <= i < tag.len() ==> tag[i] != '/' && tag[i] != '\\' && tag[i] != ' ' && tag[i] != '%',
        !crate::text::holds(tag, seq!['.', '.']),
{
    assert forall|j: int| !crate::text::stands_at(tag, seq!['.', '.'], j) by {
        if crate::text::stands_at(tag, seq!['.', '.'], j) {
            let t = tag.subrange(j, j + 2);
            assert(t[0] == tag[j] && t[1] == tag[j + 1]);
        }
    }
}

} // verus!
