//! What a published release is called, and what to make of what is known of it.

use super::names::{archive_ext, exe_name, safe_tag, valid_tag, System, REPO};
use crate::text::{chars, find, first, is_space, same, skip_space, trim_start};
use vstd::prelude::*;

verus! {

/// What a quoted string says, from just after its opening quote: up to the
/// closing one, each backslash standing for the character after it. Nothing, if
/// it is not closed.
pub open spec fn unquoted(s: Seq<char>) -> Option<Seq<char>>
    decreases s.len(),
{
    if s.len() == 0 {
        None
    } else if s[0] == '"' {
        Some(Seq::empty())
    } else if s[0] == '\\' {
        if s.len() < 2 {
            None
        } else {
            match unquoted(s.skip(2)) {
                Some(rest) => Some(seq![s[1]] + rest),
                None => None,
            }
        }
    } else {
        match unquoted(s.skip(1)) {
            Some(rest) => Some(seq![s[0]] + rest),
            None => None,
        }
    }
}

/// The string after the first `"name"` of a flat JSON object, a colon and an
/// opening quote.
pub open spec fn field_of(json: Seq<char>, name: Seq<char>) -> Option<Seq<char>> {
    let key = "\""@ + name + "\""@;
    match first(json, key) {
        None => None,
        Some(i) => {
            let rest = trim_start(json.skip(i + key.len()));
            if rest.len() == 0 || rest[0] != ':' {
                None
            } else {
                let body = trim_start(rest.skip(1));
                if body.len() == 0 || body[0] != '"' {
                    None
                } else {
                    unquoted(body.skip(1))
                }
            }
        },
    }
}

/// One string field of a flat JSON object.
///
/// Enough for the one field wanted out of a release's description, and small
/// enough not to want a parser: it has no nested `tag_name`.
pub fn field(json: &str, name: &str) -> (r: Option<String>)
    ensures
        match r {
            Some(s) => field_of(json@, name@) == Some(s@),
            None => field_of(json@, name@) is None,
        },
{
    let mut key: String = "\"".to_owned();
    key.append(name);
    key.append("\"");
    let cs: Vec<char> = chars(json);
    let ks: Vec<char> = chars(key.as_str());
    let n: usize = cs.len();
    let at: usize = match find(cs.as_slice(), ks.as_slice()) {
        None => {
            return None;
        },
        Some(i) => i + ks.len(),
    };
    let colon: usize = skip_space(cs.as_slice(), at);
    if colon >= n || cs[colon] != ':' {
        return None;
    }
    let ghost rest = json@.skip(colon as int);
    proof {
        assert(rest.skip(1) =~= json@.skip(colon + 1));
    }
    let quote: usize = skip_space(cs.as_slice(), colon + 1);
    if quote >= n || cs[quote] != '"' {
        return None;
    }
    let mut out: String = String::new();
    let mut i: usize = quote + 1;
    proof {
        assert(json@.skip(quote as int).skip(1) =~= json@.skip(i as int));
        assert(match unquoted(json@.skip(i as int)) {
            Some(r) => out@ + r =~= r,
            None => true,
        });
    }
    while i < n
        invariant
            i <= n,
            n == cs@.len(),
            cs@ == json@,
            match (unquoted(json@.skip(i as int)), field_of(json@, name@)) {
                (Some(r), Some(all)) => out@ + r == all,
                (None, None) => true,
                _ => false,
            },
        decreases n - i,
    {
        let c: char = cs[i];
        let ghost here = json@.skip(i as int);
        if c == '"' {
            proof {
                assert(out@ + Seq::<char>::empty() =~= out@);
            }
            return Some(out);
        }
        if c == '\\' {
            if n - i < 2 {
                return None;
            }
            let ghost before = out@;
            out.push(cs[i + 1]);
            proof {
                assert(here.skip(2) =~= json@.skip(i + 2));
                if let Some(r) = unquoted(here.skip(2)) {
                    assert(before + (seq![here[1]] + r) =~= out@ + r);
                }
            }
            i = i + 2;
        } else {
            let ghost before = out@;
            out.push(c);
            proof {
                assert(here.skip(1) =~= json@.skip(i + 1));
                if let Some(r) = unquoted(here.skip(1)) {
                    assert(before + (seq![here[0]] + r) =~= out@ + r);
                }
            }
            i = i + 1;
        }
    }
    None
}

/// Where the newest release is described.
pub fn latest_url() -> (r: String)
    ensures
        r@ == "https://api.github.com/repos/"@ + REPO@ + "/releases/latest"@,
{
    let mut r: String = "https://api.github.com/repos/".to_owned();
    r.append(REPO);
    r.append("/releases/latest");
    r
}

/// The tag of the newest release, out of its description.
pub fn latest_tag(body: &str) -> (r: Result<String, String>)
    ensures
        match r {
            Ok(t) => field_of(body@, "tag_name"@) == Some(t@),
            Err(e) => field_of(body@, "tag_name"@) is None && e@ == "GitHub named no release"@,
        },
{
    match field(body, "tag_name") {
        Some(t) => Ok(t),
        None => Err("GitHub named no release".to_owned()),
    }
}

/// What the archive of a release for `target` is called.
pub open spec fn asset_of(on: System, target: Seq<char>) -> Seq<char> {
    "meadow-"@ + target + "."@ + (if on is Windows {
        "zip"@
    } else {
        "tar.gz"@
    })
}

/// Where it is: the tag is in the URL, not in the file.
pub open spec fn url_of(on: System, tag: Seq<char>, target: Seq<char>) -> Seq<char> {
    "https://github.com/"@ + REPO@ + "/releases/download/"@ + tag + "/"@ + asset_of(on, target)
}

/// The name of a release's archive for `target`.
pub fn asset(on: System, target: &str) -> (r: String)
    ensures
        r@ == asset_of(on, target@),
{
    let mut r: String = "meadow-".to_owned();
    r.append(target);
    r.append(".");
    r.append(archive_ext(on));
    r
}

/// Where to fetch release `tag` for `target` from. A tag that is not safe to
/// put there is refused.
pub fn fetch(on: System, tag: &str, target: &str) -> (r: Result<String, String>)
    ensures
        match r {
            Ok(url) => safe_tag(tag@) && url@ == url_of(on, tag@, target@),
            Err(e) => !safe_tag(tag@) && e@ == "`"@ + tag@ + "` is not a release tag"@,
        },
{
    if !valid_tag(tag) {
        let mut e: String = "`".to_owned();
        e.append(tag);
        e.append("` is not a release tag");
        return Err(e);
    }
    let mut url: String = "https://github.com/".to_owned();
    url.append(REPO);
    url.append("/releases/download/");
    url.append(tag);
    url.append("/");
    url.append(asset(on, target).as_str());
    Ok(url)
}

/// Where the setup program fetches its archive from: a given release, or
/// whichever is the latest.
pub fn setup_url(version: Option<&str>, target: &str) -> (r: Result<String, String>)
    ensures
        match (version, r) {
            (Some(tag), Ok(url)) => safe_tag(tag@) && url@ == url_of(System::Windows, tag@, target@),
            (Some(tag), Err(e)) => !safe_tag(tag@) && e@ == "`"@ + tag@ + "` is not a release tag"@,
            (None, Ok(url)) => url@ == "https://github.com/"@ + REPO@ + "/releases/latest/download/"@ + asset_of(
                System::Windows,
                target@,
            ),
            (None, Err(_)) => false,
        },
{
    match version {
        Some(tag) => fetch(System::Windows, tag, target),
        None => {
            let mut url: String = "https://github.com/".to_owned();
            url.append(REPO);
            url.append("/releases/latest/download/");
            url.append(asset(System::Windows, target).as_str());
            Ok(url)
        },
    }
}

/// What is said when there is no build of `tag` for `target`.
pub fn no_build(on: System, tag: &str, target: &str) -> (r: String)
    ensures
        r@ == "no build of "@ + tag@ + " for "@ + target@ + ".\nLooked for "@ + asset_of(on, target@),
{
    let mut r: String = "no build of ".to_owned();
    r.append(tag);
    r.append(" for ");
    r.append(target);
    r.append(".\nLooked for ");
    r.append(asset(on, target).as_str());
    r
}

/// Where the first word of `s` ends.
pub open spec fn word_end(s: Seq<char>) -> nat
    decreases s.len(),
{
    if s.len() == 0 || is_space(s[0]) {
        0
    } else {
        1 + word_end(s.skip(1))
    }
}

/// The version in what a program says of itself: the second word of it, or all
/// of it where there is only one.
pub open spec fn number_of(said: Seq<char>) -> Seq<char> {
    let first = trim_start(said);
    let after = trim_start(first.skip(word_end(first) as int));
    if after.len() == 0 {
        said
    } else {
        after.take(word_end(after) as int)
    }
}

fn end_of_word(s: &Vec<char>, from: usize) -> (r: usize)
    requires
        from <= s@.len(),
    ensures
        from <= r <= s@.len(),
        r - from == word_end(s@.skip(from as int)),
{
    let mut i: usize = from;
    while i < s.len() && !crate::text::space(s[i])
        invariant
            from <= i <= s@.len(),
            i - from + word_end(s@.skip(i as int)) == word_end(s@.skip(from as int)),
        decreases s.len() - i,
    {
        proof {
            assert(s@.skip(i as int).skip(1) =~= s@.skip(i + 1));
        }
        i = i + 1;
    }
    i
}

/// The version in what `meadow --version` says: `0.1.0-alpha` of
/// `meadow 0.1.0-alpha`.
pub fn number(said: &str) -> (r: String)
    ensures
        r@ == number_of(said@),
{
    let cs: Vec<char> = chars(said);
    proof {
        assert(cs@.skip(0) =~= cs@);
    }
    let a: usize = skip_space(cs.as_slice(), 0);
    let b: usize = end_of_word(&cs, a);
    proof {
        assert(said@.skip(a as int).skip(b - a) =~= said@.skip(b as int));
    }
    let c: usize = skip_space(cs.as_slice(), b);
    if c == cs.len() {
        return said.to_owned();
    }
    let d: usize = end_of_word(&cs, c);
    proof {
        assert(said@.skip(c as int).take(d - c) =~= said@.subrange(c as int, d as int));
    }
    said.substring_char(c, d).to_owned()
}

/// A tag without the `v`s it starts with.
pub open spec fn bare_tag(tag: Seq<char>) -> Seq<char>
    decreases tag.len(),
{
    if tag.len() > 0 && tag[0] == 'v' {
        bare_tag(tag.skip(1))
    } else {
        tag
    }
}

/// The version a tag is of.
pub fn wanted(tag: &str) -> (r: String)
    ensures
        r@ == bare_tag(tag@),
{
    let n: usize = tag.unicode_len();
    let mut i: usize = 0;
    proof {
        assert(tag@.skip(0) =~= tag@);
    }
    while i < n && tag.get_char(i) == 'v'
        invariant
            i <= n,
            n == tag@.len(),
            bare_tag(tag@.skip(i as int)) == bare_tag(tag@),
        decreases n - i,
    {
        proof {
            assert(tag@.skip(i as int).skip(1) =~= tag@.skip(i + 1));
        }
        i = i + 1;
    }
    proof {
        assert(tag@.skip(i as int) =~= tag@.subrange(i as int, n as int));
    }
    tag.substring_char(i, n).to_owned()
}

/// Is what is here already the version `tag` is of, so that there is nothing to
/// fetch? Never, when told to install again.
pub fn up_to_date(force: bool, have: Option<&str>, tag: &str) -> (r: bool)
    ensures
        r == (!force && have is Some && number_of(have->0@) == bare_tag(tag@)),
{
    match have {
        Some(h) => !force && same(number(h).as_str(), wanted(tag).as_str()),
        None => false,
    }
}

/// What is about to be done, where `shown` is how the wanted version is shown.
pub fn announcement(have: Option<&str>, updating: bool, shown: &str) -> (r: String)
    ensures
        r@ == (match have {
            Some(h) => (if updating {
                "updating"@
            } else {
                "replacing"@
            }) + " meadow "@ + number_of(h@) + " -> "@ + shown@,
            None => "installing meadow "@ + shown@,
        }),
{
    match have {
        Some(h) => {
            let mut r: String = if updating {
                "updating".to_owned()
            } else {
                "replacing".to_owned()
            };
            r.append(" meadow ");
            r.append(number(h).as_str());
            r.append(" -> ");
            r.append(shown);
            r
        },
        None => {
            let mut r: String = "installing meadow ".to_owned();
            r.append(shown);
            r
        },
    }
}

/// What changed, in one line: `before` and `after` are what the program said of
/// itself, `local` that it was not a release that was installed, and `name` how
/// the program's name is shown.
pub fn summary(before: Option<&str>, after: Option<&str>, local: bool, name: &str) -> (r: String)
    ensures
        r@ == "  "@ + name@ + (match (before, after) {
            (Some(b), Some(a)) => if number_of(b@) != number_of(a@) {
                " updated - "@ + a@ + (if local {
                    " (local build)"@
                } else {
                    ""@
                }) + " (from "@ + number_of(b@) + ")"@
            } else {
                " reinstalled - "@ + a@ + (if local {
                    " (local build)"@
                } else {
                    ""@
                })
            },
            (None, Some(a)) => " installed - "@ + a@ + (if local {
                " (local build)"@
            } else {
                ""@
            }),
            (_, None) => " installed"@,
        }),
{
    let from: &str = if local {
        " (local build)"
    } else {
        ""
    };
    let mut r: String = "  ".to_owned();
    r.append(name);
    let tail: String = match after {
        None => " installed".to_owned(),
        Some(a) => match before {
            None => {
                let mut t: String = " installed - ".to_owned();
                t.append(a);
                t.append(from);
                t
            },
            Some(b) => {
                if same(number(b).as_str(), number(a).as_str()) {
                    let mut t: String = " reinstalled - ".to_owned();
                    t.append(a);
                    t.append(from);
                    t
                } else {
                    let mut t: String = " updated - ".to_owned();
                    t.append(a);
                    t.append(from);
                    t.append(" (from ");
                    t.append(number(b).as_str());
                    t.append(")");
                    t
                }
            },
        },
    };
    r.append(tail.as_str());
    r
}

/// What is said when a directory holds no binary to install.
pub fn nothing_to_install(on: System, dir: &str) -> (r: String)
    ensures
        r@ == dir@ + " holds no "@ + (if on is Windows {
            "meadow.exe"@
        } else {
            "meadow"@
        }) + ", so there is nothing to install"@,
{
    let mut r: String = dir.to_owned();
    r.append(" holds no ");
    r.append(exe_name(on));
    r.append(", so there is nothing to install");
    r
}

} // verus!
