//! What the updater and the setup program are asked to do.

use crate::text::same;
use vstd::prelude::*;

verus! {

/// What `meadowup` was asked for.
pub struct Args {
    /// A release tag, rather than the newest.
    pub version: Option<String>,
    /// Re-install even when this version is already here.
    pub force: bool,
    /// Leave shell profiles and the registry alone, if this is false.
    pub modify_path: bool,
    pub home: String,
    /// Take the binaries from this directory instead of fetching a release.
    pub from: Option<String>,
}

/// What reading options `argv` makes of `a`, or why they cannot be read.
pub open spec fn options(argv: Seq<String>, a: Args) -> Result<Args, Seq<char>>
    decreases argv.len(),
{
    if argv.len() == 0 {
        Ok(a)
    } else if argv[0]@ == "--version"@ {
        if argv.len() < 2 {
            Err("`--version` needs a tag, e.g. `--version v0.1.0-alpha`"@)
        } else {
            options(argv.skip(2), Args { version: Some(argv[1]), ..a })
        }
    } else if argv[0]@ == "--force"@ {
        options(argv.skip(1), Args { force: true, ..a })
    } else if argv[0]@ == "--no-modify-path"@ {
        options(argv.skip(1), Args { modify_path: false, ..a })
    } else if argv[0]@ == "--from"@ {
        if argv.len() < 2 {
            Err("`--from` needs a directory holding the binaries"@)
        } else {
            options(argv.skip(2), Args { from: Some(argv[1]), ..a })
        }
    } else {
        Err("`"@ + argv[0]@ + "` is not an option here"@)
    }
}

/// `r` is what `want` says: the same arguments, or the same message.
pub open spec fn agrees<A>(r: Result<A, String>, want: Result<A, Seq<char>>) -> bool {
    match (r, want) {
        (Ok(a), Ok(b)) => a == b,
        (Err(e), Err(m)) => e@ == m,
        _ => false,
    }
}

/// Read the options of a `meadowup` command, for a toolchain kept in `home`.
pub fn parse(argv: &[String], home: String) -> (r: Result<Args, String>)
    ensures
        agrees(r, options(argv@, (Args { version: None, force: false, modify_path: true, home, from: None }))),
{
    let mut args: Args = Args { version: None, force: false, modify_path: true, home, from: None };
    let ghost whole = options(argv@, args);
    let mut i: usize = 0;
    let n: usize = argv.len();
    proof {
        assert(argv@.skip(0) =~= argv@);
    }
    while i < n
        invariant
            i <= n,
            n == argv@.len(),
            options(argv@.skip(i as int), args) == whole,
            whole == options(
                argv@,
                (Args { version: None, force: false, modify_path: true, home, from: None }),
            ),
        decreases n - i,
    {
        let a: &str = argv[i].as_str();
        let ghost left = argv@.skip(i as int);
        proof {
            assert(left[0] == argv@[i as int]);
            assert(left.skip(1) =~= argv@.skip(i + 1));
            if n - i >= 2 {
                assert(left[1] == argv@[i + 1]);
                assert(left.skip(2) =~= argv@.skip(i + 2));
            }
        }
        if same(a, "--version") {
            if n - i < 2 {
                return Err("`--version` needs a tag, e.g. `--version v0.1.0-alpha`".to_owned());
            }
            args.version = Some(argv[i + 1].clone());
            i = i + 2;
        } else if same(a, "--force") {
            args.force = true;
            i = i + 1;
        } else if same(a, "--no-modify-path") {
            args.modify_path = false;
            i = i + 1;
        } else if same(a, "--from") {
            if n - i < 2 {
                return Err("`--from` needs a directory holding the binaries".to_owned());
            }
            args.from = Some(argv[i + 1].clone());
            i = i + 2;
        } else {
            let mut e: String = "`".to_owned();
            e.append(a);
            e.append("` is not an option here");
            return Err(e);
        }
    }
    Ok(args)
}

/// A `meadowup` command.
#[derive(Debug, Clone, Copy, PartialEq, Eq, Structural, Hash)]
pub enum Command {
    Install,
    Update,
    Show,
    Which,
    Uninstall,
    Help,
    Version,
}

/// The command a word names.
pub open spec fn command_of(word: Seq<char>) -> Option<Command> {
    if word == "install"@ {
        Some(Command::Install)
    } else if word == "update"@ {
        Some(Command::Update)
    } else if word == "show"@ {
        Some(Command::Show)
    } else if word == "which"@ {
        Some(Command::Which)
    } else if word == "uninstall"@ {
        Some(Command::Uninstall)
    } else if word == "help"@ || word == "--help"@ || word == "-h"@ {
        Some(Command::Help)
    } else if word == "--version"@ || word == "-V"@ {
        Some(Command::Version)
    } else {
        None
    }
}

/// The command a word names.
pub fn command(word: &str) -> (r: Result<Command, String>)
    ensures
        match r {
            Ok(c) => command_of(word@) == Some(c),
            Err(e) => command_of(word@) is None && e@ == "`"@ + word@
                + "` is not a meadowup command. Try `meadowup help`."@,
        },
{
    if same(word, "install") {
        Ok(Command::Install)
    } else if same(word, "update") {
        Ok(Command::Update)
    } else if same(word, "show") {
        Ok(Command::Show)
    } else if same(word, "which") {
        Ok(Command::Which)
    } else if same(word, "uninstall") {
        Ok(Command::Uninstall)
    } else if same(word, "help") || same(word, "--help") || same(word, "-h") {
        Ok(Command::Help)
    } else if same(word, "--version") || same(word, "-V") {
        Ok(Command::Version)
    } else {
        let mut e: String = "`".to_owned();
        e.append(word);
        e.append("` is not a meadowup command. Try `meadowup help`.");
        Err(e)
    }
}

/// What the setup program was asked for.
pub struct Setup {
    pub home: String,
    pub from: Option<String>,
    pub version: Option<String>,
    pub modify_path: bool,
    pub uninstall: bool,
    pub pause: bool,
    pub help: bool,
}

/// What reading options `argv` makes of `a`, or why they cannot be read.
pub open spec fn setup_options(argv: Seq<String>, a: Setup) -> Result<Setup, Seq<char>>
    decreases argv.len(),
{
    if argv.len() == 0 {
        Ok(a)
    } else if argv[0]@ == "-h"@ || argv[0]@ == "--help"@ {
        setup_options(argv.skip(1), Setup { help: true, ..a })
    } else if argv[0]@ == "--uninstall"@ {
        setup_options(argv.skip(1), Setup { uninstall: true, ..a })
    } else if argv[0]@ == "--no-modify-path"@ {
        setup_options(argv.skip(1), Setup { modify_path: false, ..a })
    } else if argv[0]@ == "--no-pause"@ {
        setup_options(argv.skip(1), Setup { pause: false, ..a })
    } else if argv[0]@ == "--dir"@ {
        if argv.len() < 2 {
            Err("--dir needs a path"@)
        } else {
            setup_options(argv.skip(2), Setup { home: argv[1], ..a })
        }
    } else if argv[0]@ == "--from"@ {
        if argv.len() < 2 {
            Err("--from needs a path"@)
        } else {
            setup_options(argv.skip(2), Setup { from: Some(argv[1]), ..a })
        }
    } else if argv[0]@ == "--version"@ {
        if argv.len() < 2 {
            Err("--version needs a tag, e.g. v0.1.0-alpha"@)
        } else {
            setup_options(argv.skip(2), Setup { version: Some(argv[1]), ..a })
        }
    } else {
        Err("unknown option: "@ + argv[0]@)
    }
}

/// Read the options of the setup program, which installs into `home` unless
/// told otherwise.
pub fn parse_setup(argv: &[String], home: String) -> (r: Result<Setup, String>)
    ensures
        agrees(
            r,
            setup_options(
                argv@,
                (Setup {
                    home,
                    from: None,
                    version: None,
                    modify_path: true,
                    uninstall: false,
                    pause: true,
                    help: false,
                }),
            ),
        ),
{
    let mut args: Setup = Setup {
        home,
        from: None,
        version: None,
        modify_path: true,
        uninstall: false,
        pause: true,
        help: false,
    };
    let ghost whole = setup_options(argv@, args);
    let mut i: usize = 0;
    let n: usize = argv.len();
    proof {
        assert(argv@.skip(0) =~= argv@);
    }
    while i < n
        invariant
            i <= n,
            n == argv@.len(),
            setup_options(argv@.skip(i as int), args) == whole,
            whole == setup_options(
                argv@,
                (Setup {
                    home,
                    from: None,
                    version: None,
                    modify_path: true,
                    uninstall: false,
                    pause: true,
                    help: false,
                }),
            ),
        decreases n - i,
    {
        let a: &str = argv[i].as_str();
        let ghost left = argv@.skip(i as int);
        proof {
            assert(left[0] == argv@[i as int]);
            assert(left.skip(1) =~= argv@.skip(i + 1));
            if n - i >= 2 {
                assert(left[1] == argv@[i + 1]);
                assert(left.skip(2) =~= argv@.skip(i + 2));
            }
        }
        if same(a, "-h") || same(a, "--help") {
            args.help = true;
            i = i + 1;
        } else if same(a, "--uninstall") {
            args.uninstall = true;
            i = i + 1;
        } else if same(a, "--no-modify-path") {
            args.modify_path = false;
            i = i + 1;
        } else if same(a, "--no-pause") {
            args.pause = false;
            i = i + 1;
        } else if same(a, "--dir") {
            if n - i < 2 {
                return Err("--dir needs a path".to_owned());
            }
            args.home = argv[i + 1].clone();
            i = i + 2;
        } else if same(a, "--from") {
            if n - i < 2 {
                return Err("--from needs a path".to_owned());
            }
            args.from = Some(argv[i + 1].clone());
            i = i + 2;
        } else if same(a, "--version") {
            if n - i < 2 {
                return Err("--version needs a tag, e.g. v0.1.0-alpha".to_owned());
            }
            args.version = Some(argv[i + 1].clone());
            i = i + 2;
        } else {
            let mut e: String = "unknown option: ".to_owned();
            e.append(a);
            return Err(e);
        }
    }
    Ok(args)
}

/// Was the program started by a double click, so that its window would vanish
/// with its output? When it alone, of `watchers` processes, owns its console.
pub fn launched_by_double_click(watchers: u32) -> (r: bool)
    ensures
        r == (watchers == 1),
{
    watchers == 1
}

} // verus!
