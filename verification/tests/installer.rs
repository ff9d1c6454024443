use meadow::installer::names::{bin_dir, env_file, join, target_triple, valid_tag, System};
use meadow::installer::profile::{add, env_text, profiles_in, remove, Profile};
use meadow::installer::registry::{self, entries, eq_path};
use meadow::installer::release::field;

const SOMETHING: &str = "# something that was already here\n";

/// The profiles of a home that has `existing`.
fn home(existing: &[&str]) -> Vec<Profile> {
    profiles_in("/home/me")
        .iter()
        .map(|p| {
            let is = existing.iter().any(|e| *p == join(System::Unix, "/home/me", e));
            Profile { exists: is, is_file: is, text: if is { SOMETHING.to_string() } else { String::new() } }
        })
        .collect()
}

fn write(profiles: &mut Vec<Profile>, to: Vec<Option<String>>) -> bool {
    let mut wrote = false;
    for (p, t) in profiles.iter_mut().zip(to) {
        if let Some(text) = t {
            *p = Profile { exists: true, is_file: true, text };
            wrote = true;
        }
    }
    wrote
}

fn take_out(profiles: &mut Vec<Profile>) -> bool {
    let mut wrote = false;
    for p in profiles.iter_mut() {
        if p.is_file {
            if let Some(text) = remove("/home/me/.meadow", &p.text) {
                p.text = text;
                wrote = true;
            }
        }
    }
    wrote
}

fn at(profiles: &[Profile], name: &str) -> usize {
    let want = join(System::Unix, "/home/me", name);
    let i = profiles_in("/home/me").iter().position(|p| *p == want).unwrap();
    assert!(i < profiles.len());
    i
}

#[test]
fn the_env_file_is_written_and_sourced_from_every_profile_there_is() {
    let meadow_home = "/home/me/.meadow";
    let bin = bin_dir(System::Unix, meadow_home);
    let mut profiles = home(&[".profile", ".zshenv"]);

    let to = add(meadow_home, &profiles);
    assert!(write(&mut profiles, to), "nothing was added");

    // The file itself, guarding against adding the directory twice.
    let env = env_text(&bin);
    assert!(env.contains(&bin), "{env}");
    assert!(env.contains("case"), "no guard against a repeated PATH: {env}");

    // And a line in each profile that exists, but not in ones that do not.
    for name in [".profile", ".zshenv"] {
        let text = &profiles[at(&profiles, name)].text;
        assert!(text.contains("# something that was already here"), "{name}");
        assert!(text.contains(&env_file(System::Unix, meadow_home)), "{name}");
    }
    assert!(!profiles[at(&profiles, ".bashrc")].exists, "made a profile that did not exist");
}

#[test]
fn adding_twice_does_not_write_the_line_twice() {
    let mut profiles = home(&[".profile"]);
    let to = add("/home/me/.meadow", &profiles);
    assert!(write(&mut profiles, to));
    let to = add("/home/me/.meadow", &profiles);
    assert!(!write(&mut profiles, to), "said it added something again");

    let text = &profiles[at(&profiles, ".profile")].text;
    let marker = env_file(System::Unix, "/home/me/.meadow");
    assert_eq!(text.matches(marker.as_str()).count(), 1, "{text}");
}

#[test]
fn adding_twice_makes_no_profile_that_was_not_there() {
    let mut profiles = home(&[".zshenv"]);
    let to = add("/home/me/.meadow", &profiles);
    assert!(write(&mut profiles, to));
    let to = add("/home/me/.meadow", &profiles);
    assert!(!write(&mut profiles, to), "said it added something again");
    assert!(!profiles[at(&profiles, ".profile")].exists, "made a profile that did not exist");
}

#[test]
fn a_directory_is_no_profile() {
    let mut profiles = home(&[]);
    let i = at(&profiles, ".zshenv");
    profiles[i].exists = true;
    let to = add("/home/me/.meadow", &profiles);
    assert!(write(&mut profiles, to));
    assert!(profiles[at(&profiles, ".profile")].is_file, "no profile was made");
    // But nothing is written over.
    let mut profiles = home(&[]);
    let i = at(&profiles, ".profile");
    profiles[i].exists = true;
    let to = add("/home/me/.meadow", &profiles);
    assert!(!write(&mut profiles, to));
}

#[test]
fn with_no_profile_at_all_one_is_made() {
    // Otherwise a new shell would never find meadow.
    let mut profiles = home(&[]);
    let to = add("/home/me/.meadow", &profiles);
    assert!(write(&mut profiles, to));
    assert!(profiles[at(&profiles, ".profile")].is_file, "no profile was made");
}

#[test]
fn removing_leaves_the_profile_as_it_was() {
    let mut profiles = home(&[".profile", ".bashrc"]);
    let to = add("/home/me/.meadow", &profiles);
    write(&mut profiles, to);
    assert!(take_out(&mut profiles), "nothing was removed");
    assert_eq!(
        profiles[at(&profiles, ".profile")].text,
        SOMETHING,
        "the profile did not come back to what it was"
    );
}

#[test]
fn install_and_uninstall_cycles_do_not_pile_up_blank_lines() {
    let mut profiles = home(&[".profile"]);
    for _ in 0..3 {
        let to = add("/home/me/.meadow", &profiles);
        write(&mut profiles, to);
        take_out(&mut profiles);
    }
    assert_eq!(
        profiles[at(&profiles, ".profile")].text,
        SOMETHING,
        "the profile grew over repeated cycles"
    );
}

#[test]
fn removing_what_was_never_added_changes_nothing() {
    let mut profiles = home(&[".profile"]);
    assert!(!take_out(&mut profiles));
    assert_eq!(profiles[at(&profiles, ".profile")].text, SOMETHING);
}

#[test]
fn path_entries_skip_empties() {
    let got = entries(r"C:\a;;C:\b;");
    assert_eq!(got, vec![r"C:\a", r"C:\b"]);
}

#[test]
fn path_comparison_ignores_case_and_trailing_slash() {
    assert!(eq_path(
        r"C:\Users\me\.meadow\bin",
        r"c:\users\me\.meadow\bin"
    ));
    assert!(eq_path(r"C:\a\bin\", r"C:\a\bin"));
    assert!(eq_path(r"C:\a\bin/", r"C:\a\bin"));
    assert!(!eq_path(r"C:\a\bin", r"C:\a\binary"));
}

#[test]
fn unexpanded_variables_are_left_alone() {
    // The whole point of reading the registry raw: an entry like this must
    // survive an add/remove round trip untouched.
    let path = r"%JAVA_HOME%\bin;C:\Windows";
    let kept: Vec<String> = entries(path)
        .into_iter()
        .filter(|e| !eq_path(e, r"C:\Windows"))
        .collect();
    assert_eq!(kept, vec![r"%JAVA_HOME%\bin"]);
}

#[test]
fn a_directory_is_put_on_the_path_once() {
    let once = registry::add(r"C:\a", r"C:\b").unwrap();
    assert!(once.contains(r"C:\b"));
    assert_eq!(registry::add(&once, r"c:\B\"), None);
    assert_eq!(registry::remove(&once, r"C:\b").as_deref(), Some(r"C:\a"));
    assert_eq!(registry::remove(r"C:\a", r"C:\b"), None);
}

#[test]
fn a_field_is_read_out_of_the_release_json() {
    let json = r#"{"url":"x","tag_name":"v0.1.0-alpha","name":"Meadow"}"#;
    assert_eq!(field(json, "tag_name").as_deref(), Some("v0.1.0-alpha"));
}

#[test]
fn an_escape_in_a_field_is_read_rather_than_ending_it() {
    let json = r#"{"name":"a \"quoted\" thing","tag_name":"v1"}"#;
    assert_eq!(field(json, "name").as_deref(), Some("a \"quoted\" thing"));
    assert_eq!(field(json, "tag_name").as_deref(), Some("v1"));
}

#[test]
fn a_field_that_is_not_there_is_none() {
    assert_eq!(field(r#"{"a":"b"}"#, "tag_name"), None);
}

#[test]
fn a_tag_that_could_reach_elsewhere_is_refused() {
    assert!(valid_tag("v0.1.0-alpha"));
    assert!(valid_tag("v1.2.3"));
    assert!(!valid_tag("../../etc/passwd"));
    assert!(!valid_tag("v1/../v2"));
    assert!(!valid_tag(""));
    assert!(!valid_tag("v1 v2"));
}

#[test]
fn a_machine_with_no_build_is_refused() {
    assert_eq!(target_triple("linux", "x86_64").unwrap(), "x86_64-unknown-linux-gnu");
    assert!(target_triple("plan9", "x86_64").is_err());
}

#[test]
fn a_carriage_return_in_the_path_does_no_harm() {
    let odd = "/home/m\re/.meadow";
    let mut profiles = home(&[".profile"]);
    let to = add(odd, &profiles);
    assert!(write(&mut profiles, to));
    let p = &profiles[at(&profiles, ".profile")];
    assert_eq!(remove(odd, &p.text).as_deref(), Some(SOMETHING));
    assert_eq!(remove(odd, SOMETHING), None);
}
