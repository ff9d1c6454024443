use meadow::installer::ui::{render, seconds, size, visible, Elapsed, BAR};

#[test]
fn sizes_read_as_a_person_would_write_them() {
    assert_eq!(size(0), "0 B");
    assert_eq!(size(1023), "1023 B");
    assert_eq!(size(1024), "1.0 KiB");
    assert_eq!(size(8 * 1024 * 1024 + 204_800), "8.2 MiB");
    assert_eq!(size(3 * 1024 * 1024 * 1024), "3.0 GiB");
}

#[test]
fn a_bar_half_way_is_half_full_and_says_how_long_is_left() {
    let line = render(50, Some(100), Elapsed::from_secs(5), false, false);
    assert!(
        line.starts_with("[==============>               ]"),
        "{line}"
    );
    assert!(line.contains("( 50 %)"), "{line}");
    // 50 bytes in 5 seconds leaves 50 bytes, 5 more seconds.
    assert!(line.ends_with("ETA  5s"), "{line}");
}

#[test]
fn a_finished_bar_is_full_and_says_how_long_it_took() {
    let line = render(100, Some(100), Elapsed::from_secs(3), true, false);
    assert!(
        line.starts_with(&format!("[{}]", "=".repeat(BAR))),
        "{line}"
    );
    assert!(line.contains("(100 %)"), "{line}");
    assert!(line.ends_with("in 3s"), "{line}");
}

#[test]
fn a_bar_never_runs_past_its_end() {
    // A server that sends more than it said it would must not break the
    // drawing.
    let line = render(150, Some(100), Elapsed::from_secs(1), false, false);
    assert!(line.contains("(100 %)"), "{line}");
    assert!(
        line.starts_with(&format!("[{}]", "=".repeat(BAR))),
        "{line}"
    );
}

#[test]
fn with_no_length_the_amount_and_speed_are_still_shown() {
    let line = render(2048, None, Elapsed::from_secs(2), false, false);
    assert!(!line.contains('['), "{line}");
    assert!(line.contains("2.0 KiB"), "{line}");
    assert!(line.contains("1.0 KiB/s"), "{line}");
}

#[test]
fn nothing_yet_is_not_a_division_by_zero() {
    let line = render(0, Some(100), Elapsed::from_secs(0), false, false);
    assert!(line.contains("(  0 %)"), "{line}");
    assert!(!line.contains("ETA"), "{line}");
}

#[test]
fn a_coloured_bar_takes_the_same_columns_as_a_plain_one() {
    // The escapes must not count, or redrawing would leave debris behind.
    let plain = render(40, Some(100), Elapsed::from_secs(2), false, false);
    let coloured = render(40, Some(100), Elapsed::from_secs(2), false, true);
    assert_ne!(plain, coloured);
    assert!(coloured.contains("\x1b[1;36m"), "{coloured:?}");
    assert_eq!(visible(&coloured), plain.chars().count());
}

#[test]
fn a_finished_bar_turns_green() {
    let line = render(100, Some(100), Elapsed::from_secs(1), true, true);
    assert!(line.contains("\x1b[1;32m"), "{line:?}");
}

#[test]
fn long_waits_read_in_minutes() {
    assert_eq!(seconds(65), "1m 05s");
    assert_eq!(seconds(9), "9s");
}

#[test]
fn colour_changes_nothing_but_colour() {
    let e = Elapsed { secs: 3, nanos: 0 };
    let plain = render(500, Some(1000), e, false, false);
    let coloured = render(500, Some(1000), e, false, true);
    let mut left = String::new();
    let mut escape = false;
    for c in coloured.chars() {
        if escape {
            escape = !c.is_ascii_alphabetic();
        } else if c == '\u{1b}' {
            escape = true;
        } else {
            left.push(c);
        }
    }
    assert_eq!(left, plain);
    assert_eq!(plain.find(']'), Some(BAR + 1));
    assert_eq!(plain.trim_end(), plain);
}
