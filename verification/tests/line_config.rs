use bakkes_sync::line_config::{contains_line, ensure_line_present, remove_line};

fn with_line(content: &str, line: &str) -> String {
    match ensure_line_present(content, line) {
        None => content.to_string(),
        Some(text) => format!("{content}{text}"),
    }
}

fn count(content: &str, line: &str) -> usize {
    content.lines().filter(|l| l.trim() == line).count()
}

#[test]
fn a_line_is_found_whatever_surrounds_it() {
    assert!(contains_line("exec nix-config.cfg\n", "exec nix-config.cfg"));
    assert!(contains_line("a\n  exec nix-config.cfg\t\r\nb", "exec nix-config.cfg"));
    assert!(contains_line("a\nexec nix-config.cfg", "exec nix-config.cfg"));
    assert!(!contains_line("", "exec nix-config.cfg"));
    assert!(!contains_line("exec nix-config.cfg2\n", "exec nix-config.cfg"));
    assert!(!contains_line("// exec nix-config.cfg\n", "exec nix-config.cfg"));
}

#[test]
fn matching_is_exact_and_case_sensitive() {
    assert!(!contains_line("Plugin Load foo\n", "plugin load foo"));
    assert!(!contains_line("plugin load foobar\n", "plugin load foo"));
    assert!(!contains_line("plugin  load foo\n", "plugin load foo"));
}

#[test]
fn an_empty_line_is_a_line() {
    assert!(contains_line("a\n\nb", ""));
    assert!(contains_line("   \n", ""));
    assert!(!contains_line("", ""));
    assert!(!contains_line("a\n", ""));
}

#[test]
fn a_line_goes_to_the_end_of_an_empty_file() {
    assert_eq!(
        ensure_line_present("", "exec nix-config.cfg"),
        Some("exec nix-config.cfg\n".to_string())
    );
}

#[test]
fn a_line_goes_after_a_final_line_feed() {
    assert_eq!(
        ensure_line_present("bind F1 x\n", "exec nix-config.cfg"),
        Some("exec nix-config.cfg\n".to_string())
    );
}

#[test]
fn a_line_feed_is_put_first_where_the_file_lacks_one() {
    assert_eq!(
        ensure_line_present("bind F1 x", "exec nix-config.cfg"),
        Some("\nexec nix-config.cfg\n".to_string())
    );
    assert_eq!(with_line("bind F1 x", "exec nix-config.cfg"), "bind F1 x\nexec nix-config.cfg\n");
}

#[test]
fn a_line_that_is_there_is_not_added() {
    assert_eq!(ensure_line_present("exec nix-config.cfg\n", "exec nix-config.cfg"), None);
    assert_eq!(ensure_line_present("a\n exec nix-config.cfg \nb", "exec nix-config.cfg"), None);
}

#[test]
fn ensuring_twice_leaves_one_occurrence() {
    for content in ["", "a", "a\n", "a\r\nb\r", "x\n\n", "plugin load bar\n"] {
        let line = "plugin load foo";
        let once = with_line(content, line);
        let twice = with_line(&once, line);
        assert_eq!(once, twice);
        assert_eq!(count(&once, line), 1);
        assert_eq!(ensure_line_present(&once, line), None);
    }
}

#[test]
fn ensuring_keeps_the_lines_before() {
    let once = with_line("plugin load bar\nplugin load baz", "plugin load foo");
    assert_eq!(once, "plugin load bar\nplugin load baz\nplugin load foo\n");
}

#[test]
fn a_line_with_white_space_around_it_is_never_found() {
    let once = with_line("", " padded ");
    assert_eq!(once, " padded \n");
    assert_eq!(ensure_line_present(&once, " padded "), Some(" padded \n".to_string()));
}

#[test]
fn removing_an_absent_line_writes_nothing() {
    assert_eq!(remove_line("", "plugin load foo"), None);
    assert_eq!(remove_line("plugin load bar\n", "plugin load foo"), None);
    assert_eq!(remove_line("plugin load foo2\r\n", "plugin load foo"), None);
}

#[test]
fn removing_takes_every_matching_line_out() {
    assert_eq!(
        remove_line("a\nplugin load foo\nb\n  plugin load foo\t\nc\n", "plugin load foo"),
        Some("a\nb\nc\n".to_string())
    );
}

#[test]
fn removing_keeps_whether_the_file_ended_with_a_line_feed() {
    assert_eq!(
        remove_line("a\nplugin load foo\nb", "plugin load foo"),
        Some("a\nb".to_string())
    );
    assert_eq!(
        remove_line("a\nplugin load foo\nb\n", "plugin load foo"),
        Some("a\nb\n".to_string())
    );
    assert_eq!(remove_line("a\nplugin load foo", "plugin load foo"), Some("a".to_string()));
}

#[test]
fn removing_the_only_line_leaves_the_final_line_feed() {
    assert_eq!(remove_line("plugin load foo\n", "plugin load foo"), Some("\n".to_string()));
    assert_eq!(remove_line("plugin load foo", "plugin load foo"), Some("".to_string()));
}

#[test]
fn removing_keeps_the_carriage_returns_of_the_other_lines() {
    assert_eq!(
        remove_line("a\r\nplugin load foo\r\nb\r\n", "plugin load foo"),
        Some("a\r\nb\r\n".to_string())
    );
    assert_eq!(
        remove_line("a\r\nplugin load foo\r\nb\r", "plugin load foo"),
        Some("a\r\nb\r".to_string())
    );
    assert_eq!(
        remove_line("a\r\r\nplugin load foo\nb \r\n", "plugin load foo"),
        Some("a\r\r\nb \r\n".to_string())
    );
}

#[test]
fn removing_gives_the_content_without_the_lines_taken_out() {
    for content in [
        "plugin load foo\r\nkeep\r\n",
        "keep\nplugin load foo",
        "a\n\n plugin load foo \n\nb\n",
        "x\r\nplugin load foo\r\ny\r\nplugin load foo\r\nz",
    ] {
        let expected: String = content
            .split_inclusive('\n')
            .filter(|l| l.trim() != "plugin load foo")
            .collect();
        let expected = if content.ends_with('\n') || !expected.ends_with('\n') {
            expected
        } else {
            expected[..expected.len() - 1].to_string()
        };
        assert_eq!(remove_line(content, "plugin load foo"), Some(expected), "{content:?}");
    }
}

#[test]
fn the_other_lines_stay_as_they_are() {
    assert_eq!(
        remove_line("  keep me  \nplugin load foo\n\tand me\n", "plugin load foo"),
        Some("  keep me  \n\tand me\n".to_string())
    );
}

#[test]
fn removing_then_ensuring_puts_the_line_last() {
    let content = "plugin load foo\nplugin load bar\n";
    let removed = remove_line(content, "plugin load foo").unwrap();
    assert_eq!(removed, "plugin load bar\n");
    assert_eq!(with_line(&removed, "plugin load foo"), "plugin load bar\nplugin load foo\n");
}
