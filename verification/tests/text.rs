use bakkes_sync::text::{
    chars_eq, from_chars, has_prefix, has_suffix, is_space, join_chars, lines_chars, lower_char,
    lower_chars, slice_chars, split_chars, to_chars, trim_chars,
};

fn split_of(s: &str, sep: char) -> Vec<String> {
    split_chars(&to_chars(s), sep).iter().map(from_chars).collect()
}

fn lines_of(s: &str) -> Vec<String> {
    lines_chars(&to_chars(s)).iter().map(from_chars).collect()
}

fn trim_of(s: &str) -> String {
    from_chars(&trim_chars(&to_chars(s)))
}

#[test]
fn chars_round_trip() {
    for s in ["", "a", "héllo wörld", "line\nline\r\n", "\u{3000}x\u{1F600}"] {
        let v = to_chars(s);
        assert_eq!(v, s.chars().collect::<Vec<char>>());
        assert_eq!(from_chars(&v), s);
    }
}

#[test]
fn chars_eq_compares_whole_texts() {
    assert!(chars_eq(&to_chars("abc"), &to_chars("abc")));
    assert!(chars_eq(&to_chars(""), &to_chars("")));
    assert!(!chars_eq(&to_chars("abc"), &to_chars("abd")));
    assert!(!chars_eq(&to_chars("abc"), &to_chars("ab")));
    assert!(!chars_eq(&to_chars("ab"), &to_chars("abc")));
}

#[test]
fn slices_are_half_open() {
    let v = to_chars("plugins");
    assert_eq!(from_chars(&slice_chars(&v, 0, 7)), "plugins");
    assert_eq!(from_chars(&slice_chars(&v, 2, 4)), "ug");
    assert_eq!(from_chars(&slice_chars(&v, 3, 3)), "");
}

#[test]
fn split_keeps_empty_pieces() {
    assert_eq!(split_of("a/b/c", '/'), vec!["a", "b", "c"]);
    assert_eq!(split_of("", '/'), vec![""]);
    assert_eq!(split_of("/", '/'), vec!["", ""]);
    assert_eq!(split_of("/a//b/", '/'), vec!["", "a", "", "b", ""]);
    assert_eq!(split_of("abc", '/'), vec!["abc"]);
}

#[test]
fn split_agrees_with_std() {
    for s in ["", "a", "a\nb", "\n", "\n\n", "a\n\nb\n", "x/y", "//", "trailing/"] {
        for sep in ['\n', '/'] {
            let expected: Vec<String> = s.split(sep).map(|p| p.to_string()).collect();
            assert_eq!(split_of(s, sep), expected);
        }
    }
}

#[test]
fn join_puts_the_separator_between_pieces() {
    let parts = vec![to_chars("a"), to_chars(""), to_chars("bc")];
    assert_eq!(from_chars(&join_chars(&parts, 0, 3, '\n')), "a\n\nbc");
    assert_eq!(from_chars(&join_chars(&parts, 1, 3, '/')), "/bc");
    assert_eq!(from_chars(&join_chars(&parts, 2, 3, '/')), "bc");
    assert_eq!(from_chars(&join_chars(&parts, 1, 1, '/')), "");
}

#[test]
fn join_undoes_split() {
    for s in ["", "a", "a/b", "/a//b/", "no separator"] {
        let parts = split_chars(&to_chars(s), '/');
        assert_eq!(from_chars(&join_chars(&parts, 0, parts.len(), '/')), s);
    }
}

#[test]
fn white_space_agrees_with_std_on_every_char() {
    let mut code: u32 = 0;
    while code <= 0x10FFFF {
        if let Some(c) = char::from_u32(code) {
            assert_eq!(is_space(c), c.is_whitespace());
        }
        code += 1;
    }
}

#[test]
fn lower_case_agrees_with_std_on_every_char() {
    let mut code: u32 = 0;
    while code <= 0x10FFFF {
        if let Some(c) = char::from_u32(code) {
            assert_eq!(lower_char(c), c.to_ascii_lowercase());
        }
        code += 1;
    }
}

#[test]
fn lower_chars_touches_ascii_capitals_only() {
    assert_eq!(from_chars(&lower_chars(&to_chars("MyPlugin.DLL"))), "myplugin.dll");
    assert_eq!(from_chars(&lower_chars(&to_chars("ÄBC-_09"))), "Äbc-_09");
}

#[test]
fn trim_takes_white_space_off_both_ends() {
    assert_eq!(trim_of("  plugin load foo \r"), "plugin load foo");
    assert_eq!(trim_of("\t\u{00A0}x y\u{3000}\n"), "x y");
    assert_eq!(trim_of("   "), "");
    assert_eq!(trim_of(""), "");
    assert_eq!(trim_of("a"), "a");
}

#[test]
fn trim_agrees_with_std() {
    for s in ["", " ", "a", " a", "a ", " a b ", "\r\n", "\u{2028}x\u{2029}", "\u{200B}x", "é "] {
        assert_eq!(trim_of(s), s.trim());
    }
}

#[test]
fn lines_end_at_line_feeds() {
    assert_eq!(lines_of("a\nb\n"), vec!["a", "b"]);
    assert_eq!(lines_of("a\nb"), vec!["a", "b"]);
    assert_eq!(lines_of(""), Vec::<String>::new());
    assert_eq!(lines_of("\n"), vec![""]);
    assert_eq!(lines_of("\n\n"), vec!["", ""]);
    assert_eq!(lines_of("a\n\nb"), vec!["a", "", "b"]);
}

#[test]
fn lines_drop_the_carriage_return_of_a_line_ending() {
    assert_eq!(lines_of("a\r\nb\r\n"), vec!["a", "b"]);
    assert_eq!(lines_of("a\r\r\nb"), vec!["a\r", "b"]);
    assert_eq!(lines_of("a\rb\n"), vec!["a\rb"]);
}

#[test]
fn a_last_line_without_line_feed_keeps_its_carriage_return() {
    assert_eq!(lines_of("foo\r\nbar\n\nbaz\r"), vec!["foo", "bar", "", "baz\r"]);
}

#[test]
fn lines_agree_with_std() {
    for s in [
        "",
        "a",
        "a\n",
        "a\r\n",
        "a\r",
        "\r",
        "\r\n",
        "\n\r",
        "a\n\nb",
        "a\r\n\r\nb\r\n",
        "plugin load foo\nplugin load bar",
        "x\r\r\n",
    ] {
        let expected: Vec<String> = s.lines().map(|l| l.to_string()).collect();
        assert_eq!(lines_of(s), expected);
    }
}

#[test]
fn prefixes_and_suffixes() {
    let v = to_chars("plugins/foo.nix-managed");
    assert!(has_prefix(&v, &to_chars("plugins/")));
    assert!(has_prefix(&v, &to_chars("")));
    assert!(!has_prefix(&v, &to_chars("plugins\\")));
    assert!(!has_prefix(&to_chars("plug"), &to_chars("plugins/")));
    assert!(has_suffix(&v, &to_chars(".nix-managed")));
    assert!(has_suffix(&v, &to_chars("")));
    assert!(!has_suffix(&v, &to_chars(".nix-manage")));
    assert!(!has_suffix(&to_chars("managed"), &to_chars(".nix-managed")));
}
