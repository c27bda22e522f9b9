use dvorakjp_romantable::lines::{is_noise, join_lines, split_lines, white_space};

#[test]
fn white_space_agrees_with_std_on_every_char() {
    for u in 0u32..=0x10FFFF {
        if let Some(c) = char::from_u32(u) {
            assert_eq!(white_space(c), c.is_whitespace(), "U+{:04X}", u);
        }
    }
}

#[test]
fn noise_is_blank_or_comment() {
    assert!(is_noise(""));
    assert!(is_noise("  "));
    assert!(is_noise("\t"));
    assert!(is_noise("\u{3000}"));
    assert!(is_noise("# comment"));
    assert!(is_noise("   # indented comment"));
    assert!(is_noise("#"));
    assert!(!is_noise("ka\tか"));
    assert!(!is_noise("  ka\tか"));
    assert!(!is_noise("a # not a comment"));
    assert!(!is_noise("\tx"));
}

#[test]
fn noise_agrees_with_trimming() {
    for line in ["", " ", "#", " #", "a", " a ", "\u{a0}#x", "x#", "\t\tka\tか", "\r", "＃"] {
        let trimmed = line.trim();
        let expected = trimmed.is_empty() || trimmed.starts_with('#');
        assert_eq!(is_noise(line), expected, "{:?}", line);
    }
}

#[test]
fn split_lines_cuts_at_line_feeds() {
    assert_eq!(split_lines("a\nb\nc"), vec!["a", "b", "c"]);
    assert_eq!(split_lines("a\nb\n"), vec!["a", "b"]);
    assert_eq!(split_lines(""), Vec::<String>::new());
    assert_eq!(split_lines("\n"), vec![""]);
    assert_eq!(split_lines("\n\n"), vec!["", ""]);
    assert_eq!(split_lines("a\n\nb"), vec!["a", "", "b"]);
}

#[test]
fn split_lines_drops_carriage_return_before_line_feed_only() {
    assert_eq!(split_lines("a\r\nb\r\n"), vec!["a", "b"]);
    assert_eq!(split_lines("a\rb\n"), vec!["a\rb"]);
    assert_eq!(split_lines("a\r"), vec!["a\r"]);
    assert_eq!(split_lines("a\r\r\n"), vec!["a\r"]);
    assert_eq!(split_lines("\r\n"), vec![""]);
}

#[test]
fn split_lines_agrees_with_std() {
    for text in [
        "",
        "\n",
        "\r",
        "\r\n",
        "a",
        "a\n",
        "a\r\n",
        "a\r",
        "ka\tか\nki\tき\n",
        "ka\tか\r\nki\tき",
        "\n\na\n\n",
        "a\r\r\nb",
        "# c\n\n  \nx\ty\tz\n",
    ] {
        let expected: Vec<String> = text.lines().map(String::from).collect();
        assert_eq!(split_lines(text), expected, "{:?}", text);
    }
}

#[test]
fn join_lines_puts_line_feeds_between() {
    assert_eq!(join_lines(&Vec::new()), "");
    assert_eq!(join_lines(&vec!["a".to_string()]), "a");
    assert_eq!(join_lines(&vec!["a".to_string(), "b".to_string()]), "a\nb");
    assert_eq!(join_lines(&vec!["".to_string(), "".to_string()]), "\n");
    assert_eq!(
        join_lines(&vec!["ka\tか".to_string(), "ki\tき".to_string(), "ku\tく".to_string()]),
        "ka\tか\nki\tき\nku\tく"
    );
}

#[test]
fn joined_lines_split_again() {
    let lines = vec!["ka\tか".to_string(), "tt\tっ\tt".to_string(), "x\ty".to_string()];
    assert_eq!(split_lines(&join_lines(&lines)), lines);
}
