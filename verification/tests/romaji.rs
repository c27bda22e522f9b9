use dvorakjp_romantable::romaji::Romaji;

fn entry(input: &str, output: &str, next_input: Option<&str>) -> Romaji {
    Romaji {
        input: input.to_string(),
        output: output.to_string(),
        next_input: next_input.map(|s| s.to_string()),
    }
}

#[test]
fn from_line_reads_two_fields() {
    let r = Romaji::from_line("ka\tか").unwrap();
    assert_eq!(r.input, "ka");
    assert_eq!(r.output, "か");
    assert_eq!(r.next_input, None);
}

#[test]
fn from_line_reads_three_fields() {
    let r = Romaji::from_line("tt\tっ\tt").unwrap();
    assert_eq!(r.input, "tt");
    assert_eq!(r.output, "っ");
    assert_eq!(r.next_input, Some("t".to_string()));
}

#[test]
fn from_line_keeps_later_tabs_in_the_third_field() {
    let r = Romaji::from_line("a\tb\tc\td").unwrap();
    assert_eq!(r.input, "a");
    assert_eq!(r.output, "b");
    assert_eq!(r.next_input, Some("c\td".to_string()));
}

#[test]
fn from_line_without_tab_is_none() {
    assert!(Romaji::from_line("").is_none());
    assert!(Romaji::from_line("ka").is_none());
    assert!(Romaji::from_line("# comment").is_none());
}

#[test]
fn from_line_accepts_empty_fields() {
    let r = Romaji::from_line("\t").unwrap();
    assert_eq!(r.input, "");
    assert_eq!(r.output, "");
    assert_eq!(r.next_input, None);
    let r = Romaji::from_line("a\t\t").unwrap();
    assert_eq!(r.input, "a");
    assert_eq!(r.output, "");
    assert_eq!(r.next_input, Some(String::new()));
}

#[test]
fn to_line_joins_fields_with_tabs() {
    assert_eq!(entry("ka", "か", None).to_line(), "ka\tか");
    assert_eq!(entry("tt", "っ", Some("t")).to_line(), "tt\tっ\tt");
    assert_eq!(entry("a", "b", Some("")).to_line(), "a\tb\t");
}

#[test]
fn written_entry_reads_back() {
    let cases = vec![
        entry("ka", "か", None),
        entry("tt", "っ", Some("t")),
        entry("", "", None),
        entry(":smile:", "😀", None),
        entry("n", "ん", Some("with\ttab")),
        entry("KyA", "きゃ", Some("")),
    ];
    for r in cases {
        let back = Romaji::from_line(&r.to_line()).unwrap();
        assert_eq!(back.input, r.input);
        assert_eq!(back.output, r.output);
        assert_eq!(back.next_input, r.next_input);
    }
}

#[test]
fn tab_in_output_does_not_read_back() {
    let r = entry("a", "b\tc", None);
    let back = Romaji::from_line(&r.to_line()).unwrap();
    assert_eq!(back.input, "a");
    assert_eq!(back.output, "b");
    assert_eq!(back.next_input, Some("c".to_string()));
}

#[test]
fn read_line_writes_back() {
    for line in ["ka\tか", "tt\tっ\tt", "a\tb\tc\td", "\t", "a\t\t", "\t\t\t"] {
        assert_eq!(Romaji::from_line(line).unwrap().to_line(), line);
    }
}
