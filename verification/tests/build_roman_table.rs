use dvorakjp_romantable::build_roman_table::RomanTableBuilder;
use dvorakjp_romantable::romaji::Romaji;

#[test]
fn test_filter_lines() {
    let lines = vec![
        "ka\tか".to_string(),
        "".to_string(),
        "ki\tき".to_string(),
        "# コメント".to_string(),
        "  ".to_string(),
        "ku\tく".to_string(),
    ];
    let result = RomanTableBuilder::filter_lines(lines);
    assert_eq!(result, vec!["ka\tか", "ki\tき", "ku\tく"]);
}

#[test]
fn test_to_romaji() {
    let lines = vec![
        "ka\tか".to_string(),
        "ki\tき".to_string(),
        "ku\tく".to_string(),
    ];
    let result = RomanTableBuilder::to_romaji(lines);
    assert_eq!(result.len(), 3);
    assert_eq!(result[0].input, "ka");
    assert_eq!(result[0].output, "か");
    assert!(result[0].next_input.is_none());
    assert_eq!(result[1].input, "ki");
    assert_eq!(result[1].output, "き");
    assert_eq!(result[2].input, "ku");
    assert_eq!(result[2].output, "く");
}

#[test]
fn test_sort_romaji() {
    let entries = vec![
        Romaji {
            input: "ku".to_string(),
            output: "く".to_string(),
            next_input: None,
        },
        Romaji {
            input: "ka".to_string(),
            output: "か".to_string(),
            next_input: None,
        },
        Romaji {
            input: "sa".to_string(),
            output: "さ".to_string(),
            next_input: None,
        },
        Romaji {
            input: "ki".to_string(),
            output: "き".to_string(),
            next_input: None,
        },
        Romaji {
            input: "ai".to_string(),
            output: "あい".to_string(),
            next_input: None,
        },
    ];
    let result = RomanTableBuilder::sort_romaji(entries);
    let inputs: Vec<&str> = result.iter().map(|r| r.input.as_str()).collect();
    assert_eq!(inputs, vec!["ai", "ka", "ki", "ku", "sa"]);
}

#[test]
fn test_sort_key() {
    let key_a = RomanTableBuilder::sort_key("a");
    let key_ka = RomanTableBuilder::sort_key("ka");
    let key_sa = RomanTableBuilder::sort_key("sa");

    assert!(key_a < key_ka);
    assert!(key_ka < key_sa);

    let key_ka = RomanTableBuilder::sort_key("ka");
    let key_ki = RomanTableBuilder::sort_key("ki");
    let key_ku = RomanTableBuilder::sort_key("ku");
    let key_ke = RomanTableBuilder::sort_key("ke");
    let key_ko = RomanTableBuilder::sort_key("ko");

    assert!(key_ka < key_ki);
    assert!(key_ki < key_ku);
    assert!(key_ku < key_ke);
    assert!(key_ke < key_ko);
}
