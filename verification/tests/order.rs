use dvorakjp_romantable::build_roman_table::RomanTableBuilder;
use dvorakjp_romantable::order::{key_less, lower_of, rank_of};

#[test]
fn rank_follows_the_priority_list() {
    let list = "aiueokcstnhmyrwgzdbpfjvqlx";
    for (i, c) in list.chars().enumerate() {
        assert_eq!(rank_of(c), i);
        assert_eq!(rank_of(c.to_ascii_uppercase()), i);
    }
}

#[test]
fn rank_of_other_characters_is_past_the_list() {
    for c in ['1', ';', ',', '.', ' ', '\t', 'あ', 'Ａ', '\u{2019}', '😀', '[', '`', '{', '@'] {
        assert_eq!(rank_of(c), 26);
    }
}

#[test]
fn lower_of_changes_ascii_capitals_only() {
    for u in 0u32..=0x10FFFF {
        if let Some(c) = char::from_u32(u) {
            assert_eq!(lower_of(c), c.to_ascii_lowercase());
        }
    }
}

#[test]
fn sort_key_lists_ranks() {
    assert_eq!(RomanTableBuilder::sort_key(""), Vec::<usize>::new());
    assert_eq!(RomanTableBuilder::sort_key("a"), vec![0]);
    assert_eq!(RomanTableBuilder::sort_key("ka"), vec![5, 0]);
    assert_eq!(RomanTableBuilder::sort_key("KA"), vec![5, 0]);
    assert_eq!(RomanTableBuilder::sort_key("xtu"), vec![25, 8, 2]);
    assert_eq!(RomanTableBuilder::sort_key("n;"), vec![9, 26]);
    assert_eq!(RomanTableBuilder::sort_key("。あ"), vec![26, 26]);
}

#[test]
fn key_less_is_lexicographic() {
    let k = |s: &str| RomanTableBuilder::sort_key(s);
    assert!(key_less(&k("a"), &k("ka")));
    assert!(key_less(&k("ka"), &k("sa")));
    assert!(!key_less(&k("sa"), &k("ka")));
    assert!(key_less(&k("k"), &k("ka")));
    assert!(!key_less(&k("ka"), &k("k")));
    assert!(key_less(&k(""), &k("a")));
    assert!(!key_less(&k(""), &k("")));
    assert!(!key_less(&k("ka"), &k("ka")));
    assert!(!key_less(&k("ka"), &k("KA")));
    assert!(!key_less(&k("1"), &k("2")));
    assert!(key_less(&k("x"), &k("1")));
    assert!(key_less(&k("ko"), &k("ca")));
}

#[test]
fn key_less_agrees_with_vec_order() {
    let words = ["", "a", "i", "ka", "ki", "k", "sa", "KA", "x", "1", "xa", "1a", "ai", "ia", "nn"];
    for a in words {
        for b in words {
            let ka = RomanTableBuilder::sort_key(a);
            let kb = RomanTableBuilder::sort_key(b);
            assert_eq!(key_less(&ka, &kb), ka < kb, "{:?} {:?}", a, b);
        }
    }
}
