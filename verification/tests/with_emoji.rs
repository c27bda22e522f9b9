use dvorakjp_romantable::romaji::Romaji;
use dvorakjp_romantable::with_emoji::WithEmojiBuilder;

fn entry(input: &str, output: &str) -> Romaji {
    Romaji { input: input.to_string(), output: output.to_string(), next_input: None }
}

fn lines_of(table: &[Romaji]) -> Vec<String> {
    table.iter().map(|r| r.to_line()).collect()
}

#[test]
fn base_entry_wins_over_emoji() {
    let table = WithEmojiBuilder::merge_records(vec![entry("ka", "か")], vec![entry("ka", "😀")]);
    assert_eq!(lines_of(&table), vec!["ka\tか"]);
}

#[test]
fn base_text_wins_over_emoji() {
    let table = WithEmojiBuilder::merge("ka\tか", vec![entry("ka", "😀")]);
    assert_eq!(lines_of(&table), vec!["ka\tか"]);
}

#[test]
fn new_emoji_are_added_in_order() {
    let table = WithEmojiBuilder::merge(
        "a\tあ\nka\tか\nsa\tさ\n",
        vec![entry(":smile:", "😄"), entry("ki", "🔑"), entry("sa", "🧂"), entry(":cat:", "🐱")],
    );
    assert_eq!(lines_of(&table), vec!["a\tあ", "ka\tか", "ki\t🔑", "sa\tさ", ":cat:\t🐱", ":smile:\t😄"]);
}

#[test]
fn emoji_with_the_same_input_both_stay() {
    let table = WithEmojiBuilder::merge_records(vec![entry("a", "あ")], vec![entry(";x", "1"), entry(";x", "2")]);
    assert_eq!(lines_of(&table), vec!["a\tあ", ";x\t1", ";x\t2"]);
}

#[test]
fn holds_input_finds_exact_input() {
    let entries = vec![entry("ka", "か"), entry("ki", "き")];
    assert!(WithEmojiBuilder::holds_input(&entries, &"ki".to_string()));
    assert!(!WithEmojiBuilder::holds_input(&entries, &"KI".to_string()));
    assert!(!WithEmojiBuilder::holds_input(&Vec::new(), &"ki".to_string()));
}

#[test]
fn nothing_merged_with_nothing_is_nothing() {
    assert!(WithEmojiBuilder::merge("", Vec::new()).is_empty());
}
