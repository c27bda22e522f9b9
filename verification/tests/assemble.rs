use dvorakjp_romantable::build_roman_table::RomanTableBuilder;
use dvorakjp_romantable::romaji::Romaji;

fn entry(input: &str, output: &str) -> Romaji {
    Romaji { input: input.to_string(), output: output.to_string(), next_input: None }
}

fn layer(texts: &[&str]) -> Vec<String> {
    texts.iter().map(|t| t.to_string()).collect()
}

fn lines_of(table: &[Romaji]) -> Vec<String> {
    table.iter().map(|r| r.to_line()).collect()
}

#[test]
fn fragment_files_end_in_tsv() {
    assert!(RomanTableBuilder::is_fragment_file("a.tsv"));
    assert!(RomanTableBuilder::is_fragment_file("vowels.tsv"));
    assert!(RomanTableBuilder::is_fragment_file("a.b.tsv"));
    assert!(RomanTableBuilder::is_fragment_file("..tsv"));
    assert!(RomanTableBuilder::is_fragment_file("あ.tsv"));
    assert!(!RomanTableBuilder::is_fragment_file(".tsv"));
    assert!(!RomanTableBuilder::is_fragment_file("tsv"));
    assert!(!RomanTableBuilder::is_fragment_file(""));
    assert!(!RomanTableBuilder::is_fragment_file("a.txt"));
    assert!(!RomanTableBuilder::is_fragment_file("a.tsv.bak"));
    assert!(!RomanTableBuilder::is_fragment_file("a.TSV"));
    assert!(!RomanTableBuilder::is_fragment_file("atsv"));
}

#[test]
fn fragment_files_agree_with_path_extension() {
    for name in ["a.tsv", ".tsv", "..tsv", "x", "x.", "x.tsv.", "x.y.tsv", "tsv", "a.tsvv", "a.ts"] {
        let expected = std::path::Path::new(name).extension().and_then(|e| e.to_str()) == Some("tsv");
        assert_eq!(RomanTableBuilder::is_fragment_file(name), expected, "{:?}", name);
    }
}

#[test]
fn read_lines_goes_layer_by_layer() {
    let layers = vec![layer(&["a\nb\n", "c"]), layer(&[]), layer(&["d\r\ne"])];
    assert_eq!(RomanTableBuilder::read_lines(&layers), vec!["a", "b", "c", "d", "e"]);
    assert_eq!(RomanTableBuilder::read_lines(&Vec::new()), Vec::<String>::new());
}

#[test]
fn substitute_char_takes_the_first_pair() {
    let transforms = [(',', '、'), ('.', '。'), (',', 'x')];
    assert_eq!(RomanTableBuilder::substitute_char(&transforms, ','), '、');
    assert_eq!(RomanTableBuilder::substitute_char(&transforms, '.'), '。');
    assert_eq!(RomanTableBuilder::substitute_char(&transforms, 'a'), 'a');
    assert_eq!(RomanTableBuilder::substitute_char(&[], ','), ',');
}

#[test]
fn substitute_char_does_not_chain() {
    let transforms = [('a', 'b'), ('b', 'c')];
    assert_eq!(RomanTableBuilder::substitute_char(&transforms, 'a'), 'b');
}

#[test]
fn retarget_changes_inputs_only() {
    let transforms = [('\'', '\u{2019}'), (',', '、'), ('.', '。'), (';', '；')];
    let entries = vec![
        Romaji { input: "n;".to_string(), output: ";,".to_string(), next_input: Some(";".to_string()) },
        entry("ka", "か"),
        entry(",.", "x"),
    ];
    let out = RomanTableBuilder::retarget(entries, &transforms);
    assert_eq!(out.len(), 3);
    assert_eq!(out[0].input, "n；");
    assert_eq!(out[0].output, ";,");
    assert_eq!(out[0].next_input, Some(";".to_string()));
    assert_eq!(out[1].input, "ka");
    assert_eq!(out[2].input, "、。");
}

#[test]
fn merge_replaces_in_place() {
    let entries = vec![entry("ka", "か"), entry("ki", "き"), entry("ka", "が"), entry("ku", "く"), entry("ka", "カ")];
    let table = RomanTableBuilder::merge(entries);
    assert_eq!(lines_of(&table), vec!["ka\tカ", "ki\tき", "ku\tく"]);
}

#[test]
fn merge_tells_capitals_from_small_letters() {
    let table = RomanTableBuilder::merge(vec![entry("ka", "か"), entry("KA", "カ")]);
    assert_eq!(lines_of(&table), vec!["ka\tか", "KA\tカ"]);
}

#[test]
fn sort_romaji_is_stable() {
    let entries = vec![
        entry("KA", "1"),
        entry("2", "2"),
        entry("ka", "3"),
        entry("1", "4"),
        entry("a", "5"),
        entry("Ka", "6"),
        entry("k", "7"),
    ];
    let sorted = RomanTableBuilder::sort_romaji(entries);
    assert_eq!(lines_of(&sorted), vec!["a\t5", "k\t7", "KA\t1", "ka\t3", "Ka\t6", "2\t2", "1\t4"]);
}

#[test]
fn sort_romaji_of_nothing_is_nothing() {
    assert!(RomanTableBuilder::sort_romaji(Vec::new()).is_empty());
}

#[test]
fn sort_romaji_orders_by_sound() {
    let inputs = ["xa", "pa", "wa", "ko", "ke", "ku", "ki", "ka", "o", "e", "u", "i", "a", "ca", "k"];
    let entries: Vec<Romaji> = inputs.iter().map(|i| entry(i, "")).collect();
    let sorted = RomanTableBuilder::sort_romaji(entries);
    let got: Vec<&str> = sorted.iter().map(|r| r.input.as_str()).collect();
    assert_eq!(got, vec!["a", "i", "u", "e", "o", "k", "ka", "ki", "ku", "ke", "ko", "ca", "wa", "pa", "xa"]);
}

#[test]
fn sort_romaji_agrees_with_std_stable_sort() {
    let inputs = ["sa", "KA", "ka", "1", "a", "2", "nn", "n", "Sa", "tt", "", "x", "ko", "i", "ai", "ka"];
    let entries: Vec<Romaji> = inputs.iter().enumerate().map(|(n, i)| entry(i, &n.to_string())).collect();
    let mut expected: Vec<Romaji> = inputs.iter().enumerate().map(|(n, i)| entry(i, &n.to_string())).collect();
    expected.sort_by(|a, b| RomanTableBuilder::sort_key(&a.input).cmp(&RomanTableBuilder::sort_key(&b.input)));
    let sorted = RomanTableBuilder::sort_romaji(entries);
    assert_eq!(lines_of(&sorted), lines_of(&expected));
}

#[test]
fn higher_layer_overrides_lower() {
    let a = layer(&["ka\tか"]);
    let b = layer(&["ka\tが"]);
    let table = RomanTableBuilder::assemble(&vec![a, b], &[]);
    assert_eq!(table.len(), 1);
    assert_eq!(table[0].input, "ka");
    assert_eq!(table[0].output, "が");
    assert_eq!(table[0].next_input, None);
}

#[test]
fn last_seen_wins_within_a_layer() {
    let a = layer(&["ka\t1\nki\t2\n", "ka\t3\n"]);
    let table = RomanTableBuilder::assemble(&vec![a], &[]);
    assert_eq!(lines_of(&table), vec!["ka\t3", "ki\t2"]);
}

#[test]
fn assemble_filters_parses_merges_and_sorts() {
    let base = layer(&[
        "# vowels\na\tあ\ni\tい\n\nu\tう\n",
        "sa\tさ\nka\tか\n  \nbroken line\ntt\tっ\tt\n",
    ]);
    let target = layer(&["ka\tカ\n# override\n,\t、\n"]);
    let table = RomanTableBuilder::assemble(&vec![base, target], &[]);
    assert_eq!(lines_of(&table), vec!["a\tあ", "i\tい", "u\tう", "ka\tカ", "sa\tさ", "tt\tっ\tt", ",\t、"]);
}

#[test]
fn assemble_substitutes_before_merging() {
    let transforms = [(',', '、'), ('.', '。')];
    let base = layer(&["n,\tん、\n、\tx\n,\ty\n"]);
    let table = RomanTableBuilder::assemble(&vec![base], &transforms);
    assert_eq!(lines_of(&table), vec!["n、\tん、", "、\ty"]);
}

#[test]
fn assemble_of_nothing_is_empty() {
    assert!(RomanTableBuilder::assemble(&Vec::new(), &[]).is_empty());
    assert!(RomanTableBuilder::assemble(&vec![layer(&["", "# only\n\n"])], &[]).is_empty());
}

#[test]
fn assemble_twice_gives_the_same_text() {
    let layers = vec![
        layer(&["ku\tく\nKA\tカ\nka\tか\n1\tone\n2\ttwo\n", "sa\tさ\nai\tあい\n"]),
        layer(&["ka\tが\nki\tき\n"]),
    ];
    let transforms = [(';', '；')];
    let first = RomanTableBuilder::serialize(&RomanTableBuilder::assemble(&layers, &transforms));
    let second = RomanTableBuilder::serialize(&RomanTableBuilder::assemble(&layers, &transforms));
    assert_eq!(first, second);
    assert_eq!(first, "ai\tあい\nKA\tカ\nka\tが\nki\tき\nku\tく\nsa\tさ\n1\tone\n2\ttwo");
}

#[test]
fn serialize_joins_lines() {
    assert_eq!(RomanTableBuilder::serialize(&Vec::new()), "");
    assert_eq!(RomanTableBuilder::serialize(&vec![entry("ka", "か")]), "ka\tか");
    let table = vec![
        entry("ka", "か"),
        Romaji { input: "tt".to_string(), output: "っ".to_string(), next_input: Some("t".to_string()) },
    ];
    assert_eq!(RomanTableBuilder::serialize(&table), "ka\tか\ntt\tっ\tt");
}
