use dvorakjp_romantable::detect_duplicates::DuplicateDetector;
use dvorakjp_romantable::romaji::Romaji;

fn entry(input: &str, output: &str) -> Romaji {
    Romaji { input: input.to_string(), output: output.to_string(), next_input: None }
}

#[test]
fn detect_reports_repeated_input_with_count() {
    let report = DuplicateDetector::detect("ka\tか\nka\tか\nki\tき");
    assert_eq!(report, vec![("ka".to_string(), 2)]);
}

#[test]
fn detect_reports_nothing_for_distinct_inputs() {
    assert!(DuplicateDetector::detect("").is_empty());
    assert!(DuplicateDetector::detect("ka\tか\nki\tき\nKA\tカ\n").is_empty());
}

#[test]
fn detect_follows_first_occurrence() {
    let report = DuplicateDetector::detect("b\t1\na\t2\nc\t3\na\t4\nb\t5\na\t6\nd\t7\n");
    assert_eq!(report, vec![("b".to_string(), 2), ("a".to_string(), 3)]);
}

#[test]
fn detect_passes_over_lines_without_entry() {
    let report = DuplicateDetector::detect("ka\tか\nka\n\nka\nki\tき\r\nki\tぎ\tx\n");
    assert_eq!(report, vec![("ki".to_string(), 2)]);
}

#[test]
fn detect_in_counts_entries() {
    let entries = vec![entry("x", "1"), entry("x", "2"), entry("x", "3"), entry("y", "4")];
    assert_eq!(DuplicateDetector::detect_in(&entries), vec![("x".to_string(), 3)]);
    assert_eq!(DuplicateDetector::count(&entries, &"x".to_string()), 3);
    assert_eq!(DuplicateDetector::count(&entries, &"y".to_string()), 1);
    assert_eq!(DuplicateDetector::count(&entries, &"z".to_string()), 0);
}
