use sonar::snippet::{excerpt_at, make_snippet, snippet_from};

#[test]
fn short_text_is_shown_whole() {
    assert_eq!(make_snippet("  one\ttwo\n three ", "two", 140), "one two three");
    assert_eq!(make_snippet("", "two", 140), "");
}

#[test]
fn window_is_around_the_match() {
    let text = format!("{} needle {}", "a".repeat(300), "b".repeat(300));
    let s = make_snippet(&text, "NEEDLE", 20);
    assert_eq!(s, "…aaaaaaaaa needle bbb…");
    assert_eq!(make_snippet("abcdefghij", "zzz", 4), "abcd…");
    assert_eq!(make_snippet("abcdefghij", "", 4), "abcd…");
    assert_eq!(make_snippet("abcdefghij", "j", 4), "…hij");
}

#[test]
fn first_place_of_any_word_counts() {
    let text = format!("{}second{}first", "x".repeat(50), "y".repeat(50));
    assert!(make_snippet(&text, "first second", 20).contains("second"));
    assert!(make_snippet(&text, "second first", 20).contains("second"));
    assert!(make_snippet(&text, "missing first", 20).contains("first"));
    let text = format!("bb{}aa", " x".repeat(40));
    assert!(make_snippet(&text, "aa bb", 10).starts_with("bb"));
}

#[test]
fn longer_lowercase_forms_do_not_shift_the_window() {
    let text = format!("{} needle {}", "İ".repeat(200), "b".repeat(100));
    let s = make_snippet(&text, "needle", 40);
    assert!(s.contains("needle"), "{s}");
    let text = format!("{}needle", "\u{212A}".repeat(100));
    let s = make_snippet(&text, "needle", 20);
    assert!(s.contains("needle"), "{s}");
    assert_eq!(excerpt_at("abcdefghij", 5, 4), "…defg…");
    assert_eq!(excerpt_at("abc", 3, 2), "…c");
}

#[test]
fn characters_stay_whole() {
    let text = "ééééééééééneedleéééééééééé";
    let s = make_snippet(text, "needle", 11);
    assert_eq!(s, "…éééneedle…");
    for max in 0..40 {
        let s = make_snippet(text, "needle", max);
        assert!(s.chars().count() <= max + 2);
    }
}

#[test]
fn snippets_are_one_line() {
    let text = "fn main() {\n    let   x = 1;\r\n\tneedle\u{2003}end\n}\n";
    let s = make_snippet(text, "needle", 30);
    assert!(!s.contains('\n') && !s.contains("  ") && !s.contains('\t') && !s.contains('\u{2003}'));
    assert!(s.contains("needle"));
}

#[test]
fn largest_window() {
    assert_eq!(make_snippet("a b", "b", usize::MAX), "a b");
    let list = vec!["b".to_string()];
    assert_eq!(snippet_from("a b c d", "a b c d", &list, 2), "…b…");
    assert_eq!(snippet_from("text", "", &list, 100), "text");
}
