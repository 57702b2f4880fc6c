use hnu_algo::algorithms::word_count::{cut_words, sort_words};

fn alphabetic(w: &str) -> bool {
    !w.is_empty() && w.chars().all(|c| c.is_alphabetic())
}

#[test]
fn sort_words_counts_by_decreasing_frequency() {
    let text = "apple banana apple\n\n   \ncherry apple banana\r\n";
    let r = sort_words(text, alphabetic);
    assert_eq!(r[0], ("apple".to_string(), 3));
    assert_eq!(r[1], ("banana".to_string(), 2));
    assert_eq!(r[2], ("cherry".to_string(), 1));
    assert_eq!(r.len(), 3);
}

#[test]
fn sort_words_of_empty_text_is_empty() {
    assert!(sort_words("", alphabetic).is_empty());
    assert!(sort_words("\n \t\n", |w: &str| !w.is_empty()).is_empty());
}

#[test]
fn cut_words_skips_blank_lines_and_keeps_order() {
    let words = cut_words("one two\n\u{3000}\nthree", &alphabetic);
    assert_eq!(words, vec!["one".to_string(), "two".to_string(), "three".to_string()]);
    let all = cut_words("x\n\u{3000}\n", &|w: &str| !w.is_empty());
    assert_eq!(all, vec!["x".to_string()]);
}

#[test]
fn filter_drops_short_words() {
    let r = sort_words("ab c ab c c\n", |w: &str| w.chars().count() > 1);
    assert_eq!(r, vec![("ab".to_string(), 2)]);
}
