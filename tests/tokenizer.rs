use text_classifier::tokenize;

fn words(v: &[&str]) -> Vec<String> {
    v.iter().map(|s| s.to_string()).collect()
}

#[test]
fn tokenize_empty_text() {
    assert_eq!(tokenize(""), Vec::<String>::new());
}

#[test]
fn tokenize_folds_case_and_drops_punctuation_and_digits() {
    assert_eq!(tokenize("Hello, World! 123"), words(&["hello", "world"]));
}

#[test]
fn tokenize_keeps_repeated_words_in_order() {
    assert_eq!(tokenize("b a b"), words(&["b", "a", "b"]));
}

#[test]
fn tokenize_splits_at_apostrophes_and_hyphens() {
    assert_eq!(tokenize("you'd A-Team"), words(&["you", "d", "a", "team"]));
}

#[test]
fn tokenize_text_without_letters() {
    assert_eq!(tokenize("  42, -- !? "), Vec::<String>::new());
}

#[test]
fn tokenize_uses_unicode_lowercasing() {
    // The Kelvin sign lowercases to an ASCII 'k'; 'À' lowercases to 'à',
    // which is no letter a to z.
    assert_eq!(tokenize("\u{212A}ey"), words(&["key"]));
    assert_eq!(tokenize("ÀB"), words(&["b"]));
}

#[test]
fn tokenize_is_unchanged_by_lowercasing_first() {
    for s in ["Hello, World! 123", "MiXeD CaSe wOrDs", "\u{212A}elvin ÀÉ Σ done", ""] {
        assert_eq!(tokenize(&s.to_lowercase()), tokenize(s));
    }
}
