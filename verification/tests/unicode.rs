//! Multi-byte characters count as single units of length and substitution.

use levenshtein_distance::{levenshtein, levenshtein_is_within_limit, levenshtein_with_weigths};

#[test]
fn accented_character_is_one_substitution() {
    assert_eq!(levenshtein("café", "cafe"), 1);
}

#[test]
fn multibyte_script_counts_by_character() {
    assert_eq!(levenshtein("日本語", "日本"), 1);
    assert_eq!(levenshtein("", "日本語"), 3);
}

#[test]
fn combining_accent_is_its_own_character() {
    // "e" followed by a combining acute accent is two characters, so
    // dropping the accent is one deletion.
    assert_eq!(levenshtein("e\u{301}", "e"), 1);
    // against the precomposed form both characters differ from the single
    // one: one substitution plus one deletion
    assert_eq!(levenshtein("e\u{301}", "\u{e9}"), 2);
}

#[test]
fn weighted_empty_side_counts_multibyte_characters_once() {
    assert_eq!(levenshtein_with_weigths("日", "", 9, 4, 7), 4);
    assert_eq!(levenshtein_with_weigths("", "ñu", 9, 4, 7), 14);
}

#[test]
fn limit_counts_characters_not_bytes() {
    assert!(levenshtein_is_within_limit("日本語", "日本", 1));
    assert!(!levenshtein_is_within_limit("héllo", "", 4));
    assert!(levenshtein_is_within_limit("héllo", "", 5));
}
