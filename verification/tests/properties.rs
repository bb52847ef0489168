//! Concrete instances of the laws proved in the crate: identity, symmetry,
//! the triangle inequality and weight scaling.

use levenshtein_distance::{levenshtein, levenshtein_is_within_limit, levenshtein_with_weigths};

#[test]
fn identity_on_various_strings() {
    for s in ["", "a", "kitten", "longer words here", "日本語"] {
        assert_eq!(levenshtein(s, s), 0);
        assert!(levenshtein_is_within_limit(s, s, 0));
    }
}

#[test]
fn symmetry_on_various_pairs() {
    let pairs = [
        ("kitten", "sitting"),
        ("", "abc"),
        ("flaw", "lawn"),
        ("gumbo", "gambol"),
        ("a", "b"),
    ];
    for (a, b) in pairs {
        assert_eq!(levenshtein(a, b), levenshtein(b, a));
    }
}

#[test]
fn triangle_inequality_on_various_triples() {
    let triples = [
        ("kitten", "sitting", "mittens"),
        ("", "abc", "abcd"),
        ("flaw", "lawn", "dawn"),
        ("a", "xyz", "ab"),
    ];
    for (a, b, c) in triples {
        assert!(levenshtein(a, c) <= levenshtein(a, b) + levenshtein(b, c));
    }
}

#[test]
fn swapping_sequences_swaps_delete_and_insert_weights() {
    let pairs = [("kitten", "sitting"), ("", "abc"), ("grain", "rains")];
    for (a, b) in pairs {
        assert_eq!(
            levenshtein_with_weigths(a, b, 4, 3, 2),
            levenshtein_with_weigths(b, a, 4, 2, 3)
        );
    }
}

#[test]
fn positive_weights_separate_different_strings() {
    assert!(levenshtein_with_weigths("abc", "abd", 1, 1, 1) > 0);
    assert!(levenshtein_with_weigths("abc", "abd", 7, 5, 3) > 0);
}

#[test]
fn uniform_scaling_multiplies_the_distance() {
    let pairs = [("kitten", "sitting"), ("", "abc"), ("flaw", "lawn")];
    for (a, b) in pairs {
        let d: usize = levenshtein(a, b);
        for w in [0usize, 1, 2, 5] {
            assert_eq!(levenshtein_with_weigths(a, b, w, w, w), w * d);
        }
    }
}
