use levenshtein_distance::{
    levenshtein, levenshtein_is_within_limit, levenshtein_is_within_limit_with_weigths,
    levenshtein_with_weigths,
};

#[test]
fn equal_strings_are_within_limit_zero() {
    assert!(levenshtein_is_within_limit("kitten", "kitten", 0));
}

#[test]
fn distance_one_is_within_limit_one() {
    assert!(levenshtein_is_within_limit("kitten", "kittens", 1));
}

#[test]
fn distance_three_is_not_within_limit_one() {
    assert!(!levenshtein_is_within_limit("kitten", "sitting", 1));
}

#[test]
fn distance_three_is_within_limit_three() {
    assert!(levenshtein_is_within_limit("kitten", "sitting", 3));
    assert!(!levenshtein_is_within_limit("kitten", "sitting", 2));
}

// The weighted distance of kitten and sitting under (3, 2, 1) is 7, the
// weights pricing the first row and column of the matrix too, so 6 is too
// tight a limit and 7 is not.
#[test]
fn weighted_limit_sits_exactly_at_the_distance() {
    assert!(!levenshtein_is_within_limit_with_weigths(
        "kitten", "sitting", 6, 3, 2, 1
    ));
    assert!(levenshtein_is_within_limit_with_weigths(
        "kitten", "sitting", 7, 3, 2, 1
    ));
}

// The limit is inclusive on empty inputs as well: two insertions are within
// a limit of two.
#[test]
fn empty_side_compares_inclusively() {
    assert!(levenshtein_is_within_limit("", "ab", 2));
    assert!(!levenshtein_is_within_limit("", "ab", 1));
    assert!(levenshtein_is_within_limit("ab", "", 2));
    assert!(!levenshtein_is_within_limit("ab", "", 1));
}

#[test]
fn weighted_empty_side_uses_the_weights() {
    assert!(levenshtein_is_within_limit_with_weigths("", "ab", 6, 9, 9, 3));
    assert!(!levenshtein_is_within_limit_with_weigths("", "ab", 5, 9, 9, 3));
}

#[test]
fn raising_the_limit_keeps_positive_answers() {
    for limit in 0..10usize {
        if levenshtein_is_within_limit("flaw", "lawn", limit) {
            assert!(levenshtein_is_within_limit("flaw", "lawn", limit + 1));
        }
    }
}

#[test]
fn limited_query_agrees_with_the_distance() {
    let pairs = [
        ("kitten", "sitting"),
        ("flaw", "lawn"),
        ("", "abc"),
        ("abc", ""),
        ("same", "same"),
        ("a", "ab"),
    ];
    for (a, b) in pairs {
        let d: usize = levenshtein(a, b);
        for limit in 0..8usize {
            assert_eq!(levenshtein_is_within_limit(a, b, limit), d <= limit);
        }
    }
}

#[test]
fn weighted_limited_query_agrees_with_the_weighted_distance() {
    let d: usize = levenshtein_with_weigths("grain", "rains", 4, 3, 2);
    for limit in 0..12usize {
        assert_eq!(
            levenshtein_is_within_limit_with_weigths("grain", "rains", limit, 4, 3, 2),
            d <= limit
        );
    }
}
