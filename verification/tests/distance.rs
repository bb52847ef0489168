use levenshtein_distance::{levenshtein, levenshtein_with_weigths};

#[test]
fn equal_strings_cost_nothing() {
    assert_eq!(levenshtein("kitten", "kitten"), 0);
}

#[test]
fn one_appended_character_costs_one() {
    assert_eq!(levenshtein("kitten", "kittens"), 1);
}

#[test]
fn kitten_to_sitting_is_three() {
    assert_eq!(levenshtein("kitten", "sitting"), 3);
}

#[test]
fn both_empty() {
    assert_eq!(levenshtein("", ""), 0);
}

#[test]
fn empty_against_nonempty_counts_insertions() {
    assert_eq!(levenshtein("", "abc"), 3);
    assert_eq!(levenshtein("abc", ""), 3);
}

#[test]
fn uniform_weights_match_the_plain_function() {
    assert_eq!(
        levenshtein_with_weigths("kitten", "sitting", 1, 1, 1),
        levenshtein("kitten", "sitting")
    );
}

// Weights price every operation, the first row and column of the matrix
// included: k -> s and e -> i each cost min(sub, del + ins) = 3, and the
// trailing g costs one insertion, so the total is 7.
#[test]
fn weighted_kitten_to_sitting() {
    assert_eq!(levenshtein_with_weigths("kitten", "sitting", 3, 2, 1), 7);
}

#[test]
fn weighted_empty_sides_use_the_weights() {
    assert_eq!(levenshtein_with_weigths("", "abc", 5, 7, 2), 6);
    assert_eq!(levenshtein_with_weigths("abc", "", 5, 7, 2), 21);
}

#[test]
fn zero_weights_make_everything_free() {
    assert_eq!(levenshtein_with_weigths("abc", "xyzw", 0, 0, 0), 0);
}

#[test]
fn substitution_wins_when_cheaper() {
    assert_eq!(levenshtein_with_weigths("a", "b", 1, 5, 5), 1);
}

#[test]
fn delete_and_insert_win_when_substitution_is_dear() {
    assert_eq!(levenshtein_with_weigths("a", "b", 9, 2, 3), 5);
}

#[test]
fn equal_strings_cost_nothing_whatever_the_weights() {
    assert_eq!(levenshtein_with_weigths("weights", "weights", 40, 50, 60), 0);
}
