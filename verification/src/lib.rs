//! Levenshtein distance between two strings, by character.
//!
//! All functions come in two versions, one with custom weights and one with
//! every operation costing one.  The limited variants answer only whether the
//! distance stays within a given bound, which allows them to stop as soon as
//! no row of the distance matrix can stay within it.
//!
//! Weights apply to every operation, including the runs of insertions or
//! deletions that handle empty inputs and length differences, so
//! `levenshtein_with_weigths("", b, s, d, i)` costs `i` per character of `b`.
//! Each public contract is stated against the recursive model in [`model`],
//! and the laws of the distance (identity, symmetry, the triangle
//! inequality, weight scaling) are proved in [`laws`].

mod engine;
pub mod laws;
pub mod model;

use vstd::prelude::*;

verus! {

use crate::engine::{chars_of, dp_core, eq_chars};
use crate::laws::lemma_identity;
use crate::model::{edit_cost, fits_usize, lev, within_limit_holds};

/// Calculates the levenshtein distance of the two strings.
///
/// Uses weight 1 for all operations; for more control use
/// [`levenshtein_with_weigths`].
pub fn levenshtein(a: &str, b: &str) -> (d: usize)
    requires
        fits_usize(a@.len(), b@.len(), 1, 1, 1),
    ensures
        d == lev(a@, b@),
{
    levenshtein_with_weigths(a, b, 1, 1, 1)
}

/// Calculates the levenshtein distance of the two strings with custom
/// weights: `substitute` per substitution of one character, `delete` per
/// character removed, `insert` per character added.
///
/// The weights price every operation, also across the first row and column
/// of the distance matrix, so an empty `a` costs `insert` per character of
/// `b`.  For equal weights use [`levenshtein`].
pub fn levenshtein_with_weigths(
    a: &str,
    b: &str,
    substitute: usize,
    delete: usize,
    insert: usize,
) -> (d: usize)
    requires
        fits_usize(a@.len(), b@.len(), substitute as nat, delete as nat, insert as nat),
    ensures
        d == edit_cost(a@, b@, substitute as nat, delete as nat, insert as nat),
{
    let av = chars_of(a);
    let bv = chars_of(b);
    // equal inputs need no operation at all
    if eq_chars(&av, &bv) {
        proof {
            lemma_identity(a@, substitute as nat, delete as nat, insert as nat);
        }
        return 0;
    }
    // an empty side is bridged by inserting or deleting every character
    if av.len() == 0 {
        return bv.len() * insert;
    }
    if bv.len() == 0 {
        return av.len() * delete;
    }
    let r = dp_core(&av, &bv, substitute, delete, insert, None);
    match r {
        Some(d) => d,
        None => 0,
    }
}

/// Checks if the levenshtein distance of the two strings is within the
/// given limit.  This is faster than calculating the distance and comparing
/// it to the limit since it allows for early termination.
///
/// Uses weight 1 for all operations; for more control use
/// [`levenshtein_is_within_limit_with_weigths`].
pub fn levenshtein_is_within_limit(a: &str, b: &str, limit: usize) -> (r: bool)
    requires
        fits_usize(a@.len(), b@.len(), 1, 1, 1),
    ensures
        r == within_limit_holds(a@, b@, limit as nat, 1, 1, 1),
{
    levenshtein_is_within_limit_with_weigths(a, b, limit, 1, 1, 1)
}

/// Checks if the levenshtein distance of the two strings, under the given
/// weights, is within the given limit: true exactly when the distance is at
/// most `limit`.  The scan stops as soon as one row of the distance matrix
/// lies entirely beyond the limit, since later rows only grow.
///
/// For equal weights use [`levenshtein_is_within_limit`].
pub fn levenshtein_is_within_limit_with_weigths(
    a: &str,
    b: &str,
    limit: usize,
    substitute: usize,
    delete: usize,
    insert: usize,
) -> (r: bool)
    requires
        fits_usize(a@.len(), b@.len(), substitute as nat, delete as nat, insert as nat),
    ensures
        r == within_limit_holds(
            a@,
            b@,
            limit as nat,
            substitute as nat,
            delete as nat,
            insert as nat,
        ),
{
    let av = chars_of(a);
    let bv = chars_of(b);
    // equal inputs are within any limit, the distance being zero
    if eq_chars(&av, &bv) {
        proof {
            lemma_identity(a@, substitute as nat, delete as nat, insert as nat);
        }
        return true;
    }
    // an empty side is bridged by inserting or deleting every character
    if av.len() == 0 {
        return bv.len() * insert <= limit;
    }
    if bv.len() == 0 {
        return av.len() * delete <= limit;
    }
    let r = dp_core(&av, &bv, substitute, delete, insert, Some(limit));
    match r {
        Some(d) => d <= limit,
        None => false,
    }
}

} // verus!
