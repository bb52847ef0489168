//! Mathematical model of the weighted edit distance.
//!
//! `edit_cost` is the reference definition that every executable function and
//! every law in this crate is stated against: the minimum total cost of
//! transforming one character sequence into another by single-character
//! substitutions, deletions and insertions, with an independent non-negative
//! weight per operation kind.

use vstd::prelude::*;

verus! {

/// The smaller of two natural numbers.
pub open spec fn min2(x: nat, y: nat) -> nat {
    if x <= y {
        x
    } else {
        y
    }
}

/// The smallest of three natural numbers.
pub open spec fn min3(x: nat, y: nat, z: nat) -> nat {
    min2(min2(x, y), z)
}

/// Cost of aligning character `x` of the source with character `y` of the
/// target: equal characters need no operation and cost nothing, different
/// ones cost one substitution.
pub open spec fn sub_cost(x: char, y: char, sub: nat) -> nat {
    if x == y {
        0
    } else {
        sub
    }
}

/// Minimum total cost of transforming `a` into `b`, where substituting one
/// character costs `sub` (equal characters cost nothing), deleting one
/// character of `a` costs `del`, and inserting one character of `b` costs
/// `ins`.
///
/// The recursion is the textbook one on the last characters: an empty source
/// is fixed by inserting every character of the target, an empty target by
/// deleting every character of the source, and otherwise the cheapest of
/// substitution, deletion and insertion wins.  Weights apply uniformly,
/// including to the runs of deletions and insertions that handle a length
/// difference or an empty input.
pub open spec fn edit_cost(a: Seq<char>, b: Seq<char>, sub: nat, del: nat, ins: nat) -> nat
    decreases a.len() + b.len(),
{
    if a.len() == 0 {
        b.len() * ins
    } else if b.len() == 0 {
        a.len() * del
    } else {
        min3(
            edit_cost(a.drop_last(), b.drop_last(), sub, del, ins) + sub_cost(
                a.last(),
                b.last(),
                sub,
            ),
            edit_cost(a.drop_last(), b, sub, del, ins) + del,
            edit_cost(a, b.drop_last(), sub, del, ins) + ins,
        )
    }
}

/// The uniform edit distance: every operation costs one.
pub open spec fn lev(a: Seq<char>, b: Seq<char>) -> nat {
    edit_cost(a, b, 1, 1, 1)
}

/// Whether the weighted edit distance of `a` and `b` stays within `limit`.
pub open spec fn within_limit_holds(
    a: Seq<char>,
    b: Seq<char>,
    limit: nat,
    sub: nat,
    del: nat,
    ins: nat,
) -> bool {
    edit_cost(a, b, sub, del, ins) <= limit
}

/// Every value the computation touches is at most
/// `a_len * del + b_len * ins` plus one weight, so this bound keeps all of
/// the arithmetic inside `usize`.  It is a machine limit, not a property of
/// the distance itself.
pub open spec fn fits_usize(a_len: nat, b_len: nat, sub: nat, del: nat, ins: nat) -> bool {
    a_len * del + b_len * ins + sub + del + ins <= usize::MAX
}

} // verus!
