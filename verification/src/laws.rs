//! Laws of the weighted edit distance, proved against the model in
//! [`crate::model`].

use vstd::prelude::*;

verus! {

use crate::model::{edit_cost, lev, min3, sub_cost, within_limit_holds};

/// No plan beats deleting all of `a` and then inserting all of `b`, so that
/// cost bounds the distance from above.
pub proof fn lemma_cost_upper(a: Seq<char>, b: Seq<char>, sub: nat, del: nat, ins: nat)
    ensures
        edit_cost(a, b, sub, del, ins) <= a.len() * del + b.len() * ins,
    decreases a.len() + b.len(),
{
    if a.len() == 0 {
    } else if b.len() == 0 {
    } else {
        lemma_cost_upper(a.drop_last(), b, sub, del, ins);
        assert(a.drop_last().len() * del + del == a.len() * del) by (nonlinear_arith)
            requires
                a.len() >= 1,
                a.drop_last().len() == a.len() - 1,
        ;
    }
}

/// Each operation changes the length of the source by at most one, so the
/// uniform distance is at least the difference of the two lengths.
pub proof fn lemma_lev_length_lower(a: Seq<char>, b: Seq<char>)
    ensures
        lev(a, b) + a.len() >= b.len(),
        lev(a, b) + b.len() >= a.len(),
    decreases a.len() + b.len(),
{
    if a.len() == 0 {
    } else if b.len() == 0 {
    } else {
        lemma_lev_length_lower(a.drop_last(), b.drop_last());
        lemma_lev_length_lower(a.drop_last(), b);
        lemma_lev_length_lower(a, b.drop_last());
    }
}

/// Transforming a sequence into itself costs nothing, whatever the weights.
pub proof fn lemma_identity(s: Seq<char>, sub: nat, del: nat, ins: nat)
    ensures
        edit_cost(s, s, sub, del, ins) == 0,
    decreases s.len(),
{
    if s.len() == 0 {
    } else {
        lemma_identity(s.drop_last(), sub, del, ins);
        assert(sub_cost(s.last(), s.last(), sub) == 0);
    }
}

/// With every weight positive, only equal sequences are at distance zero:
/// any surviving difference costs at least one whole operation.
pub proof fn lemma_zero_iff_equal(a: Seq<char>, b: Seq<char>, sub: nat, del: nat, ins: nat)
    requires
        sub >= 1,
        del >= 1,
        ins >= 1,
    ensures
        edit_cost(a, b, sub, del, ins) == 0 <==> a == b,
    decreases a.len() + b.len(),
{
    if a == b {
        lemma_identity(a, sub, del, ins);
    }
    if edit_cost(a, b, sub, del, ins) == 0 {
        if a.len() == 0 {
            assert(b.len() * ins >= b.len()) by (nonlinear_arith)
                requires
                    ins >= 1,
            ;
            assert(a =~= b);
        } else if b.len() == 0 {
            assert(a.len() * del >= a.len()) by (nonlinear_arith)
                requires
                    del >= 1,
            ;
            assert(a =~= b);
        } else {
            // only the substitution arm can be free, and only on equal
            // last characters above equal prefixes
            lemma_zero_iff_equal(a.drop_last(), b.drop_last(), sub, del, ins);
            assert(a.drop_last() == b.drop_last() && a.last() == b.last());
            assert forall|k: int| 0 <= k < a.len() implies a[k] == b[k] by {
                if k < a.len() - 1 {
                    assert(a[k] == a.drop_last()[k]);
                    assert(b[k] == b.drop_last()[k]);
                }
            }
            assert(a =~= b);
        }
    }
}

/// Reading a transformation of `a` into `b` backwards turns every deletion
/// into an insertion and vice versa, so swapping the two sequences together
/// with the two weights leaves the cost unchanged.
pub proof fn lemma_swap(a: Seq<char>, b: Seq<char>, sub: nat, del: nat, ins: nat)
    ensures
        edit_cost(a, b, sub, del, ins) == edit_cost(b, a, sub, ins, del),
    decreases a.len() + b.len(),
{
    if a.len() == 0 {
        assert(edit_cost(a, b, sub, del, ins) == b.len() * ins);
        assert(edit_cost(b, a, sub, ins, del) == b.len() * ins);
    } else if b.len() == 0 {
        assert(edit_cost(a, b, sub, del, ins) == a.len() * del);
        assert(edit_cost(b, a, sub, ins, del) == a.len() * del);
    } else {
        lemma_swap(a.drop_last(), b.drop_last(), sub, del, ins);
        lemma_swap(a.drop_last(), b, sub, del, ins);
        lemma_swap(a, b.drop_last(), sub, del, ins);
        let x1 = edit_cost(a.drop_last(), b.drop_last(), sub, del, ins) + sub_cost(
            a.last(),
            b.last(),
            sub,
        );
        let x2 = edit_cost(a.drop_last(), b, sub, del, ins) + del;
        let x3 = edit_cost(a, b.drop_last(), sub, del, ins) + ins;
        assert(sub_cost(a.last(), b.last(), sub) == sub_cost(b.last(), a.last(), sub));
        assert(edit_cost(a, b, sub, del, ins) == min3(x1, x2, x3));
        assert(edit_cost(b, a, sub, ins, del) == min3(x1, x3, x2));
        assert(min3(x1, x2, x3) == min3(x1, x3, x2));
    }
}

/// With every operation at the same weight the distance is symmetric.
pub proof fn lemma_symmetry(a: Seq<char>, b: Seq<char>)
    ensures
        lev(a, b) == lev(b, a),
{
    lemma_swap(a, b, 1, 1, 1);
}

/// Scaling three equal weights scales each minimum in the recurrence.
proof fn lemma_min3_scale(w: nat, x: nat, y: nat, z: nat)
    ensures
        min3(w * x, w * y, w * z) == w * min3(x, y, z),
{
    assert(x <= y ==> w * x <= w * y) by (nonlinear_arith);
    assert(y <= x ==> w * y <= w * x) by (nonlinear_arith);
    assert(x <= z ==> w * x <= w * z) by (nonlinear_arith);
    assert(z <= x ==> w * z <= w * x) by (nonlinear_arith);
    assert(y <= z ==> w * y <= w * z) by (nonlinear_arith);
    assert(z <= y ==> w * z <= w * y) by (nonlinear_arith);
}

/// Pricing every operation at `w` multiplies the uniform distance by `w`:
/// the cheapest plan does not depend on the common price of its steps.
pub proof fn lemma_uniform_scaling(a: Seq<char>, b: Seq<char>, w: nat)
    ensures
        edit_cost(a, b, w, w, w) == w * lev(a, b),
    decreases a.len() + b.len(),
{
    if a.len() == 0 {
        assert(b.len() * w == w * (b.len() * 1)) by (nonlinear_arith);
    } else if b.len() == 0 {
        assert(a.len() * w == w * (a.len() * 1)) by (nonlinear_arith);
    } else {
        lemma_uniform_scaling(a.drop_last(), b.drop_last(), w);
        lemma_uniform_scaling(a.drop_last(), b, w);
        lemma_uniform_scaling(a, b.drop_last(), w);
        let y1 = edit_cost(a.drop_last(), b.drop_last(), 1, 1, 1) + sub_cost(
            a.last(),
            b.last(),
            1,
        );
        let y2 = edit_cost(a.drop_last(), b, 1, 1, 1) + 1;
        let y3 = edit_cost(a, b.drop_last(), 1, 1, 1) + 1;
        assert(lev(a, b) == min3(y1, y2, y3));
        assert(edit_cost(a.drop_last(), b.drop_last(), w, w, w) + sub_cost(a.last(), b.last(), w)
            == w * y1) by (nonlinear_arith)
            requires
                edit_cost(a.drop_last(), b.drop_last(), w, w, w) == w * edit_cost(
                    a.drop_last(),
                    b.drop_last(),
                    1,
                    1,
                    1,
                ),
                sub_cost(a.last(), b.last(), w) == w * sub_cost(a.last(), b.last(), 1),
                y1 == edit_cost(a.drop_last(), b.drop_last(), 1, 1, 1) + sub_cost(
                    a.last(),
                    b.last(),
                    1,
                ),
        ;
        assert(edit_cost(a.drop_last(), b, w, w, w) + w == w * y2) by (nonlinear_arith)
            requires
                edit_cost(a.drop_last(), b, w, w, w) == w * edit_cost(a.drop_last(), b, 1, 1, 1),
                y2 == edit_cost(a.drop_last(), b, 1, 1, 1) + 1,
        ;
        assert(edit_cost(a, b.drop_last(), w, w, w) + w == w * y3) by (nonlinear_arith)
            requires
                edit_cost(a, b.drop_last(), w, w, w) == w * edit_cost(a, b.drop_last(), 1, 1, 1),
                y3 == edit_cost(a, b.drop_last(), 1, 1, 1) + 1,
        ;
        assert(sub_cost(a.last(), b.last(), w) == w * sub_cost(a.last(), b.last(), 1))
            by (nonlinear_arith)
            requires
                sub_cost(a.last(), b.last(), w) == (if a.last() == b.last() {
                    0nat
                } else {
                    w
                }),
                sub_cost(a.last(), b.last(), 1) == (if a.last() == b.last() {
                    0nat
                } else {
                    1nat
                }),
        ;
        assert(edit_cost(a, b, w, w, w) == min3(w * y1, w * y2, w * y3));
        lemma_min3_scale(w, y1, y2, y3);
    }
}

/// Dropping the last character of the source costs at most one extra
/// deletion.
proof fn lemma_lev_drop_source(a: Seq<char>, b: Seq<char>)
    requires
        a.len() >= 1,
    ensures
        lev(a, b) <= lev(a.drop_last(), b) + 1,
{
    if b.len() == 0 {
        assert(lev(a, b) == a.len() * 1);
        if a.len() == 1 {
            assert(lev(a.drop_last(), b) == b.len() * 1);
        } else {
            assert(lev(a.drop_last(), b) == a.drop_last().len() * 1);
        }
    } else {
        assert(lev(a, b) == min3(
            edit_cost(a.drop_last(), b.drop_last(), 1, 1, 1) + sub_cost(a.last(), b.last(), 1),
            edit_cost(a.drop_last(), b, 1, 1, 1) + 1,
            edit_cost(a, b.drop_last(), 1, 1, 1) + 1,
        ));
    }
}

/// The triangle inequality for the uniform distance: going from `a` to `c`
/// directly is never dearer than editing via `b`.  The induction follows
/// whichever arm of the recurrence realises `lev(a, b)` and `lev(b, c)`.
pub proof fn lemma_triangle(a: Seq<char>, b: Seq<char>, c: Seq<char>)
    ensures
        lev(a, c) <= lev(a, b) + lev(b, c),
    decreases a.len() + b.len() + c.len(),
{
    if b.len() == 0 {
        lemma_cost_upper(a, c, 1, 1, 1);
        assert(lev(a, b) == a.len() * 1);
        assert(lev(b, c) == c.len() * 1);
    } else if a.len() == 0 {
        lemma_lev_length_lower(b, c);
        assert(lev(a, c) == c.len() * 1);
        assert(lev(a, b) == b.len() * 1);
    } else if c.len() == 0 {
        lemma_lev_length_lower(a, b);
        assert(lev(a, c) == a.len() * 1);
        assert(lev(b, c) == b.len() * 1);
    } else {
        let a1 = a.drop_last();
        let b1 = b.drop_last();
        let c1 = c.drop_last();
        let cab = sub_cost(a.last(), b.last(), 1);
        let cbc = sub_cost(b.last(), c.last(), 1);
        let cac = sub_cost(a.last(), c.last(), 1);
        assert(lev(a, b) == min3(lev(a1, b1) + cab, lev(a1, b) + 1, lev(a, b1) + 1));
        assert(lev(b, c) == min3(lev(b1, c1) + cbc, lev(b1, c) + 1, lev(b, c1) + 1));
        assert(lev(a, c) == min3(lev(a1, c1) + cac, lev(a1, c) + 1, lev(a, c1) + 1));
        assert(cac <= cab + cbc);
        if lev(a, b) == lev(a1, b) + 1 {
            lemma_triangle(a1, b, c);
        } else if lev(b, c) == lev(b, c1) + 1 {
            lemma_triangle(a, b, c1);
        } else if lev(a, b) == lev(a1, b1) + cab && lev(b, c) == lev(b1, c1) + cbc {
            lemma_triangle(a1, b1, c1);
        } else if lev(a, b) == lev(a, b1) + 1 && lev(b, c) == lev(b1, c) + 1 {
            lemma_triangle(a, b1, c);
        } else if lev(a, b) == lev(a1, b1) + cab {
            assert(lev(b, c) == lev(b1, c) + 1);
            lemma_triangle(a, b1, c);
            lemma_lev_drop_source(a, b1);
        } else {
            assert(lev(a, b) == lev(a, b1) + 1);
            assert(lev(b, c) == lev(b1, c1) + cbc);
            lemma_triangle(a, b1, c1);
        }
    }
}

/// Raising the limit keeps every positive answer: a distance within `k` is
/// also within `k + 1`.
pub proof fn lemma_limit_monotonic(
    a: Seq<char>,
    b: Seq<char>,
    k: nat,
    sub: nat,
    del: nat,
    ins: nat,
)
    ensures
        within_limit_holds(a, b, k, sub, del, ins) ==> within_limit_holds(
            a,
            b,
            k + 1,
            sub,
            del,
            ins,
        ),
{
}

/// The limited query agrees with the full distance: it holds exactly when
/// the weighted distance is at most the limit.
pub proof fn lemma_limit_exact(a: Seq<char>, b: Seq<char>, k: nat, sub: nat, del: nat, ins: nat)
    ensures
        within_limit_holds(a, b, k, sub, del, ins) <==> edit_cost(a, b, sub, del, ins) <= k,
{
}

} // verus!
