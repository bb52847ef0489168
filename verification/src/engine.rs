//! The space-optimised dynamic program behind every public operation.
//!
//! `dp_core` keeps one mutable row of the conceptual distance matrix plus
//! three scalars, exactly as wide as the second sequence, and walks the
//! matrix row by row.  Its contract ties the computed value to the recursive
//! model `edit_cost`; the row-minimum lemmas justify stopping early once no
//! cell of a row can stay within a requested limit.

use vstd::prelude::*;

verus! {

use crate::laws::lemma_cost_upper;
use crate::model::{edit_cost, fits_usize, min2, min3, sub_cost};
use vstd::string::StrSliceExecFns;

/// One cell of the conceptual distance matrix: the cost of turning the
/// first `i` characters of `a` into the first `j` characters of `b`.
spec fn dcell(a: Seq<char>, b: Seq<char>, su: nat, de: nat, iw: nat, i: int, j: int) -> nat {
    edit_cost(a.take(i), b.take(j), su, de, iw)
}

/// The top row of the matrix is priced by insertions alone.
proof fn lemma_dcell_row0(a: Seq<char>, b: Seq<char>, su: nat, de: nat, iw: nat, j: int)
    requires
        0 <= j <= b.len(),
    ensures
        dcell(a, b, su, de, iw, 0, j) == j * iw,
{
    assert(a.take(0).len() == 0);
    assert(b.take(j).len() == j);
}

/// The first column of the matrix is priced by deletions alone.
proof fn lemma_dcell_col0(a: Seq<char>, b: Seq<char>, su: nat, de: nat, iw: nat, i: int)
    requires
        0 <= i <= a.len(),
    ensures
        dcell(a, b, su, de, iw, i, 0) == i * de,
{
    assert(b.take(0).len() == 0);
    assert(a.take(i).len() == i);
    if i == 0 {
        assert(a.take(0).len() == 0);
        assert(dcell(a, b, su, de, iw, 0, 0) == 0 * iw);
        assert(0 * iw == 0 * de) by (nonlinear_arith);
    }
}

/// The recurrence of the matrix, phrased on prefix lengths: each inner cell
/// is the cheapest of a substitution, a deletion and an insertion.
proof fn lemma_dcell_step(a: Seq<char>, b: Seq<char>, su: nat, de: nat, iw: nat, i: int, j: int)
    requires
        1 <= i <= a.len(),
        1 <= j <= b.len(),
    ensures
        dcell(a, b, su, de, iw, i, j) == min3(
            dcell(a, b, su, de, iw, i - 1, j - 1) + sub_cost(a[i - 1], b[j - 1], su),
            dcell(a, b, su, de, iw, i - 1, j) + de,
            dcell(a, b, su, de, iw, i, j - 1) + iw,
        ),
{
    let ai = a.take(i);
    let bj = b.take(j);
    assert(ai.len() == i);
    assert(bj.len() == j);
    assert(ai.drop_last() =~= a.take(i - 1));
    assert(bj.drop_last() =~= b.take(j - 1));
    assert(ai.last() == a[i - 1]);
    assert(bj.last() == b[j - 1]);
}

/// Every cell is bounded by deleting its whole row prefix and inserting its
/// whole column prefix, which keeps the arithmetic below the machine limit.
proof fn lemma_dcell_bound(a: Seq<char>, b: Seq<char>, su: nat, de: nat, iw: nat, i: int, j: int)
    requires
        0 <= i <= a.len(),
        0 <= j <= b.len(),
    ensures
        dcell(a, b, su, de, iw, i, j) <= i * de + j * iw,
{
    lemma_cost_upper(a.take(i), b.take(j), su, de, iw);
    assert(a.take(i).len() == i);
    assert(b.take(j).len() == j);
}

/// The smallest cell among the first `j + 1` cells of row `i`.
spec fn row_min(a: Seq<char>, b: Seq<char>, su: nat, de: nat, iw: nat, i: int, j: int) -> nat
    decreases j,
{
    if j <= 0 {
        dcell(a, b, su, de, iw, i, 0)
    } else {
        min2(row_min(a, b, su, de, iw, i, j - 1), dcell(a, b, su, de, iw, i, j))
    }
}

/// The row minimum is below each of the cells it ranges over.
proof fn lemma_row_min_le_cell(
    a: Seq<char>,
    b: Seq<char>,
    su: nat,
    de: nat,
    iw: nat,
    i: int,
    j: int,
    t: int,
)
    requires
        0 <= t <= j,
    ensures
        row_min(a, b, su, de, iw, i, j) <= dcell(a, b, su, de, iw, i, t),
    decreases j,
{
    if j <= 0 {
    } else if t < j {
        lemma_row_min_le_cell(a, b, su, de, iw, i, j - 1, t);
    }
}

/// Every cell of the next row is built from cells of this row by adding a
/// non-negative weight, so none of them undercuts this row's minimum.
proof fn lemma_next_row_ge(a: Seq<char>, b: Seq<char>, su: nat, de: nat, iw: nat, i: int, j: int)
    requires
        0 <= i,
        i + 1 <= a.len(),
        0 <= j <= b.len(),
    ensures
        dcell(a, b, su, de, iw, i + 1, j) >= row_min(a, b, su, de, iw, i, b.len() as int),
    decreases j,
{
    let n = b.len() as int;
    if j == 0 {
        lemma_dcell_col0(a, b, su, de, iw, i);
        lemma_dcell_col0(a, b, su, de, iw, i + 1);
        lemma_row_min_le_cell(a, b, su, de, iw, i, n, 0);
        assert(i * de <= (i + 1) * de) by (nonlinear_arith)
            requires
                0 <= i,
                0 <= de,
        ;
    } else {
        lemma_dcell_step(a, b, su, de, iw, i + 1, j);
        lemma_row_min_le_cell(a, b, su, de, iw, i, n, j - 1);
        lemma_row_min_le_cell(a, b, su, de, iw, i, n, j);
        lemma_next_row_ge(a, b, su, de, iw, i, j - 1);
    }
}

/// Row minima never shrink from one row to the next.
proof fn lemma_row_min_next(a: Seq<char>, b: Seq<char>, su: nat, de: nat, iw: nat, i: int, j: int)
    requires
        0 <= i,
        i + 1 <= a.len(),
        0 <= j <= b.len(),
    ensures
        row_min(a, b, su, de, iw, i + 1, j) >= row_min(a, b, su, de, iw, i, b.len() as int),
    decreases j,
{
    lemma_next_row_ge(a, b, su, de, iw, i, j);
    if j > 0 {
        lemma_row_min_next(a, b, su, de, iw, i, j - 1);
    }
}

/// The full distance sits in the last row, so it is at least the minimum of
/// any earlier row: once a row minimum passes the limit, so does the
/// distance.
proof fn lemma_dist_ge_row_min(a: Seq<char>, b: Seq<char>, su: nat, de: nat, iw: nat, i: int)
    requires
        0 <= i <= a.len(),
    ensures
        edit_cost(a, b, su, de, iw) >= row_min(a, b, su, de, iw, i, b.len() as int),
    decreases a.len() - i,
{
    let m = a.len() as int;
    let n = b.len() as int;
    if i == m {
        assert(a.take(m) =~= a);
        assert(b.take(n) =~= b);
        lemma_row_min_le_cell(a, b, su, de, iw, m, n, n);
    } else {
        lemma_row_min_next(a, b, su, de, iw, i, n);
        lemma_dist_ge_row_min(a, b, su, de, iw, i + 1);
    }
}

/// Runs the dynamic program over one reused cost row.  With no limit the
/// exact distance comes back; with a limit, `None` comes back only once some
/// row's minimum — and hence the distance itself — exceeds the limit, and
/// `Some` carries the exact distance otherwise.
pub(crate) fn dp_core(
    a: &Vec<char>,
    b: &Vec<char>,
    sub: usize,
    del: usize,
    ins: usize,
    limit: Option<usize>,
) -> (r: Option<usize>)
    requires
        a@.len() >= 1,
        b@.len() >= 1,
        fits_usize(a@.len(), b@.len(), sub as nat, del as nat, ins as nat),
    ensures
        (match r {
            Some(d) => d == edit_cost(a@, b@, sub as nat, del as nat, ins as nat),
            None => limit matches Some(l) && edit_cost(a@, b@, sub as nat, del as nat, ins as nat)
                > l,
        }),
        limit is None ==> r is Some,
{
    let m: usize = a.len();
    let n: usize = b.len();

    // the top row of the matrix: cache[q] holds D[0][q + 1] = (q + 1) * ins
    let mut cache: Vec<usize> = Vec::new();
    let mut val: usize = 0;
    let mut t: usize = 0;
    while t < n
        invariant
            m == a@.len(),
            n == b@.len(),
            t <= n,
            cache@.len() == t,
            val == (t as nat) * (ins as nat),
            fits_usize(a@.len(), b@.len(), sub as nat, del as nat, ins as nat),
            forall|q: int|
                0 <= q < t ==> cache@[q] == dcell(
                    a@,
                    b@,
                    sub as nat,
                    del as nat,
                    ins as nat,
                    0,
                    q + 1,
                ),
        decreases n - t,
    {
        proof {
            assert(((t + 1) as nat) * (ins as nat) <= (n as nat) * (ins as nat))
                by (nonlinear_arith)
                requires
                    t + 1 <= n,
            ;
            assert((t as nat) * (ins as nat) + (ins as nat) == ((t + 1) as nat) * (ins as nat))
                by (nonlinear_arith);
            lemma_dcell_row0(a@, b@, sub as nat, del as nat, ins as nat, t + 1);
        }
        val = val + ins;
        cache.push(val);
        t = t + 1;
    }
    let mut i: usize = 0;
    let mut row_start: usize = 0;  // D[i][0] = i * del
    let mut dist: usize = 0;  // D[i][n] once row i is done
    while i < m
        invariant
            m == a@.len(),
            n == b@.len(),
            m >= 1,
            n >= 1,
            i <= m,
            cache@.len() == n,
            row_start == (i as nat) * (del as nat),
            fits_usize(a@.len(), b@.len(), sub as nat, del as nat, ins as nat),
            forall|q: int|
                0 <= q < n ==> cache@[q] == dcell(
                    a@,
                    b@,
                    sub as nat,
                    del as nat,
                    ins as nat,
                    i as int,
                    q + 1,
                ),
            i > 0 ==> dist == dcell(a@, b@, sub as nat, del as nat, ins as nat, i as int, n as int),
        decreases m - i,
    {
        proof {
            assert(((i + 1) as nat) * (del as nat) <= (m as nat) * (del as nat))
                by (nonlinear_arith)
                requires
                    i + 1 <= m,
            ;
            assert((i as nat) * (del as nat) + (del as nat) == ((i + 1) as nat) * (del as nat))
                by (nonlinear_arith);
            lemma_dcell_col0(a@, b@, sub as nat, del as nat, ins as nat, i as int);
            lemma_dcell_col0(a@, b@, sub as nat, del as nat, ins as nat, i + 1);
        }
        let c_a: char = a[i];
        let mut diagonal: usize = row_start;
        let mut left: usize = row_start + del;
        let mut best_of_row: usize = left;
        let mut j: usize = 0;
        while j < n
            invariant
                m == a@.len(),
                n == b@.len(),
                i < m,
                j <= n,
                cache@.len() == n,
                fits_usize(a@.len(), b@.len(), sub as nat, del as nat, ins as nat),
                c_a == a@[i as int],
                diagonal == dcell(
                    a@,
                    b@,
                    sub as nat,
                    del as nat,
                    ins as nat,
                    i as int,
                    j as int,
                ),
                left == dcell(a@, b@, sub as nat, del as nat, ins as nat, i + 1, j as int),
                best_of_row == row_min(a@, b@, sub as nat, del as nat, ins as nat, i + 1, j as int),
                forall|q: int|
                    0 <= q < j ==> cache@[q] == dcell(
                        a@,
                        b@,
                        sub as nat,
                        del as nat,
                        ins as nat,
                        i + 1,
                        q + 1,
                    ),
                forall|q: int|
                    j <= q < n ==> cache@[q] == dcell(
                        a@,
                        b@,
                        sub as nat,
                        del as nat,
                        ins as nat,
                        i as int,
                        q + 1,
                    ),
            decreases n - j,
        {
            let c_b: char = b[j];
            let sc: usize = if c_a != c_b {
                sub
            } else {
                0
            };
            proof {
                lemma_dcell_bound(a@, b@, sub as nat, del as nat, ins as nat, i as int, j as int);
                lemma_dcell_bound(a@, b@, sub as nat, del as nat, ins as nat, i as int, j + 1);
                lemma_dcell_bound(a@, b@, sub as nat, del as nat, ins as nat, i + 1, j as int);
                assert((i as nat) * (del as nat) <= (m as nat) * (del as nat)) by (nonlinear_arith)
                    requires
                        i <= m,
                ;
                assert(((i + 1) as nat) * (del as nat) <= (m as nat) * (del as nat))
                    by (nonlinear_arith)
                    requires
                        i + 1 <= m,
                ;
                assert((j as nat) * (ins as nat) <= (n as nat) * (ins as nat)) by (nonlinear_arith)
                    requires
                        j <= n,
                ;
                assert(((j + 1) as nat) * (ins as nat) <= (n as nat) * (ins as nat))
                    by (nonlinear_arith)
                    requires
                        j + 1 <= n,
                ;
            }
            let m1: usize = diagonal + sc;
            let m2: usize = cache[j] + del;
            let m3: usize = left + ins;
            let best: usize = if m1 <= m2 && m1 <= m3 {
                m1
            } else if m2 <= m3 {
                m2
            } else {
                m3
            };
            proof {
                lemma_dcell_step(a@, b@, sub as nat, del as nat, ins as nat, i + 1, j + 1);
                assert(sc == sub_cost(a@[i as int], b@[j as int], sub as nat));
                assert(best == dcell(a@, b@, sub as nat, del as nat, ins as nat, i + 1, j + 1));
            }
            diagonal = cache[j];
            cache[j] = best;
            left = best;
            if best < best_of_row {
                best_of_row = best;
            }
            j = j + 1;
        }
        dist = left;
        if let Some(l) = limit {
            if best_of_row > l {
                proof {
                    lemma_dist_ge_row_min(a@, b@, sub as nat, del as nat, ins as nat, i + 1);
                }
                return None;
            }
        }
        row_start = row_start + del;
        i = i + 1;
    }
    proof {
        assert(a@.take(m as int) =~= a@);
        assert(b@.take(n as int) =~= b@);
    }
    Some(dist)
}

/// The characters of `s`, in order.
pub(crate) fn chars_of(s: &str) -> (v: Vec<char>)
    ensures
        v@ == s@,
{
    let n: usize = s.unicode_len();
    let mut v: Vec<char> = Vec::new();
    let mut i: usize = 0;
    while i < n
        invariant
            n == s@.len(),
            i <= n,
            v@ == s@.take(i as int),
        decreases n - i,
    {
        let c: char = s.get_char(i);
        v.push(c);
        proof {
            assert(v@ =~= s@.take(i + 1));
        }
        i = i + 1;
    }
    proof {
        assert(v@ =~= s@);
    }
    v
}

/// Whether the two character sequences are equal, position by position.
pub(crate) fn eq_chars(a: &Vec<char>, b: &Vec<char>) -> (r: bool)
    ensures
        r <==> a@ == b@,
{
    if a.len() != b.len() {
        return false;
    }
    let mut i: usize = 0;
    while i < a.len()
        invariant
            i <= a@.len(),
            a@.len() == b@.len(),
            forall|t: int| 0 <= t < i ==> a@[t] == b@[t],
        decreases a@.len() - i,
    {
        if a[i] != b[i] {
            return false;
        }
        i = i + 1;
    }
    proof {
        assert(a@ =~= b@);
    }
    true
}

} // verus!
