//! What LU factorisation keeps of the matrix: the rows of the matrix, in the
//! order of the permutation, are the lower factor times the upper one.

use vstd::prelude::*;
use crate::lu::{
    eliminated_lower, eliminated_upper, elimination_factor, is_unit_lower, law_lu_rounds_shape, lemma_pivot_row_in_range,
    lu_round, lu_rounds, pivot_from, swap_rows, LuFactors,
};
use crate::lu_laws::{exact_sub_mul, lemma_identity_entry};
use crate::matrix::{lemma_join_position, lemma_split_position, MatrixModel};
use crate::ops::{apply1, apply2};

verus! {

/// The sum of `l[i][m] * u[m][j]` over the columns `m < b`, for `n` by `n`
/// tables `l` and `u` held row by row.
pub open spec fn partial_product(l: Seq<int>, u: Seq<int>, n: int, i: int, j: int, b: int) -> int
    decreases b,
{
    if b <= 0 {
        0
    } else {
        partial_product(l, u, n, i, j, b - 1) + l[i * n + (b - 1)] * u[(b - 1) * n + j]
    }
}

/// The number of products of row `i` and column `j` that `k` rounds of
/// factorisation have taken out of entry `(i, j)`: one for each column
/// `m < k` with `m < i` and `m <= j`.
pub open spec fn folded_terms(i: int, j: int, k: int) -> int {
    let b = if i <= j + 1 { i } else { j + 1 };
    if b <= k { b } else { k }
}

/// The state `st` after `k` rounds of factorising `a` with `divide`: each
/// entry of `a` in row `perm[i]` is entry `(i, j)` of the upper factor plus
/// the products taken out of it so far; each factor under the diagonal in
/// the first `k` columns is `divide` of what was left of its entry by the
/// diagonal entry; and the columns from `k` on of the lower factor are those
/// of the identity off the diagonal.
pub open spec fn factorisation_kept<D: Fn(int, int) -> int>(a: MatrixModel<int>, divide: D, st: LuFactors<int>, k: int) -> bool {
    let n = a.rows as int;
    &&& st.lower.len() == n * n
    &&& st.upper.len() == n * n
    &&& st.perm.len() == n
    &&& forall|i: int, j: int| 0 <= i < n && 0 <= j < n ==>
        a.entries[st.perm[i] * n + j] == #[trigger] st.upper[i * n + j]
            + partial_product(st.lower, st.upper, n, i, j, folded_terms(i, j, k))
    &&& forall|i: int, j: int| 0 <= j < k && j < i < n ==>
        #[trigger] st.lower[i * n + j] == apply2(
            divide,
            a.entries[st.perm[i] * n + j] - partial_product(st.lower, st.upper, n, i, j, j),
            st.upper[j * n + j],
        )
    &&& forall|i: int, j: int| 0 <= i < n && k <= j < n && i != j ==> #[trigger] st.lower[i * n + j] == 0int
}

/// Partial products that agree term by term are equal.
pub proof fn lemma_partial_product_congruent(
    l1: Seq<int>,
    u1: Seq<int>,
    l2: Seq<int>,
    u2: Seq<int>,
    n: int,
    i1: int,
    i2: int,
    j: int,
    b: int,
)
    requires
        forall|m: int| 0 <= m < b ==> #[trigger] l1[i1 * n + m] == l2[i2 * n + m] && u1[m * n + j] == u2[m * n + j],
    ensures
        partial_product(l1, u1, n, i1, j, b) == partial_product(l2, u2, n, i2, j, b),
    decreases b,
{
    if b > 0 {
        lemma_partial_product_congruent(l1, u1, l2, u2, n, i1, i2, j, b - 1);
        assert(l1[i1 * n + (b - 1)] == l2[i2 * n + (b - 1)]);
    }
}

/// Entry `(i, j)` after exchanging rows `a` and `b` in the first `upto`
/// columns.
pub proof fn lemma_swap_entry(s: Seq<int>, n: int, a: int, b: int, upto: int, i: int, j: int)
    requires
        s.len() == n * n,
        0 <= i < n,
        0 <= j < n,
    ensures
        swap_rows(s, n, a, b, upto).len() == s.len(),
        swap_rows(s, n, a, b, upto)[i * n + j] == if j < upto && i == a {
            s[b * n + j]
        } else if j < upto && i == b {
            s[a * n + j]
        } else {
            s[i * n + j]
        },
{
    lemma_join_position(i, j, n);
}

/// Entry `(i, j)` of the factors after eliminating column `k`, with `sub_mul`
/// exact.
pub proof fn lemma_elimination_entry<D: Fn(int, int) -> int, S: Fn(int, int, int) -> int>(
    divide: D,
    sub_mul: S,
    l: Seq<int>,
    u: Seq<int>,
    n: int,
    k: int,
    i: int,
    j: int,
)
    requires
        exact_sub_mul(sub_mul),
        l.len() == n * n,
        u.len() == n * n,
        0 <= i < n,
        0 <= j < n,
    ensures
        eliminated_lower(divide, l, u, n, k).len() == l.len(),
        eliminated_upper(divide, sub_mul, u, n, k).len() == u.len(),
        eliminated_lower(divide, l, u, n, k)[i * n + j] == if i > k && j == k {
            elimination_factor(divide, u, n, k, i)
        } else {
            l[i * n + j]
        },
        eliminated_upper(divide, sub_mul, u, n, k)[i * n + j] == if i > k && j >= k {
            u[i * n + j] - elimination_factor(divide, u, n, k, i) * u[k * n + j]
        } else {
            u[i * n + j]
        },
{
    lemma_join_position(i, j, n);
    let f = elimination_factor(divide, u, n, k, i);
    assert(call_ensures(sub_mul, (u[i * n + j], f, u[k * n + j]), u[i * n + j] - f * u[k * n + j]));
}

/// Exchanging rows `k` and `r >= k` (in the lower factor only in the
/// columns before `k`) keeps what `k` rounds have kept.
pub proof fn lemma_swap_keeps_factorisation<D: Fn(int, int) -> int>(
    a: MatrixModel<int>,
    divide: D,
    st: LuFactors<int>,
    k: int,
    r: int,
)
    requires
        a.rows == a.cols,
        a.well_formed(),
        0 <= k <= r < a.rows,
        factorisation_kept(a, divide, st, k),
    ensures
        factorisation_kept(
            a,
            divide,
            LuFactors {
                lower: swap_rows(st.lower, a.rows as int, k, r, k),
                upper: swap_rows(st.upper, a.rows as int, k, r, a.rows as int),
                perm: st.perm.update(k, st.perm[r]).update(r, st.perm[k]),
            },
            k,
        ),
{
    let n = a.rows as int;
    let l1 = swap_rows(st.lower, n, k, r, k);
    let u1 = swap_rows(st.upper, n, k, r, n);
    let p1 = st.perm.update(k, st.perm[r]).update(r, st.perm[k]);
    lemma_swap_entry(st.lower, n, k, r, k, 0, 0);
    lemma_swap_entry(st.upper, n, k, r, n, 0, 0);
    assert forall|i: int, j: int| 0 <= i < n && 0 <= j < n implies
        a.entries[p1[i] * n + j] == #[trigger] u1[i * n + j] + partial_product(l1, u1, n, i, j, folded_terms(i, j, k)) by {
        let i0 = if i == k { r } else if i == r { k } else { i };
        lemma_swap_entry(st.upper, n, k, r, n, i, j);
        assert(u1[i * n + j] == st.upper[i0 * n + j]);
        assert(p1[i] == st.perm[i0]);
        let b = folded_terms(i, j, k);
        assert(b == folded_terms(i0, j, k));
        assert forall|m: int| 0 <= m < b implies #[trigger] l1[i * n + m] == st.lower[i0 * n + m]
            && u1[m * n + j] == st.upper[m * n + j] by {
            lemma_swap_entry(st.lower, n, k, r, k, i, m);
            lemma_swap_entry(st.upper, n, k, r, n, m, j);
        }
        lemma_partial_product_congruent(l1, u1, st.lower, st.upper, n, i, i0, j, b);
        assert(a.entries[st.perm[i0] * n + j] == st.upper[i0 * n + j]
            + partial_product(st.lower, st.upper, n, i0, j, folded_terms(i0, j, k)));
    }
    assert forall|i: int, j: int| 0 <= j < k && j < i < n implies
        #[trigger] l1[i * n + j] == apply2(
            divide,
            a.entries[p1[i] * n + j] - partial_product(l1, u1, n, i, j, j),
            u1[j * n + j],
        ) by {
        let i0 = if i == k { r } else if i == r { k } else { i };
        lemma_swap_entry(st.lower, n, k, r, k, i, j);
        lemma_swap_entry(st.upper, n, k, r, n, j, j);
        assert(p1[i] == st.perm[i0]);
        assert forall|m: int| 0 <= m < j implies #[trigger] l1[i * n + m] == st.lower[i0 * n + m]
            && u1[m * n + j] == st.upper[m * n + j] by {
            lemma_swap_entry(st.lower, n, k, r, k, i, m);
            lemma_swap_entry(st.upper, n, k, r, n, m, j);
        }
        lemma_partial_product_congruent(l1, u1, st.lower, st.upper, n, i, i0, j, j);
        assert(st.lower[i0 * n + j] == apply2(
            divide,
            a.entries[st.perm[i0] * n + j] - partial_product(st.lower, st.upper, n, i0, j, j),
            st.upper[j * n + j],
        ));
    }
    assert forall|i: int, j: int| 0 <= i < n && k <= j < n && i != j implies #[trigger] l1[i * n + j] == 0int by {
        lemma_swap_entry(st.lower, n, k, r, k, i, j);
        assert(st.lower[i * n + j] == 0int);
    }
}

/// Eliminating column `k` of a state that has kept what `k` rounds keep,
/// with `sub_mul` exact, keeps what `k + 1` rounds keep.
pub proof fn lemma_elimination_keeps_factorisation<D: Fn(int, int) -> int, S: Fn(int, int, int) -> int>(
    a: MatrixModel<int>,
    divide: D,
    sub_mul: S,
    st: LuFactors<int>,
    k: int,
)
    requires
        exact_sub_mul(sub_mul),
        a.rows == a.cols,
        a.well_formed(),
        0 <= k < a.rows,
        factorisation_kept(a, divide, st, k),
    ensures
        factorisation_kept(
            a,
            divide,
            LuFactors {
                lower: eliminated_lower(divide, st.lower, st.upper, a.rows as int, k),
                upper: eliminated_upper(divide, sub_mul, st.upper, a.rows as int, k),
                perm: st.perm,
            },
            k + 1,
        ),
{
    let n = a.rows as int;
    let l1 = st.lower;
    let u1 = st.upper;
    let l2 = eliminated_lower(divide, l1, u1, n, k);
    let u2 = eliminated_upper(divide, sub_mul, u1, n, k);
    lemma_elimination_entry(divide, sub_mul, l1, u1, n, k, 0, 0);
    assert forall|i: int, j: int| 0 <= i < n && 0 <= j < n implies
        a.entries[st.perm[i] * n + j] == #[trigger] u2[i * n + j] + partial_product(l2, u2, n, i, j, folded_terms(i, j, k + 1)) by {
        lemma_elimination_entry(divide, sub_mul, l1, u1, n, k, i, j);
        let b = folded_terms(i, j, k);
        assert(a.entries[st.perm[i] * n + j] == u1[i * n + j] + partial_product(l1, u1, n, i, j, b));
        assert forall|m: int| 0 <= m < b implies #[trigger] l2[i * n + m] == l1[i * n + m]
            && u2[m * n + j] == u1[m * n + j] by {
            lemma_elimination_entry(divide, sub_mul, l1, u1, n, k, i, m);
            lemma_elimination_entry(divide, sub_mul, l1, u1, n, k, m, j);
        }
        lemma_partial_product_congruent(l2, u2, l1, u1, n, i, i, j, b);
        if i > k && j >= k {
            assert(folded_terms(i, j, k + 1) == k + 1);
            assert(b == k);
            lemma_elimination_entry(divide, sub_mul, l1, u1, n, k, i, k);
            lemma_elimination_entry(divide, sub_mul, l1, u1, n, k, k, j);
            assert(partial_product(l2, u2, n, i, j, k + 1)
                == partial_product(l2, u2, n, i, j, k) + l2[i * n + k] * u2[k * n + j]);
        } else {
            assert(folded_terms(i, j, k + 1) == b);
        }
    }
    assert forall|i: int, j: int| 0 <= j < k + 1 && j < i < n implies
        #[trigger] l2[i * n + j] == apply2(
            divide,
            a.entries[st.perm[i] * n + j] - partial_product(l2, u2, n, i, j, j),
            u2[j * n + j],
        ) by {
        lemma_elimination_entry(divide, sub_mul, l1, u1, n, k, i, j);
        lemma_elimination_entry(divide, sub_mul, l1, u1, n, k, j, j);
        assert forall|m: int| 0 <= m < j implies #[trigger] l2[i * n + m] == l1[i * n + m]
            && u2[m * n + j] == u1[m * n + j] by {
            lemma_elimination_entry(divide, sub_mul, l1, u1, n, k, i, m);
            lemma_elimination_entry(divide, sub_mul, l1, u1, n, k, m, j);
        }
        lemma_partial_product_congruent(l2, u2, l1, u1, n, i, i, j, j);
        if j == k {
            assert(folded_terms(i, k, k) == k);
            assert(a.entries[st.perm[i] * n + k] == u1[i * n + k] + partial_product(l1, u1, n, i, k, k));
        } else {
            assert(l1[i * n + j] == apply2(
                divide,
                a.entries[st.perm[i] * n + j] - partial_product(l1, u1, n, i, j, j),
                u1[j * n + j],
            ));
        }
    }
    assert forall|i: int, j: int| 0 <= i < n && k + 1 <= j < n && i != j implies #[trigger] l2[i * n + j] == 0int by {
        lemma_elimination_entry(divide, sub_mul, l1, u1, n, k, i, j);
        assert(l1[i * n + j] == 0int);
    }
}

/// Law: with `sub_mul` exact on integers, and whatever the other operations
/// give, every state of LU factorisation of `a` keeps `a`: after `k` rounds,
/// the entry of `a` in row `perm[i]` and column `j` is entry `(i, j)` of the
/// upper factor plus the products of row `i` of the lower factor and column
/// `j` of the upper one over the columns before `k`, before `i` and up to
/// `j`; each factor under the diagonal in the first `k` columns is `divide`
/// of what was left of its entry by the diagonal entry; and the lower factor
/// is the identity in the columns from `k` on.
pub proof fn law_lu_rounds_keep_matrix<M: Fn(int) -> int, G: Fn(int, int) -> bool, N: Fn(int) -> bool, D: Fn(int, int) -> int, S: Fn(int, int, int) -> int>(
    magnitude: M,
    exceeds: G,
    negligible: N,
    divide: D,
    sub_mul: S,
    a: MatrixModel<int>,
    k: int,
)
    requires
        exact_sub_mul(sub_mul),
        a.well_formed(),
        a.rows == a.cols,
        a.rows <= usize::MAX,
        0 <= k <= a.rows,
    ensures
        lu_rounds(magnitude, exceeds, negligible, divide, sub_mul, 0int, 1int, a, k) matches Ok(st)
            ==> factorisation_kept(a, divide, st, k),
    decreases k,
{
    let n = a.rows as int;
    if k == 0 {
        let st = lu_rounds(magnitude, exceeds, negligible, divide, sub_mul, 0int, 1int, a, 0)->Ok_0;
        assert forall|i: int, j: int| 0 <= i < n && 0 <= j < n implies
            a.entries[st.perm[i] * n + j] == #[trigger] st.upper[i * n + j]
                + partial_product(st.lower, st.upper, n, i, j, folded_terms(i, j, 0)) by {}
        assert forall|i: int, j: int| 0 <= i < n && 0 <= j < n && i != j implies #[trigger] st.lower[i * n + j] == 0int by {
            lemma_identity_entry(a.rows, i, j);
        }
    } else {
        law_lu_rounds_keep_matrix(magnitude, exceeds, negligible, divide, sub_mul, a, k - 1);
        match lu_rounds(magnitude, exceeds, negligible, divide, sub_mul, 0int, 1int, a, k - 1) {
            Ok(st) => {
                let kk = k - 1;
                let (v, r) = pivot_from(magnitude, exceeds, st.upper, n, kk, n - 1);
                lemma_pivot_row_in_range(magnitude, exceeds, st.upper, n, kk, n - 1);
                if !apply1(negligible, v) {
                    lemma_swap_keeps_factorisation(a, divide, st, kk, r);
                    let st1 = LuFactors {
                        lower: swap_rows(st.lower, n, kk, r, kk),
                        upper: swap_rows(st.upper, n, kk, r, n),
                        perm: st.perm.update(kk, st.perm[r]).update(r, st.perm[kk]),
                    };
                    lemma_elimination_keeps_factorisation(a, divide, sub_mul, st1, kk);
                }
            },
            Err(e) => {},
        }
    }
}

/// The upper triangle of an `n` by `n` table: its entries on and above the
/// diagonal, and zero below it.
pub open spec fn upper_triangle(u: Seq<int>, n: int) -> Seq<int> {
    Seq::new(u.len(), |q: int| if q / n <= q % n { u[q] } else { 0int })
}

/// Products past `c` that each have a zero factor add nothing.
pub proof fn lemma_partial_product_zero_tail(l: Seq<int>, u: Seq<int>, n: int, i: int, j: int, c: int, b: int)
    requires
        c <= b,
        forall|m: int| c <= m < b ==> #[trigger] l[i * n + m] == 0int || u[m * n + j] == 0int,
    ensures
        partial_product(l, u, n, i, j, b) == partial_product(l, u, n, i, j, c),
    decreases b - c,
{
    if b > c {
        lemma_partial_product_zero_tail(l, u, n, i, j, c, b - 1);
        assert(l[i * n + (b - 1)] == 0int || u[(b - 1) * n + j] == 0int);
        if c <= 0 {
            assert(partial_product(l, u, n, i, j, b) == partial_product(l, u, n, i, j, b - 1)
                + l[i * n + (b - 1)] * u[(b - 1) * n + j]);
        }
    }
}

/// Law: with `sub_mul` exact on integers, and whatever the other operations
/// give, the factors of `a` give back its rows in the order `perm`: the lower
/// factor times the upper triangle of the upper factor, plus what the
/// elimination left under the diagonal of the upper factor, is the matrix
/// whose row `i` is row `perm[i]` of `a`. Each factor under the diagonal is
/// `divide` of what is left of its entry after the earlier columns by the
/// diagonal entry. Where nothing is left under the diagonal (each division
/// was exact), the lower factor times the upper one is that matrix.
pub proof fn law_lu_factors_multiply_to_matrix<M: Fn(int) -> int, G: Fn(int, int) -> bool, N: Fn(int) -> bool, D: Fn(int, int) -> int, S: Fn(int, int, int) -> int>(
    magnitude: M,
    exceeds: G,
    negligible: N,
    divide: D,
    sub_mul: S,
    a: MatrixModel<int>,
)
    requires
        exact_sub_mul(sub_mul),
        a.well_formed(),
        a.rows == a.cols,
        a.rows <= usize::MAX,
    ensures
        lu_rounds(magnitude, exceeds, negligible, divide, sub_mul, 0int, 1int, a, a.rows as int) matches Ok(st) ==> {
            let n = a.rows as int;
            &&& forall|i: int, j: int| 0 <= i < n && 0 <= j < n ==>
                a.entries[st.perm[i] * n + j] == #[trigger] partial_product(st.lower, upper_triangle(st.upper, n), n, i, j, n)
                    + if j < i { st.upper[i * n + j] } else { 0int }
            &&& forall|i: int, j: int| 0 <= j < i < n ==>
                #[trigger] st.lower[i * n + j] == apply2(
                    divide,
                    a.entries[st.perm[i] * n + j] - partial_product(st.lower, st.upper, n, i, j, j),
                    st.upper[j * n + j],
                )
            &&& (forall|i: int, j: int| 0 <= j < i < n ==> #[trigger] st.upper[i * n + j] == 0int) ==>
                forall|i: int, j: int| 0 <= i < n && 0 <= j < n ==>
                    a.entries[st.perm[i] * n + j] == #[trigger] partial_product(st.lower, st.upper, n, i, j, n)
        },
{
    let n = a.rows as int;
    law_lu_rounds_keep_matrix(magnitude, exceeds, negligible, divide, sub_mul, a, n);
    law_lu_rounds_shape(magnitude, exceeds, negligible, divide, sub_mul, 0int, 1int, a, n);
    match lu_rounds(magnitude, exceeds, negligible, divide, sub_mul, 0int, 1int, a, n) {
        Ok(st) => {
            let l = st.lower;
            let u = st.upper;
            let t = upper_triangle(u, n);
            assert forall|i: int, j: int| 0 <= i < n && 0 <= j < n implies
                a.entries[st.perm[i] * n + j] == #[trigger] partial_product(l, t, n, i, j, n)
                    + if j < i { u[i * n + j] } else { 0int } by {
                lemma_triangle_product(l, u, n, i, j);
            }
            assert(forall|i: int, j: int| 0 <= j < i < n ==>
                #[trigger] l[i * n + j] == apply2(
                    divide,
                    a.entries[st.perm[i] * n + j] - partial_product(l, u, n, i, j, j),
                    u[j * n + j],
                ));
            if forall|i: int, j: int| 0 <= j < i < n ==> #[trigger] u[i * n + j] == 0int {
                lemma_upper_triangle_of_triangular(u, n);
                assert forall|i: int, j: int| 0 <= i < n && 0 <= j < n implies
                    a.entries[st.perm[i] * n + j] == #[trigger] partial_product(l, u, n, i, j, n) by {
                    assert(a.entries[st.perm[i] * n + j] == partial_product(l, t, n, i, j, n)
                        + if j < i { u[i * n + j] } else { 0int });
                }
            }
        },
        Err(e) => {},
    }
}

/// Row `i` of a unit lower triangular `l` times column `j` of the upper
/// triangle of `u`, plus entry `(i, j)` of `u` where it lies under the
/// diagonal, is entry `(i, j)` of `u` plus the products before `i` and up to
/// `j`.
pub proof fn lemma_triangle_product(l: Seq<int>, u: Seq<int>, n: int, i: int, j: int)
    requires
        is_unit_lower(l, n, 0int, 1int),
        u.len() == n * n,
        0 <= i < n,
        0 <= j < n,
    ensures
        partial_product(l, upper_triangle(u, n), n, i, j, n) + (if j < i { u[i * n + j] } else { 0int })
            == u[i * n + j] + partial_product(l, u, n, i, j, folded_terms(i, j, n)),
{
    let t = upper_triangle(u, n);
    let c = if i <= j { i + 1 } else { j + 1 };
    assert forall|m: int| c <= m < n implies #[trigger] l[i * n + m] == 0int || t[m * n + j] == 0int by {
        lemma_join_position(m, j, n);
        if m <= i {
            assert(m > j);
        } else {
            assert(l[i * n + m] == 0int);
        }
    }
    lemma_partial_product_zero_tail(l, t, n, i, j, c, n);
    assert forall|m: int| 0 <= m < c implies #[trigger] t[m * n + j] == u[m * n + j] by {
        lemma_join_position(m, j, n);
    }
    lemma_partial_product_congruent(l, t, l, u, n, i, i, j, c);
    if i <= j {
        assert(l[i * n + i] == 1int);
        assert(partial_product(l, u, n, i, j, i + 1) == partial_product(l, u, n, i, j, i) + l[i * n + i] * u[i * n + j]);
    }
}

/// A table with zeros under its diagonal is its own upper triangle.
pub proof fn lemma_upper_triangle_of_triangular(u: Seq<int>, n: int)
    requires
        0 <= n,
        u.len() == n * n,
        forall|i: int, j: int| 0 <= j < i < n ==> #[trigger] u[i * n + j] == 0int,
    ensures
        upper_triangle(u, n) == u,
{
    let t = upper_triangle(u, n);
    assert forall|q: int| 0 <= q < n * n implies #[trigger] t[q] == u[q] by {
        lemma_split_position(q, n);
        if q / n > q % n {
            assert(u[(q / n) * n + q % n] == 0int);
        }
    }
    assert(t =~= u);
}

} // verus!
