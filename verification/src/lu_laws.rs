//! Laws of the substitutions that turn LU factors into the inverse.

use vstd::prelude::*;
use crate::lu::{
    backward_solution, eliminated_lower, lu_round, eliminated_upper, elimination_factor, forward_solution, pivot_from, swap_rows,
    LuFactors, identity_entries, inverse_spec, is_permutation, lemma_backward_solution_len,
    lemma_forward_solution_len, lu_rounds, permuted_unit, solved_column,
};
use crate::matrix::{lemma_join_position, lemma_split_position, MatrixError, MatrixModel};
use crate::ops::{apply1, apply2, apply3, fold_steps};

verus! {

/// The sum of the products `xs[k] * ys[k]`.
pub open spec fn sum_of_products(xs: Seq<int>, ys: Seq<int>) -> int
    decreases xs.len(),
{
    if xs.len() == 0 {
        0
    } else {
        sum_of_products(xs.drop_last(), ys.drop_last()) + xs.last() * ys.last()
    }
}

/// `sub_mul(acc, a, b)` is exactly `acc - a * b`.
pub open spec fn exact_sub_mul<S: Fn(int, int, int) -> int>(sub_mul: S) -> bool {
    forall|acc: int, a: int, b: int, r: int| #[trigger] call_ensures(sub_mul, (acc, a, b), r) <==> r == acc - a * b
}

/// Folding an exact `sub_mul` subtracts the sum of the products.
pub proof fn lemma_fold_is_difference<S: Fn(int, int, int) -> int>(sub_mul: S, start: int, xs: Seq<int>, ys: Seq<int>)
    requires
        exact_sub_mul(sub_mul),
        xs.len() == ys.len(),
    ensures
        fold_steps(sub_mul, start, xs, ys) == start - sum_of_products(xs, ys),
    decreases xs.len(),
{
    if xs.len() > 0 {
        lemma_fold_is_difference(sub_mul, start, xs.drop_last(), ys.drop_last());
        let acc = fold_steps(sub_mul, start, xs.drop_last(), ys.drop_last());
        assert(call_ensures(sub_mul, (acc, xs.last(), ys.last()), acc - xs.last() * ys.last()));
    }
}

/// Forward substitution only appends: its first `k` entries are those of the
/// first `k` rows.
pub proof fn lemma_forward_prefix<T, S: Fn(T, T, T) -> T>(sub_mul: S, lower: Seq<T>, rhs: Seq<T>, n: int, m: int, k: int)
    requires
        0 <= k <= m,
    ensures
        forward_solution(sub_mul, lower, rhs, n, m).take(k) == forward_solution(sub_mul, lower, rhs, n, k),
    decreases m,
{
    lemma_forward_solution_len(sub_mul, lower, rhs, n, m);
    lemma_forward_solution_len(sub_mul, lower, rhs, n, k);
    if k < m {
        lemma_forward_prefix(sub_mul, lower, rhs, n, m - 1, k);
        lemma_forward_solution_len(sub_mul, lower, rhs, n, m - 1);
        assert(forward_solution(sub_mul, lower, rhs, n, m).take(k)
            =~= forward_solution(sub_mul, lower, rhs, n, m - 1).take(k));
    } else {
        assert(forward_solution(sub_mul, lower, rhs, n, m).take(k) =~= forward_solution(sub_mul, lower, rhs, n, m));
    }
}

/// Law: with exact arithmetic, forward substitution solves `L y = b` for the
/// lower factor with its diagonal taken as one: each entry plus the products
/// of row `i` of `L` before the diagonal with the entries before it gives
/// `b[i]`.
pub proof fn law_forward_solves_lower<S: Fn(int, int, int) -> int>(
    sub_mul: S,
    lower: Seq<int>,
    rhs: Seq<int>,
    n: int,
    m: int,
    i: int,
)
    requires
        exact_sub_mul(sub_mul),
        0 <= i < m,
    ensures
        ({
            let y = forward_solution(sub_mul, lower, rhs, n, m);
            y[i] + sum_of_products(Seq::new(i as nat, |t: int| lower[i * n + t]), y.take(i)) == rhs[i]
        }),
{
    let y = forward_solution(sub_mul, lower, rhs, n, m);
    let yi = forward_solution(sub_mul, lower, rhs, n, i);
    lemma_forward_prefix(sub_mul, lower, rhs, n, m, i + 1);
    lemma_forward_prefix(sub_mul, lower, rhs, n, m, i);
    lemma_forward_solution_len(sub_mul, lower, rhs, n, m);
    lemma_forward_solution_len(sub_mul, lower, rhs, n, i);
    let row = Seq::new(i as nat, |t: int| lower[i * n + t]);
    lemma_fold_is_difference(sub_mul, rhs[i], row, yi);
    assert(yi.take(i) =~= yi);
    assert(y[i] == forward_solution(sub_mul, lower, rhs, n, i + 1)[i]);
}

/// Backward substitution only prepends: its last `k` entries are those of
/// the last `k` rows.
pub proof fn lemma_backward_suffix<T, S: Fn(T, T, T) -> T, D: Fn(T, T) -> T>(
    sub_mul: S,
    divide: D,
    upper: Seq<T>,
    y: Seq<T>,
    n: int,
    m: int,
    k: int,
)
    requires
        0 <= k <= m,
    ensures
        backward_solution(sub_mul, divide, upper, y, n, m).subrange(m - k, m)
            == backward_solution(sub_mul, divide, upper, y, n, k),
    decreases m,
{
    lemma_backward_solution_len(sub_mul, divide, upper, y, n, m);
    lemma_backward_solution_len(sub_mul, divide, upper, y, n, k);
    if k < m {
        lemma_backward_suffix(sub_mul, divide, upper, y, n, m - 1, k);
        lemma_backward_solution_len(sub_mul, divide, upper, y, n, m - 1);
        assert(backward_solution(sub_mul, divide, upper, y, n, m).subrange(m - k, m)
            =~= backward_solution(sub_mul, divide, upper, y, n, m - 1).subrange(m - 1 - k, m - 1));
    } else {
        assert(backward_solution(sub_mul, divide, upper, y, n, m).subrange(m - k, m)
            =~= backward_solution(sub_mul, divide, upper, y, n, m));
    }
}

/// Law: with exact `sub_mul`, backward substitution solves `U x = y` row by
/// row from the bottom: `x[i]` is `y[i]` less the products of row `i` of `U`
/// after the diagonal with the entries after `i`, divided by the diagonal
/// entry `U[i][i]`.
pub proof fn law_backward_solves_upper<S: Fn(int, int, int) -> int, D: Fn(int, int) -> int>(
    sub_mul: S,
    divide: D,
    upper: Seq<int>,
    y: Seq<int>,
    n: int,
    i: int,
)
    requires
        exact_sub_mul(sub_mul),
        0 <= i < n,
    ensures
        ({
            let x = backward_solution(sub_mul, divide, upper, y, n, n);
            x[i] == apply2(
                divide,
                y[i] - sum_of_products(Seq::new((n - i - 1) as nat, |t: int| upper[i * n + i + 1 + t]), x.subrange(i + 1, n)),
                upper[i * n + i],
            )
        }),
{
    let x = backward_solution(sub_mul, divide, upper, y, n, n);
    let m = n - i;
    lemma_backward_suffix(sub_mul, divide, upper, y, n, n, m);
    lemma_backward_suffix(sub_mul, divide, upper, y, n, n, m - 1);
    lemma_backward_solution_len(sub_mul, divide, upper, y, n, n);
    lemma_backward_solution_len(sub_mul, divide, upper, y, n, m - 1);
    let xs = backward_solution(sub_mul, divide, upper, y, n, m - 1);
    let row = Seq::new((m - 1) as nat, |t: int| upper[i * n + i + 1 + t]);
    lemma_fold_is_difference(sub_mul, y[i], row, xs);
    assert(xs.take(m - 1) =~= xs);
    assert(x[i] == backward_solution(sub_mul, divide, upper, y, n, m)[0]);
    assert(x.subrange(i + 1, n) =~= xs);
}

/// Law: column `col` is solved against column `col` of `P`, the identity
/// with its rows reordered by `perm` as the factorisation reordered the rows
/// of the matrix (row `i` of `P` is row `perm[i]` of the identity). Its only
/// `one` is therefore in the row `i` with `perm[i] == col`, the row that
/// holds the original row `col`.
pub proof fn law_right_hand_side_is_permuted_identity_column<T>(perm: Seq<usize>, n: nat, col: int, zero: T, one: T)
    requires
        is_permutation(perm, n),
        0 <= col < n,
        zero != one,
    ensures
        permuted_unit(perm, col, zero, one).len() == n,
        forall|i: int| 0 <= i < n ==>
            #[trigger] permuted_unit(perm, col, zero, one)[i] == identity_entries(n, zero, one)[perm[i] * n + col],
        forall|i: int| 0 <= i < n ==> (#[trigger] permuted_unit(perm, col, zero, one)[i] == one <==> perm[i] == col),
{
    assert forall|i: int| 0 <= i < n implies
        #[trigger] permuted_unit(perm, col, zero, one)[i] == identity_entries(n, zero, one)[perm[i] * n + col] by {
        lemma_join_position(perm[i] as int, col, n as int);
    }
}

/// Law: entry `(i, col)` of the inverse (row `i`, column `col`) is entry `i`
/// of the solution for column `col`.
pub proof fn law_inverse_columns_are_solutions<T, M: Fn(T) -> T, G: Fn(T, T) -> bool, N: Fn(T) -> bool, D: Fn(T, T) -> T, S: Fn(T, T, T) -> T>(
    magnitude: M,
    exceeds: G,
    negligible: N,
    divide: D,
    sub_mul: S,
    zero: T,
    one: T,
    a: MatrixModel<T>,
    i: int,
    col: int,
)
    requires
        a.rows == a.cols,
        0 <= i < a.rows,
        0 <= col < a.rows,
    ensures
        inverse_spec(magnitude, exceeds, negligible, divide, sub_mul, zero, one, a) matches Ok(e) ==>
            lu_rounds(magnitude, exceeds, negligible, divide, sub_mul, zero, one, a, a.rows as int) matches Ok(st)
            && e[i * a.rows + col] == solved_column(sub_mul, divide, zero, one, st, a.rows as int, col)[i],
{
    lemma_join_position(i, col, a.rows as int);
}

/// The absolute value.
pub open spec fn abs(x: int) -> int {
    if x < 0 { -x } else { x }
}

/// Law: with `magnitude` the absolute value and `exceeds` the strict order,
/// the pivot of column `k` among rows `k ..= i` is a row of largest absolute
/// value in that column, the first one among equals, and its magnitude is
/// returned with it.
pub proof fn law_pivot_is_first_largest<M: Fn(int) -> int, G: Fn(int, int) -> bool>(
    magnitude: M,
    exceeds: G,
    u: Seq<int>,
    n: int,
    k: int,
    i: int,
)
    requires
        forall|x: int, r: int| #[trigger] call_ensures(magnitude, (x,), r) <==> r == abs(x),
        forall|a: int, b: int, r: bool| #[trigger] call_ensures(exceeds, (a, b), r) <==> r == (a > b),
        k <= i,
    ensures
        ({
            let (v, r) = pivot_from(magnitude, exceeds, u, n, k, i);
            &&& k <= r <= i
            &&& v == abs(u[r * n + k])
            &&& forall|t: int| k <= t <= i ==> abs(#[trigger] u[t * n + k]) <= v
            &&& forall|t: int| k <= t < r ==> abs(#[trigger] u[t * n + k]) < v
        }),
    decreases i - k,
{
    assert(call_ensures(magnitude, (u[i * n + k],), abs(u[i * n + k])));
    if i > k {
        law_pivot_is_first_largest(magnitude, exceeds, u, n, k, i - 1);
        let (v, r) = pivot_from(magnitude, exceeds, u, n, k, i - 1);
        let m = abs(u[i * n + k]);
        assert(call_ensures(exceeds, (m, v), m > v));
    }
}

/// The operations of LU factorisation and inversion done exactly on
/// integers: `magnitude` is the absolute value, `exceeds` the strict order,
/// `negligible` the test for zero, `divide` integer division and `sub_mul`
/// `acc - a * b`.
pub open spec fn exact_int_ops<M: Fn(int) -> int, G: Fn(int, int) -> bool, N: Fn(int) -> bool, D: Fn(int, int) -> int, S: Fn(int, int, int) -> int>(
    magnitude: M,
    exceeds: G,
    negligible: N,
    divide: D,
    sub_mul: S,
) -> bool {
    &&& forall|x: int, r: int| #[trigger] call_ensures(magnitude, (x,), r) <==> r == abs(x)
    &&& forall|a: int, b: int, r: bool| #[trigger] call_ensures(exceeds, (a, b), r) <==> r == (a > b)
    &&& forall|x: int, r: bool| #[trigger] call_ensures(negligible, (x,), r) <==> r == (x == 0)
    &&& forall|a: int, b: int, r: int| #[trigger] call_ensures(divide, (a, b), r) <==> r == a / b
    &&& exact_sub_mul(sub_mul)
}

/// `a` is the permutation matrix of `sigma`: row `i` has its one in column
/// `sigma[i]`, and `tau` is the inverse of `sigma`.
pub open spec fn is_permutation_matrix(a: MatrixModel<int>, sigma: Seq<usize>, tau: Seq<usize>) -> bool {
    &&& a.rows == a.cols
    &&& a.well_formed()
    &&& a.rows <= usize::MAX
    &&& is_permutation(sigma, a.rows)
    &&& tau.len() == a.rows
    &&& forall|j: int| 0 <= j < a.rows ==> #[trigger] tau[j] < a.rows && sigma[tau[j] as int] == j
    &&& forall|i: int, j: int| 0 <= i < a.rows && 0 <= j < a.rows ==>
        #[trigger] a.entries[i * a.rows + j] == if sigma[i] as int == j { 1int } else { 0int }
}

/// The identity table, entry by entry.
pub proof fn lemma_identity_entry(n: nat, i: int, j: int)
    requires
        0 <= i < n,
        0 <= j < n,
    ensures
        identity_entries(n, 0int, 1int)[i * n + j] == if i == j { 1int } else { 0int },
{
    lemma_join_position(i, j, n as int);
}

/// The state of LU factorisation of a permutation matrix after `k` rounds:
/// the lower factor is the identity, the upper factor is the matrix with its
/// rows taken in the order `perm`, whose inverse is `pinv`, and its first `k`
/// rows have their one on the diagonal.
pub open spec fn permuted_rows_state(a: MatrixModel<int>, sigma: Seq<usize>, st: LuFactors<int>, pinv: Seq<usize>, k: int) -> bool {
    let n = a.rows as int;
    &&& st.lower == identity_entries(a.rows, 0int, 1int)
    &&& st.perm.len() == n
    &&& st.upper.len() == n * n
    &&& pinv.len() == n
    &&& forall|i: int| 0 <= i < n ==> #[trigger] st.perm[i] < n && pinv[i] < n
        && st.perm[pinv[i] as int] == i && pinv[st.perm[i] as int] == i
    &&& forall|i: int, j: int| 0 <= i < n && 0 <= j < n ==>
        #[trigger] st.upper[i * n + j] == a.entries[st.perm[i] * n + j]
    &&& forall|t: int| 0 <= t < k ==> #[trigger] sigma[st.perm[t] as int] == t
}

/// In round `k` the pivot is the row that holds the one of column `k`.
pub proof fn lemma_permutation_pivot<M: Fn(int) -> int, G: Fn(int, int) -> bool, N: Fn(int) -> bool, D: Fn(int, int) -> int, S: Fn(int, int, int) -> int>(
    magnitude: M,
    exceeds: G,
    negligible: N,
    divide: D,
    sub_mul: S,
    a: MatrixModel<int>,
    sigma: Seq<usize>,
    tau: Seq<usize>,
    st: LuFactors<int>,
    pinv: Seq<usize>,
    k: int,
)
    requires
        exact_int_ops(magnitude, exceeds, negligible, divide, sub_mul),
        is_permutation_matrix(a, sigma, tau),
        permuted_rows_state(a, sigma, st, pinv, k),
        0 <= k < a.rows,
    ensures
        ({
            let n = a.rows as int;
            let t0 = pinv[tau[k] as int] as int;
            &&& k <= t0 < n
            &&& st.perm[t0] == tau[k]
            &&& st.upper[t0 * n + k] == 1int
            &&& pivot_from(magnitude, exceeds, st.upper, n, k, n - 1) == (1int, t0)
            &&& forall|t: int| k <= t < n && t != t0 ==> #[trigger] st.upper[t * n + k] == 0int
        }),
{
    let n = a.rows as int;
    let perm = st.perm;
    let u = st.upper;
    let j0 = tau[k] as int;
    assert(j0 < n && sigma[j0] == k);
    assert(perm[j0] < n);
    let t0 = pinv[j0] as int;
    assert(perm[t0] == tau[k]);
    lemma_join_position(t0, k, n);
    assert(u[t0 * n + k] == 1);
    assert forall|t: int| k <= t < n && t != t0 implies #[trigger] u[t * n + k] == 0int by {
        lemma_join_position(t, k, n);
        if sigma[perm[t] as int] as int == k {
            if perm[t] < tau[k] {
                assert(sigma[perm[t] as int] != sigma[tau[k] as int]);
            } else if perm[t] > tau[k] {
                assert(sigma[tau[k] as int] != sigma[perm[t] as int]);
            }
            assert(pinv[perm[t] as int] == t);
        }
    }
    if t0 < k {
        assert(sigma[perm[t0] as int] == t0);
    }
    law_pivot_is_first_largest(magnitude, exceeds, u, n, k, n - 1);
    let (v, r) = pivot_from(magnitude, exceeds, u, n, k, n - 1);
    assert(abs(u[t0 * n + k]) <= v);
    if r != t0 {
        assert(u[r * n + k] == 0int);
    }
}

/// Round `k` of LU factorisation of a permutation matrix exchanges the row
/// that holds the one of column `k` into row `k` and eliminates nothing.
#[verifier::rlimit(60)]
pub proof fn lemma_permutation_round<M: Fn(int) -> int, G: Fn(int, int) -> bool, N: Fn(int) -> bool, D: Fn(int, int) -> int, S: Fn(int, int, int) -> int>(
    magnitude: M,
    exceeds: G,
    negligible: N,
    divide: D,
    sub_mul: S,
    a: MatrixModel<int>,
    sigma: Seq<usize>,
    tau: Seq<usize>,
    st: LuFactors<int>,
    pinv: Seq<usize>,
    k: int,
) -> (pinv1: Seq<usize>)
    requires
        exact_int_ops(magnitude, exceeds, negligible, divide, sub_mul),
        is_permutation_matrix(a, sigma, tau),
        permuted_rows_state(a, sigma, st, pinv, k),
        0 <= k < a.rows,
    ensures
        lu_round(magnitude, exceeds, negligible, divide, sub_mul, st, a.rows as int, k) matches Ok(st1)
            && permuted_rows_state(a, sigma, st1, pinv1, k + 1),
{
    let n = a.rows as int;
    let perm = st.perm;
    let u = st.upper;
    lemma_permutation_pivot(magnitude, exceeds, negligible, divide, sub_mul, a, sigma, tau, st, pinv, k);
    let r = pinv[tau[k] as int] as int;
    assert(apply1(negligible, 1int) == false) by {
        assert(call_ensures(negligible, (1int,), false));
    }
    let l1 = swap_rows(st.lower, n, k, r, k);
    let u1 = swap_rows(u, n, k, r, n);
    let p1 = perm.update(k, perm[r]).update(r, perm[k]);
    let pinv1 = pinv.update(perm[k] as int, r as usize).update(perm[r] as int, k as usize);
    lemma_permutation_swap(a, st, pinv, k, r);
    lemma_swapped_pivot_column(u, n, k, r);
    lemma_permutation_elimination(divide, sub_mul, a.rows, u1, k);
    let l2 = eliminated_lower(divide, l1, u1, n, k);
    let u2 = eliminated_upper(divide, sub_mul, u1, n, k);
    let st1 = LuFactors { lower: l2, upper: u2, perm: p1 };
    assert(lu_round(magnitude, exceeds, negligible, divide, sub_mul, st, n, k) == Ok::<LuFactors<int>, MatrixError>(st1));
    assert forall|t: int| 0 <= t < k + 1 implies #[trigger] sigma[p1[t] as int] == t by {
        if t < k {
            assert(t != r);
            assert(sigma[perm[t] as int] == t);
        } else {
            assert(p1[k] == tau[k]);
        }
    }
    assert(permuted_rows_state(a, sigma, st1, pinv1, k + 1));
    pinv1
}

/// After exchanging the pivot row `r` into row `k`, column `k` has its one
/// on the diagonal and zeros below.
pub proof fn lemma_swapped_pivot_column(u: Seq<int>, n: int, k: int, r: int)
    requires
        0 <= k <= r < n,
        u.len() == n * n,
        u[r * n + k] == 1,
        forall|t: int| k <= t < n && t != r ==> #[trigger] u[t * n + k] == 0int,
    ensures
        swap_rows(u, n, k, r, n)[k * n + k] == 1,
        forall|i: int| k < i < n ==> #[trigger] swap_rows(u, n, k, r, n)[i * n + k] == 0int,
{
    let u1 = swap_rows(u, n, k, r, n);
    assert forall|i: int| k < i < n implies #[trigger] u1[i * n + k] == 0int by {
        lemma_join_position(i, k, n);
        if i != r {
            assert(u1[i * n + k] == u[i * n + k]);
        } else {
            lemma_join_position(k, k, n);
            assert(u1[i * n + k] == u[k * n + k]);
        }
    }
    lemma_join_position(k, k, n);
    lemma_join_position(r, k, n);
    assert(u1[k * n + k] == u[r * n + k]);
}

/// Eliminating below a pivot of one with zeros under it changes nothing.
pub proof fn lemma_permutation_elimination<D: Fn(int, int) -> int, S: Fn(int, int, int) -> int>(
    divide: D,
    sub_mul: S,
    n: nat,
    u1: Seq<int>,
    k: int,
)
    requires
        forall|a: int, b: int, r: int| #[trigger] call_ensures(divide, (a, b), r) <==> r == a / b,
        exact_sub_mul(sub_mul),
        0 <= k < n,
        u1.len() == n * n,
        u1[k * n + k] == 1,
        forall|i: int| k < i < n ==> #[trigger] u1[i * n + k] == 0int,
    ensures
        eliminated_lower(divide, identity_entries(n, 0int, 1int), u1, n as int, k) == identity_entries(n, 0int, 1int),
        eliminated_upper(divide, sub_mul, u1, n as int, k) == u1,
{
    let n = n as int;
    let l1 = identity_entries(n as nat, 0int, 1int);
    assert forall|i: int| k < i < n implies #[trigger] elimination_factor(divide, u1, n, k, i) == 0int by {
        assert(u1[i * n + k] == 0int);
        assert(call_ensures(divide, (0int, 1int), 0int / 1int));
    }
    let l2 = eliminated_lower(divide, l1, u1, n, k);
    let u2 = eliminated_upper(divide, sub_mul, u1, n, k);
    assert forall|q: int| 0 <= q < n * n implies #[trigger] l2[q] == l1[q] by {
        lemma_split_position(q, n);
        lemma_identity_entry(n as nat, q / n, q % n);
    }
    assert(l2 =~= l1);
    assert forall|q: int| 0 <= q < n * n implies #[trigger] u2[q] == u1[q] by {
        lemma_split_position(q, n);
        if q / n > k && q % n >= k {
            let f = elimination_factor(divide, u1, n, k, q / n);
            assert(f == 0int);
            assert(call_ensures(sub_mul, (u1[q], f, u1[k * n + q % n]), u1[q] - f * u1[k * n + q % n]));
        }
    }
    assert(u2 =~= u1);
}

/// Exchanging rows `k` and `r >= k` keeps the lower identity, reorders the
/// upper rows with the permutation, and the inverse follows.
pub proof fn lemma_permutation_swap(a: MatrixModel<int>, st: LuFactors<int>, pinv: Seq<usize>, k: int, r: int)
    requires
        a.rows == a.cols,
        a.well_formed(),
        0 <= k <= r < a.rows,
        st.lower == identity_entries(a.rows, 0int, 1int),
        st.perm.len() == a.rows,
        st.upper.len() == a.rows * a.rows,
        pinv.len() == a.rows,
        forall|i: int| 0 <= i < a.rows ==> #[trigger] st.perm[i] < a.rows && pinv[i] < a.rows
            && st.perm[pinv[i] as int] == i && pinv[st.perm[i] as int] == i,
        forall|i: int, j: int| 0 <= i < a.rows && 0 <= j < a.rows ==>
            #[trigger] st.upper[i * a.rows + j] == a.entries[st.perm[i] * a.rows + j],
    ensures
        ({
            let n = a.rows as int;
            let perm = st.perm;
            let p1 = perm.update(k, perm[r]).update(r, perm[k]);
            let pinv1 = pinv.update(perm[k] as int, r as usize).update(perm[r] as int, k as usize);
            let u1 = swap_rows(st.upper, n, k, r, n);
            &&& swap_rows(st.lower, n, k, r, k) == identity_entries(a.rows, 0int, 1int)
            &&& u1.len() == n * n
            &&& forall|i: int, j: int| 0 <= i < n && 0 <= j < n ==> #[trigger] u1[i * n + j] == a.entries[p1[i] * n + j]
            &&& forall|i: int| 0 <= i < n ==> #[trigger] p1[i] < n && pinv1[i] < n
                && p1[pinv1[i] as int] == i && pinv1[p1[i] as int] == i
        }),
{
    let n = a.rows as int;
    let perm = st.perm;
    let p1 = perm.update(k, perm[r]).update(r, perm[k]);
    let pinv1 = pinv.update(perm[k] as int, r as usize).update(perm[r] as int, k as usize);
    let l1 = swap_rows(st.lower, n, k, r, k);
    let u1 = swap_rows(st.upper, n, k, r, n);
    assert forall|q: int| 0 <= q < n * n implies #[trigger] l1[q] == identity_entries(a.rows, 0int, 1int)[q] by {
        lemma_split_position(q, n);
        lemma_identity_entry(a.rows, q / n, q % n);
        if q % n < k && (q / n == k || q / n == r) {
            lemma_identity_entry(a.rows, r, q % n);
            lemma_identity_entry(a.rows, k, q % n);
        }
    }
    assert(l1 =~= identity_entries(a.rows, 0int, 1int));
    assert forall|i: int, j: int| 0 <= i < n && 0 <= j < n implies #[trigger] u1[i * n + j] == a.entries[p1[i] * n + j] by {
        lemma_join_position(i, j, n);
        lemma_join_position(r, j, n);
        lemma_join_position(k, j, n);
    }
    assert forall|i: int| 0 <= i < n implies #[trigger] p1[i] < n && pinv1[i] < n
        && p1[pinv1[i] as int] == i && pinv1[p1[i] as int] == i by {
        assert(perm[k] < n && perm[r] < n);
        assert(pinv[perm[k] as int] == k && pinv[perm[r] as int] == r);
        if i == perm[r] as int {
        } else if i == perm[k] as int {
        } else {
            assert(perm[i] < n);
            let t = pinv[i] as int;
            assert(perm[t] == i);
            assert(t != k && t != r);
        }
        if i != k && i != r {
            assert(perm[i] != perm[k]) by { assert(pinv[perm[i] as int] == i); }
            assert(perm[i] != perm[r]) by { assert(pinv[perm[i] as int] == i); }
        }
    }
}

/// LU factorisation of a permutation matrix, round by round.
pub proof fn lemma_lu_of_permutation_matrix<M: Fn(int) -> int, G: Fn(int, int) -> bool, N: Fn(int) -> bool, D: Fn(int, int) -> int, S: Fn(int, int, int) -> int>(
    magnitude: M,
    exceeds: G,
    negligible: N,
    divide: D,
    sub_mul: S,
    a: MatrixModel<int>,
    sigma: Seq<usize>,
    tau: Seq<usize>,
    k: int,
) -> (pinv: Seq<usize>)
    requires
        exact_int_ops(magnitude, exceeds, negligible, divide, sub_mul),
        is_permutation_matrix(a, sigma, tau),
        0 <= k <= a.rows,
    ensures
        lu_rounds(magnitude, exceeds, negligible, divide, sub_mul, 0int, 1int, a, k) matches Ok(st)
            && permuted_rows_state(a, sigma, st, pinv, k),
    decreases k,
{
    let n = a.rows as int;
    if k == 0 {
        let perm = Seq::new(a.rows, |i: int| i as usize);
        let st = LuFactors { lower: identity_entries(a.rows, 0int, 1int), upper: a.entries, perm };
        assert forall|i: int, j: int| 0 <= i < n && 0 <= j < n implies
            #[trigger] st.upper[i * n + j] == a.entries[st.perm[i] * n + j] by {}
        assert(permuted_rows_state(a, sigma, st, perm, 0));
        perm
    } else {
        let pinv = lemma_lu_of_permutation_matrix(magnitude, exceeds, negligible, divide, sub_mul, a, sigma, tau, k - 1);
        let st = lu_rounds(magnitude, exceeds, negligible, divide, sub_mul, 0int, 1int, a, k - 1)->Ok_0;
        lemma_permutation_round(magnitude, exceeds, negligible, divide, sub_mul, a, sigma, tau, st, pinv, k - 1)
    }
}

/// Products with zeros sum to zero.
pub proof fn lemma_sum_of_zero_products(xs: Seq<int>, ys: Seq<int>)
    requires
        forall|k: int| 0 <= k < xs.len() ==> #[trigger] xs[k] == 0,
    ensures
        sum_of_products(xs, ys) == 0,
    decreases xs.len(),
{
    if xs.len() > 0 {
        lemma_sum_of_zero_products(xs.drop_last(), ys.drop_last());
        assert(xs.last() == 0);
    }
}

/// Substitution with identity factors gives back the right-hand side.
pub proof fn lemma_solve_with_identity_factors<S: Fn(int, int, int) -> int, D: Fn(int, int) -> int>(
    sub_mul: S,
    divide: D,
    rhs: Seq<int>,
    n: nat,
    i: int,
)
    requires
        exact_sub_mul(sub_mul),
        forall|a: int, b: int, r: int| #[trigger] call_ensures(divide, (a, b), r) <==> r == a / b,
        rhs.len() == n,
        0 <= i < n,
    ensures
        backward_solution(sub_mul, divide, identity_entries(n, 0int, 1int),
            forward_solution(sub_mul, identity_entries(n, 0int, 1int), rhs, n as int, n as int), n as int, n as int)[i]
            == rhs[i],
{
    let id = identity_entries(n, 0int, 1int);
    let nn = n as int;
    let y = forward_solution(sub_mul, id, rhs, nn, nn);
    lemma_forward_solution_len(sub_mul, id, rhs, nn, nn);
    assert forall|j: int| 0 <= j < nn implies #[trigger] y[j] == rhs[j] by {
        law_forward_solves_lower(sub_mul, id, rhs, nn, nn, j);
        let row = Seq::new(j as nat, |t: int| id[j * nn + t]);
        assert forall|t: int| 0 <= t < row.len() implies #[trigger] row[t] == 0 by {
            lemma_identity_entry(n, j, t);
        }
        lemma_sum_of_zero_products(row, y.take(j));
    }
    law_backward_solves_upper(sub_mul, divide, id, y, nn, i);
    let x = backward_solution(sub_mul, divide, id, y, nn, nn);
    let row = Seq::new((nn - i - 1) as nat, |t: int| id[i * nn + i + 1 + t]);
    assert forall|t: int| 0 <= t < row.len() implies #[trigger] row[t] == 0 by {
        lemma_identity_entry(n, i, i + 1 + t);
    }
    lemma_sum_of_zero_products(row, x.subrange(i + 1, nn));
    lemma_identity_entry(n, i, i);
    assert(call_ensures(divide, (y[i], 1int), y[i] / 1int));
}

/// Law: with exact arithmetic, the inverse of a permutation matrix is its
/// transpose: entry `(i, col)` of the inverse is entry `(col, i)` of the
/// matrix, so the matrix times its inverse is the identity. This ties the
/// pivoting, the permutation it records, the right-hand sides built from it
/// and the substitutions together.
pub proof fn law_inverse_of_permutation_matrix_is_transpose<M: Fn(int) -> int, G: Fn(int, int) -> bool, N: Fn(int) -> bool, D: Fn(int, int) -> int, S: Fn(int, int, int) -> int>(
    magnitude: M,
    exceeds: G,
    negligible: N,
    divide: D,
    sub_mul: S,
    a: MatrixModel<int>,
    sigma: Seq<usize>,
    tau: Seq<usize>,
)
    requires
        exact_int_ops(magnitude, exceeds, negligible, divide, sub_mul),
        is_permutation_matrix(a, sigma, tau),
    ensures
        inverse_spec(magnitude, exceeds, negligible, divide, sub_mul, 0int, 1int, a) matches Ok(x) && {
            &&& x.len() == a.rows * a.rows
            &&& forall|i: int, col: int| 0 <= i < a.rows && 0 <= col < a.rows ==>
                #[trigger] x[i * a.rows + col] == a.entries[col * a.rows + i]
        },
{
    let n = a.rows as int;
    let pinv = lemma_lu_of_permutation_matrix(magnitude, exceeds, negligible, divide, sub_mul, a, sigma, tau, n);
    let st = lu_rounds(magnitude, exceeds, negligible, divide, sub_mul, 0int, 1int, a, n)->Ok_0;
    let id = identity_entries(a.rows, 0int, 1int);
    assert forall|q: int| 0 <= q < n * n implies #[trigger] st.upper[q] == id[q] by {
        lemma_split_position(q, n);
        let i = q / n;
        let j = q % n;
        lemma_identity_entry(a.rows, i, j);
        assert(st.perm[i] < n);
        assert(sigma[st.perm[i] as int] == i);
        lemma_join_position(st.perm[i] as int, j, n);
        assert(st.upper[i * n + j] == a.entries[st.perm[i] * n + j]);
    }
    assert(st.upper =~= id);
    let x = inverse_spec(magnitude, exceeds, negligible, divide, sub_mul, 0int, 1int, a)->Ok_0;
    assert forall|i: int, col: int| 0 <= i < n && 0 <= col < n implies #[trigger] x[i * n + col] == a.entries[col * n + i] by {
        lemma_join_position(i, col, n);
        let rhs = permuted_unit(st.perm, col, 0int, 1int);
        lemma_solve_with_identity_factors(sub_mul, divide, rhs, a.rows, i);
        assert(x[i * n + col] == solved_column(sub_mul, divide, 0int, 1int, st, n, col)[i]);
        assert(st.perm[i] < n);
        assert(sigma[st.perm[i] as int] == i);
        assert(a.entries[col * n + i] == if sigma[col] as int == i { 1int } else { 0int });
        if sigma[col] as int == i && st.perm[i] as int != col {
            if (st.perm[i] as int) < col {
                assert(sigma[st.perm[i] as int] != sigma[col]);
            } else {
                assert(sigma[col] != sigma[st.perm[i] as int]);
            }
        }
    }
}

} // verus!
