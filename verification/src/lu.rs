//! LU factorisation with partial pivoting and the inverse it gives, with
//! the element arithmetic handed in as closures.

use vstd::prelude::*;
use crate::matrix::{lemma_join_position, lemma_split_position, Matrix, MatrixError, MatrixModel};
use crate::ops::{
    apply1, apply2, apply3, deterministic1, deterministic2, deterministic3, fold_steps, lemma_apply1, lemma_apply2,
    lemma_apply3, lemma_fold_steps_take,
};

verus! {

/// The state of LU factorisation: the lower factor, the upper factor and the
/// row permutation, each `n` by `n` table row by row.
pub struct LuFactors<T> {
    pub lower: Seq<T>,
    pub upper: Seq<T>,
    pub perm: Seq<usize>,
}

/// The `n` by `n` identity table.
pub open spec fn identity_entries<T>(n: nat, zero: T, one: T) -> Seq<T> {
    Seq::new(n * n, |q: int| if q / (n as int) == q % (n as int) { one } else { zero })
}

/// The pivot of column `k` among rows `k ..= i`, with its magnitude: row `k`
/// to start with, replaced in turn by each later row whose magnitude
/// `exceeds` that of the row kept so far.
pub open spec fn pivot_from<T, M: Fn(T) -> T, G: Fn(T, T) -> bool>(
    magnitude: M,
    exceeds: G,
    u: Seq<T>,
    n: int,
    k: int,
    i: int,
) -> (T, int)
    decreases i - k,
{
    if i <= k {
        (apply1(magnitude, u[k * n + k]), k)
    } else {
        let (v, r) = pivot_from(magnitude, exceeds, u, n, k, i - 1);
        let m = apply1(magnitude, u[i * n + k]);
        if apply2(exceeds, m, v) {
            (m, i)
        } else {
            (v, r)
        }
    }
}

/// The table with rows `a` and `b` exchanged in their first `upto` columns.
pub open spec fn swap_rows<T>(s: Seq<T>, n: int, a: int, b: int, upto: int) -> Seq<T> {
    Seq::new(s.len(), |q: int|
        if q % n < upto && q / n == a {
            s[b * n + q % n]
        } else if q % n < upto && q / n == b {
            s[a * n + q % n]
        } else {
            s[q]
        })
}

/// The factor that eliminates column `k` of row `i` against row `k`.
pub open spec fn elimination_factor<T, D: Fn(T, T) -> T>(divide: D, u: Seq<T>, n: int, k: int, i: int) -> T {
    apply2(divide, u[i * n + k], u[k * n + k])
}

/// The lower factor after eliminating column `k`: the factors stored under
/// the diagonal in column `k`.
pub open spec fn eliminated_lower<T, D: Fn(T, T) -> T>(divide: D, l: Seq<T>, u: Seq<T>, n: int, k: int) -> Seq<T> {
    Seq::new(l.len(), |q: int|
        if q / n > k && q % n == k {
            elimination_factor(divide, u, n, k, q / n)
        } else {
            l[q]
        })
}

/// The upper factor after eliminating column `k`: every row below `k`, from
/// column `k` on, reduced by its factor times row `k`.
pub open spec fn eliminated_upper<T, D: Fn(T, T) -> T, S: Fn(T, T, T) -> T>(
    divide: D,
    sub_mul: S,
    u: Seq<T>,
    n: int,
    k: int,
) -> Seq<T> {
    Seq::new(u.len(), |q: int|
        if q / n > k && q % n >= k {
            apply3(sub_mul, u[q], elimination_factor(divide, u, n, k, q / n), u[k * n + q % n])
        } else {
            u[q]
        })
}

/// One round of LU factorisation with partial pivoting, on column `k`.
pub open spec fn lu_round<T, M: Fn(T) -> T, G: Fn(T, T) -> bool, N: Fn(T) -> bool, D: Fn(T, T) -> T, S: Fn(T, T, T) -> T>(
    magnitude: M,
    exceeds: G,
    negligible: N,
    divide: D,
    sub_mul: S,
    st: LuFactors<T>,
    n: int,
    k: int,
) -> Result<LuFactors<T>, MatrixError> {
    let (v, r) = pivot_from(magnitude, exceeds, st.upper, n, k, n - 1);
    if apply1(negligible, v) {
        Err(MatrixError::Singular)
    } else {
        let l1 = swap_rows(st.lower, n, k, r, k);
        let u1 = swap_rows(st.upper, n, k, r, n);
        let p1 = st.perm.update(k, st.perm[r]).update(r, st.perm[k]);
        Ok(LuFactors {
            lower: eliminated_lower(divide, l1, u1, n, k),
            upper: eliminated_upper(divide, sub_mul, u1, n, k),
            perm: p1,
        })
    }
}

/// The state after the first `k` rounds of LU factorisation of `a`.
pub open spec fn lu_rounds<T, M: Fn(T) -> T, G: Fn(T, T) -> bool, N: Fn(T) -> bool, D: Fn(T, T) -> T, S: Fn(T, T, T) -> T>(
    magnitude: M,
    exceeds: G,
    negligible: N,
    divide: D,
    sub_mul: S,
    zero: T,
    one: T,
    a: MatrixModel<T>,
    k: int,
) -> Result<LuFactors<T>, MatrixError>
    decreases k,
{
    if k <= 0 {
        Ok(LuFactors {
            lower: identity_entries(a.rows, zero, one),
            upper: a.entries,
            perm: Seq::new(a.rows, |i: int| i as usize),
        })
    } else {
        match lu_rounds(magnitude, exceeds, negligible, divide, sub_mul, zero, one, a, k - 1) {
            Ok(st) => lu_round(magnitude, exceeds, negligible, divide, sub_mul, st, a.rows as int, k - 1),
            Err(e) => Err(e),
        }
    }
}

/// Once a round refuses, every later state is that refusal.
pub proof fn lemma_lu_rounds_refusal_stays<T, M: Fn(T) -> T, G: Fn(T, T) -> bool, N: Fn(T) -> bool, D: Fn(T, T) -> T, S: Fn(T, T, T) -> T>(
    magnitude: M,
    exceeds: G,
    negligible: N,
    divide: D,
    sub_mul: S,
    zero: T,
    one: T,
    a: MatrixModel<T>,
    k: int,
    m: int,
)
    requires
        0 <= k <= m,
        lu_rounds(magnitude, exceeds, negligible, divide, sub_mul, zero, one, a, k) is Err,
    ensures
        lu_rounds(magnitude, exceeds, negligible, divide, sub_mul, zero, one, a, m)
            == lu_rounds(magnitude, exceeds, negligible, divide, sub_mul, zero, one, a, k),
    decreases m - k,
{
    if m > k {
        lemma_lu_rounds_refusal_stays(magnitude, exceeds, negligible, divide, sub_mul, zero, one, a, k, m - 1);
    }
}

/// The lower factor while column `k` is eliminated: rows `k + 1 .. i` done.
pub open spec fn eliminated_lower_upto<T, D: Fn(T, T) -> T>(divide: D, l: Seq<T>, u: Seq<T>, n: int, k: int, i: int) -> Seq<T> {
    Seq::new(l.len(), |q: int|
        if k < q / n < i && q % n == k {
            elimination_factor(divide, u, n, k, q / n)
        } else {
            l[q]
        })
}

/// The upper factor while column `k` is eliminated: rows before `i` done,
/// and row `i` up to column `j`.
pub open spec fn eliminated_upper_upto<T, D: Fn(T, T) -> T, S: Fn(T, T, T) -> T>(
    divide: D,
    sub_mul: S,
    u: Seq<T>,
    n: int,
    k: int,
    i: int,
    j: int,
) -> Seq<T> {
    Seq::new(u.len(), |q: int|
        if q / n > k && q % n >= k && (q / n < i || (q / n == i && q % n < j)) {
            apply3(sub_mul, u[q], elimination_factor(divide, u, n, k, q / n), u[k * n + q % n])
        } else {
            u[q]
        })
}

/// Every operation handed to LU factorisation gives one result per argument.
pub open spec fn lu_ops_deterministic<T, M: Fn(T) -> T, G: Fn(T, T) -> bool, N: Fn(T) -> bool, D: Fn(T, T) -> T, S: Fn(T, T, T) -> T>(
    magnitude: M,
    exceeds: G,
    negligible: N,
    divide: D,
    sub_mul: S,
) -> bool {
    &&& deterministic1(magnitude)
    &&& deterministic2(exceeds)
    &&& deterministic1(negligible)
    &&& deterministic2(divide)
    &&& deterministic3(sub_mul)
}

/// The factors that `lu_decompose` returns, as a state of the factorisation.
pub open spec fn lu_outcome<T>(r: Result<(Matrix<T>, Matrix<T>, Vec<usize>), MatrixError>) -> Result<LuFactors<T>, MatrixError> {
    match r {
        Ok((l, u, p)) => Ok(LuFactors { lower: l@.entries, upper: u@.entries, perm: p@ }),
        Err(e) => Err(e),
    }
}


/// Column `col` of the identity with its rows permuted by `perm`: `one`
/// where `perm[i] == col`, else `zero`.
pub open spec fn permuted_unit<T>(perm: Seq<usize>, col: int, zero: T, one: T) -> Seq<T> {
    Seq::new(perm.len(), |i: int| if perm[i] as int == col { one } else { zero })
}

/// The first `m` entries of the solution of `lower * y = rhs` by forward
/// substitution, taking the diagonal of `lower` as one.
pub open spec fn forward_solution<T, S: Fn(T, T, T) -> T>(sub_mul: S, lower: Seq<T>, rhs: Seq<T>, n: int, m: int) -> Seq<T>
    decreases m,
{
    if m <= 0 {
        Seq::empty()
    } else {
        let y = forward_solution(sub_mul, lower, rhs, n, m - 1);
        y.push(fold_steps(sub_mul, rhs[m - 1], Seq::new((m - 1) as nat, |t: int| lower[(m - 1) * n + t]), y))
    }
}

/// The last `m` entries of the solution of `upper * x = y` by backward
/// substitution.
pub open spec fn backward_solution<T, S: Fn(T, T, T) -> T, D: Fn(T, T) -> T>(
    sub_mul: S,
    divide: D,
    upper: Seq<T>,
    y: Seq<T>,
    n: int,
    m: int,
) -> Seq<T>
    decreases m,
{
    if m <= 0 {
        Seq::empty()
    } else {
        let xs = backward_solution(sub_mul, divide, upper, y, n, m - 1);
        let i = n - m;
        let s = fold_steps(sub_mul, y[i], Seq::new((m - 1) as nat, |t: int| upper[i * n + i + 1 + t]), xs);
        seq![apply2(divide, s, upper[i * n + i])] + xs
    }
}

/// Forward substitution of `m` rows gives `m` entries.
pub proof fn lemma_forward_solution_len<T, S: Fn(T, T, T) -> T>(sub_mul: S, lower: Seq<T>, rhs: Seq<T>, n: int, m: int)
    requires
        0 <= m,
    ensures
        forward_solution(sub_mul, lower, rhs, n, m).len() == m,
    decreases m,
{
    if m > 0 {
        lemma_forward_solution_len(sub_mul, lower, rhs, n, m - 1);
    }
}

/// Backward substitution of `m` rows gives `m` entries.
pub proof fn lemma_backward_solution_len<T, S: Fn(T, T, T) -> T, D: Fn(T, T) -> T>(
    sub_mul: S,
    divide: D,
    upper: Seq<T>,
    y: Seq<T>,
    n: int,
    m: int,
)
    requires
        0 <= m,
    ensures
        backward_solution(sub_mul, divide, upper, y, n, m).len() == m,
    decreases m,
{
    if m > 0 {
        lemma_backward_solution_len(sub_mul, divide, upper, y, n, m - 1);
    }
}

/// Column `col` of the inverse computed from the factors: forward, then
/// backward substitution against the permuted identity column.
pub open spec fn solved_column<T, S: Fn(T, T, T) -> T, D: Fn(T, T) -> T>(
    sub_mul: S,
    divide: D,
    zero: T,
    one: T,
    st: LuFactors<T>,
    n: int,
    col: int,
) -> Seq<T> {
    let y = forward_solution(sub_mul, st.lower, permuted_unit(st.perm, col, zero, one), n, n);
    backward_solution(sub_mul, divide, st.upper, y, n, n)
}

/// What `inverse` computes: refused for a matrix that is not square, refused
/// as singular when factorisation is, and otherwise the table whose column
/// `col` is `solved_column(.., col)`.
pub open spec fn inverse_spec<T, M: Fn(T) -> T, G: Fn(T, T) -> bool, N: Fn(T) -> bool, D: Fn(T, T) -> T, S: Fn(T, T, T) -> T>(
    magnitude: M,
    exceeds: G,
    negligible: N,
    divide: D,
    sub_mul: S,
    zero: T,
    one: T,
    a: MatrixModel<T>,
) -> Result<Seq<T>, MatrixError> {
    if a.rows != a.cols {
        Err(MatrixError::NotSquare)
    } else {
        let n = a.rows as int;
        match lu_rounds(magnitude, exceeds, negligible, divide, sub_mul, zero, one, a, n) {
            Err(e) => Err(e),
            Ok(st) => Ok(Seq::new((n * n) as nat, |q: int| solved_column(sub_mul, divide, zero, one, st, n, q % n)[q / n])),
        }
    }
}



/// `perm` holds each of `0 .. n` exactly once.
pub open spec fn is_permutation(perm: Seq<usize>, n: nat) -> bool {
    &&& perm.len() == n
    &&& forall|i: int| 0 <= i < n ==> #[trigger] perm[i] < n
    &&& forall|i: int, j: int| 0 <= i < j < n ==> #[trigger] perm[i] != #[trigger] perm[j]
}

/// The `n` by `n` table has `one` on its diagonal and `zero` above it.
pub open spec fn is_unit_lower<T>(l: Seq<T>, n: int, zero: T, one: T) -> bool {
    &&& l.len() == n * n
    &&& forall|i: int, j: int| 0 <= i < n && 0 <= j < n ==>
        (i == j ==> #[trigger] l[i * n + j] == one) && (i < j ==> l[i * n + j] == zero)
}

/// Law: at every stage of LU factorisation the permutation holds each row
/// index once, and the lower factor is unit lower triangular.
pub proof fn law_lu_rounds_shape<T, M: Fn(T) -> T, G: Fn(T, T) -> bool, N: Fn(T) -> bool, D: Fn(T, T) -> T, S: Fn(T, T, T) -> T>(
    magnitude: M,
    exceeds: G,
    negligible: N,
    divide: D,
    sub_mul: S,
    zero: T,
    one: T,
    a: MatrixModel<T>,
    k: int,
)
    requires
        a.well_formed(),
        a.rows == a.cols,
        a.rows <= usize::MAX,
        0 <= k <= a.rows,
    ensures
        lu_rounds(magnitude, exceeds, negligible, divide, sub_mul, zero, one, a, k) matches Ok(st) ==> {
            &&& is_permutation(st.perm, a.rows)
            &&& is_unit_lower(st.lower, a.rows as int, zero, one)
            &&& st.upper.len() == a.rows * a.rows
        },
    decreases k,
{
    let n = a.rows as int;
    if k == 0 {
        let l = identity_entries(a.rows, zero, one);
        assert forall|i: int, j: int| 0 <= i < n && 0 <= j < n implies
            (i == j ==> #[trigger] l[i * n + j] == one) && (i < j ==> l[i * n + j] == zero) by {
            lemma_join_position(i, j, n);
        }
        assert(is_unit_lower(l, n, zero, one));
        assert(is_permutation(Seq::new(a.rows, |i: int| i as usize), a.rows));
    } else {
        law_lu_rounds_shape(magnitude, exceeds, negligible, divide, sub_mul, zero, one, a, k - 1);
        match lu_rounds(magnitude, exceeds, negligible, divide, sub_mul, zero, one, a, k - 1) {
            Ok(st) => {
                let kk = k - 1;
                let (v, r) = pivot_from(magnitude, exceeds, st.upper, n, kk, n - 1);
                lemma_pivot_row_in_range(magnitude, exceeds, st.upper, n, kk, n - 1);
                if !apply1(negligible, v) {
                    let l1 = swap_rows(st.lower, n, kk, r, kk);
                    let u1 = swap_rows(st.upper, n, kk, r, n);
                    let p1 = st.perm.update(kk, st.perm[r]).update(r, st.perm[kk]);
                    let l2 = eliminated_lower(divide, l1, u1, n, kk);
                    assert forall|i: int, j: int| 0 <= i < n && 0 <= j < n implies
                        (i == j ==> #[trigger] l2[i * n + j] == one) && (i < j ==> l2[i * n + j] == zero) by {
                        lemma_join_position(i, j, n);
                        if i == j || j > i {
                            assert(l1[i * n + j] == st.lower[i * n + j]);
                        }
                    }
                    assert forall|i: int| 0 <= i < n implies #[trigger] p1[i] < n by {
                        assert(p1[i] == st.perm[i] || p1[i] == st.perm[r] || p1[i] == st.perm[kk]);
                    }
                    assert forall|i: int, j: int| 0 <= i < j < n implies #[trigger] p1[i] != #[trigger] p1[j] by {
                        if i != kk && i != r && j != kk && j != r {
                        } else {
                            assert(st.perm[kk] != st.perm[r] || kk == r);
                        }
                    }
                    assert(is_unit_lower(l2, n, zero, one));
                    assert(is_permutation(p1, a.rows));
                }
            },
            Err(e) => {},
        }
    }
}

/// The pivot row of column `k` lies among rows `k ..= i`.
pub proof fn lemma_pivot_row_in_range<T, M: Fn(T) -> T, G: Fn(T, T) -> bool>(
    magnitude: M,
    exceeds: G,
    u: Seq<T>,
    n: int,
    k: int,
    i: int,
)
    requires
        k <= i,
    ensures
        k <= pivot_from(magnitude, exceeds, u, n, k, i).1 <= i,
    decreases i - k,
{
    if i > k {
        lemma_pivot_row_in_range(magnitude, exceeds, u, n, k, i - 1);
    }
}

/// Solves one column of the inverse from the factors.
fn solve_column<T: Copy, D: Fn(T, T) -> T, S: Fn(T, T, T) -> T>(
    l: &Vec<T>,
    u: &Vec<T>,
    p: &Vec<usize>,
    n: usize,
    col: usize,
    zero: T,
    one: T,
    divide: &D,
    sub_mul: &S,
) -> (x: Vec<T>)
    requires
        l@.len() == n * n,
        u@.len() == n * n,
        n * n <= usize::MAX,
        p@.len() == n,
        forall|a: T, b: T| call_requires(divide, (a, b)),
        forall|a: T, b: T, c: T| call_requires(sub_mul, (a, b, c)),
    ensures
        x@.len() == n,
        deterministic2(divide) && deterministic3(sub_mul) ==>
            x@ == solved_column(sub_mul, divide, zero, one, LuFactors { lower: l@, upper: u@, perm: p@ }, n as int, col as int),
{
    let ghost det = deterministic2(divide) && deterministic3(sub_mul);
    let ghost st = LuFactors { lower: l@, upper: u@, perm: p@ };
    let mut b: Vec<T> = Vec::new();
    while b.len() < n
        invariant
            p@.len() == n,
            b@.len() <= n,
            b@ == permuted_unit(p@, col as int, zero, one).take(b@.len() as int),
        decreases n - b@.len(),
    {
        let i = b.len();
        if p[i] == col {
            b.push(one);
        } else {
            b.push(zero);
        }
        assert(b@ =~= permuted_unit(p@, col as int, zero, one).take(b@.len() as int));
    }
    assert(b@ =~= permuted_unit(p@, col as int, zero, one));

    let mut y: Vec<T> = Vec::new();
    while y.len() < n
        invariant
            y@.len() <= n,
        decreases n - y@.len(),
    {
        y.push(zero);
    }
    let mut i: usize = 0;
    while i < n
        invariant
            i <= n,
            y@.len() == n,
            l@.len() == n * n,
            n * n <= usize::MAX,
            b@.len() == n,
            det == (deterministic2(divide) && deterministic3(sub_mul)),
            forall|a: T, b: T, c: T| call_requires(sub_mul, (a, b, c)),
            det ==> y@.take(i as int) == forward_solution(sub_mul, l@, b@, n as int, i as int),
        decreases n - i,
    {
        let ghost xs = Seq::new(i as nat, |t: int| l@[i * n + t]);
        let ghost ys = y@.take(i as int);
        let mut sum = b[i];
        let mut j: usize = 0;
        while j < i
            invariant
                i < n,
                j <= i,
                y@.len() == n,
                l@.len() == n * n,
                n * n <= usize::MAX,
                b@.len() == n,
                xs == Seq::new(i as nat, |t: int| l@[i * n + t]),
                ys == y@.take(i as int),
                det == (deterministic2(divide) && deterministic3(sub_mul)),
                forall|a: T, b: T, c: T| call_requires(sub_mul, (a, b, c)),
                det ==> sum == fold_steps(sub_mul, b@[i as int], xs.take(j as int), ys.take(j as int)),
            decreases i - j,
        {
            proof { lemma_join_position(i as int, j as int, n as int); }
            let next = sub_mul(sum, l[i * n + j], y[j]);
            proof {
                if det {
                    lemma_apply3(sub_mul, sum, l@[i * n + j], y@[j as int], next);
                    lemma_fold_steps_take(sub_mul, b@[i as int], xs, ys, j as int);
                }
            }
            sum = next;
            j = j + 1;
        }
        let ghost before = y@;
        y.set(i, sum);
        proof {
            if det {
                assert(xs.take(i as int) =~= xs);
                assert(ys.take(i as int) =~= ys);
                lemma_forward_solution_len(sub_mul, l@, b@, n as int, i as int);
                assert(y@.take(i + 1) =~= before.take(i as int).push(sum));
                assert(y@.take(i + 1) == forward_solution(sub_mul, l@, b@, n as int, i + 1));
            }
        }
        i = i + 1;
    }
    assert(y@.take(n as int) =~= y@);

    let mut x: Vec<T> = Vec::new();
    while x.len() < n
        invariant
            x@.len() <= n,
        decreases n - x@.len(),
    {
        x.push(zero);
    }
    let mut i: usize = n;
    while i > 0
        invariant
            i <= n,
            x@.len() == n,
            y@.len() == n,
            u@.len() == n * n,
            n * n <= usize::MAX,
            det == (deterministic2(divide) && deterministic3(sub_mul)),
            forall|a: T, b: T| call_requires(divide, (a, b)),
            forall|a: T, b: T, c: T| call_requires(sub_mul, (a, b, c)),
            det ==> x@.subrange(i as int, n as int) == backward_solution(sub_mul, divide, u@, y@, n as int, n - i),
        decreases i,
    {
        i = i - 1;
        let ghost xs = Seq::new((n - i - 1) as nat, |t: int| u@[i * n + i + 1 + t]);
        let ghost ys = x@.subrange(i + 1, n as int);
        let mut sum = y[i];
        let mut j: usize = i + 1;
        while j < n
            invariant
                i < n,
                i + 1 <= j <= n,
                x@.len() == n,
                y@.len() == n,
                u@.len() == n * n,
                n * n <= usize::MAX,
                xs == Seq::new((n - i - 1) as nat, |t: int| u@[i * n + i + 1 + t]),
                ys == x@.subrange(i + 1, n as int),
                det == (deterministic2(divide) && deterministic3(sub_mul)),
                forall|a: T, b: T, c: T| call_requires(sub_mul, (a, b, c)),
                det ==> sum == fold_steps(sub_mul, y@[i as int], xs.take(j - i - 1), ys.take(j - i - 1)),
            decreases n - j,
        {
            proof { lemma_join_position(i as int, j as int, n as int); }
            let next = sub_mul(sum, u[i * n + j], x[j]);
            proof {
                if det {
                    assert(u@[i * n + j] == xs[j - i - 1]);
                    assert(x@[j as int] == ys[j - i - 1]);
                    lemma_apply3(sub_mul, sum, u@[i * n + j], x@[j as int], next);
                    lemma_fold_steps_take(sub_mul, y@[i as int], xs, ys, j - i - 1);
                }
            }
            sum = next;
            j = j + 1;
        }
        proof { lemma_join_position(i as int, i as int, n as int); }
        let v = divide(sum, u[i * n + i]);
        let ghost before = x@;
        x.set(i, v);
        proof {
            if det {
                lemma_apply2(divide, sum, u@[i * n + i], v);
                assert(xs.take(n - i - 1) =~= xs);
                assert(ys.take(n - i - 1) =~= ys);
                assert(x@.subrange(i as int, n as int) =~= seq![v] + before.subrange(i + 1, n as int));
                assert(x@.subrange(i as int, n as int) == backward_solution(sub_mul, divide, u@, y@, n as int, n - i));
            }
        }
    }
    assert(x@.subrange(0, n as int) =~= x@);
    x
}

impl<T: Copy> Matrix<T> {
    /// LU factorisation with partial pivoting of a square matrix. Column by
    /// column, the pivot is the first row from the diagonal down whose
    /// `magnitude` `exceeds` that of every row before it; the factorisation
    /// is refused as singular when that magnitude is `negligible`; the pivot
    /// row is exchanged with the diagonal row (in the lower factor, only in
    /// the columns already done), and every row below is reduced by
    /// `sub_mul(entry, factor, pivot entry)` with `factor = divide(entry in
    /// the column, diagonal entry)`, stored in the lower factor. The lower
    /// factor starts as the identity, the upper one as the matrix, the
    /// permutation as `0 .. n`.
    pub fn lu_decompose<M: Fn(T) -> T, G: Fn(T, T) -> bool, N: Fn(T) -> bool, D: Fn(T, T) -> T, S: Fn(T, T, T) -> T>(
        &self,
        zero: T,
        one: T,
        magnitude: &M,
        exceeds: &G,
        negligible: &N,
        divide: &D,
        sub_mul: &S,
    ) -> (r: Result<(Matrix<T>, Matrix<T>, Vec<usize>), MatrixError>)
        requires
            self@.rows == self@.cols,
            forall|x: T| call_requires(magnitude, (x,)),
            forall|x: T, y: T| call_requires(exceeds, (x, y)),
            forall|x: T| call_requires(negligible, (x,)),
            forall|x: T, y: T| call_requires(divide, (x, y)),
            forall|x: T, y: T, z: T| call_requires(sub_mul, (x, y, z)),
        ensures
            r matches Ok((l, u, p)) ==> {
                &&& l@.rows == self@.rows && l@.cols == self@.rows
                &&& u@.rows == self@.rows && u@.cols == self@.rows
                &&& p@.len() == self@.rows
            },
            r matches Err(e) ==> e == MatrixError::Singular,
            lu_ops_deterministic(magnitude, exceeds, negligible, divide, sub_mul) ==>
                lu_outcome(r) == lu_rounds(magnitude, exceeds, negligible, divide, sub_mul, zero, one, self@, self@.rows as int),
    {
        let n = self.rows();
        let a = self.entries();
        let nn = a.len();
        let ghost det = lu_ops_deterministic(magnitude, exceeds, negligible, divide, sub_mul);
        let ghost am = self@;
        assert(nn == n * n);

        let mut l: Vec<T> = Vec::new();
        while l.len() < nn
            invariant
                nn == n * n,
                l@.len() <= nn,
                l@ == identity_entries(n as nat, zero, one).take(l@.len() as int),
            decreases nn - l@.len(),
        {
            let q = l.len();
            proof { lemma_split_position(q as int, n as int); }
            let ghost before = l@;
            if q / n == q % n {
                l.push(one);
            } else {
                l.push(zero);
            }
            assert(l@ =~= identity_entries(n as nat, zero, one).take(l@.len() as int));
        }
        assert(l@ =~= identity_entries(n as nat, zero, one));

        let mut u: Vec<T> = Vec::new();
        while u.len() < nn
            invariant
                nn == a@.len(),
                u@.len() <= nn,
                u@ == a@.take(u@.len() as int),
            decreases nn - u@.len(),
        {
            let q = u.len();
            u.push(a[q]);
            assert(u@ =~= a@.take(u@.len() as int));
        }
        assert(u@ =~= a@);

        let mut p: Vec<usize> = Vec::new();
        while p.len() < n
            invariant
                p@.len() <= n,
                p@ == Seq::new(n as nat, |i: int| i as usize).take(p@.len() as int),
            decreases n - p@.len(),
        {
            let i = p.len();
            p.push(i);
            assert(p@ =~= Seq::new(n as nat, |i: int| i as usize).take(p@.len() as int));
        }
        assert(p@ =~= Seq::new(n as nat, |i: int| i as usize));

        let mut k: usize = 0;
        while k < n
            invariant
                k <= n,
                nn == n * n,
                n == am.rows,
                am == self@,
                am.entries == a@,
                l@.len() == nn,
                u@.len() == nn,
                p@.len() == n,
                det == lu_ops_deterministic(magnitude, exceeds, negligible, divide, sub_mul),
                forall|x: T| call_requires(magnitude, (x,)),
                forall|x: T, y: T| call_requires(exceeds, (x, y)),
                forall|x: T| call_requires(negligible, (x,)),
                forall|x: T, y: T| call_requires(divide, (x, y)),
                forall|x: T, y: T, z: T| call_requires(sub_mul, (x, y, z)),
                det ==> lu_rounds(magnitude, exceeds, negligible, divide, sub_mul, zero, one, am, k as int)
                    == Ok::<LuFactors<T>, MatrixError>(LuFactors { lower: l@, upper: u@, perm: p@ }),
            decreases n - k,
        {
            let ghost l0 = l@;
            let ghost u0 = u@;
            let ghost p0 = p@;
            proof { lemma_join_position(k as int, k as int, n as int); }
            let mut max_val = magnitude(u[k * n + k]);
            let mut max_row = k;
            proof {
                if det {
                    lemma_apply1(magnitude, u@[k * n + k], max_val);
                }
            }
            let mut i = k + 1;
            while i < n
                invariant
                    k < n,
                    k < i <= n,
                    k <= max_row < i,
                    nn == n * n,
                    u@.len() == nn,
                    u@ == u0,
                    l@ == l0,
                    p@ == p0,
                    det == lu_ops_deterministic(magnitude, exceeds, negligible, divide, sub_mul),
                    forall|x: T| call_requires(magnitude, (x,)),
                    forall|x: T, y: T| call_requires(exceeds, (x, y)),
                    det ==> pivot_from(magnitude, exceeds, u0, n as int, k as int, i - 1) == (max_val, max_row as int),
                decreases n - i,
            {
                proof { lemma_join_position(i as int, k as int, n as int); }
                let m = magnitude(u[i * n + k]);
                let b = exceeds(m, max_val);
                proof {
                    if det {
                        lemma_apply1(magnitude, u@[i * n + k], m);
                        lemma_apply2(exceeds, m, max_val, b);
                    }
                }
                if b {
                    max_val = m;
                    max_row = i;
                }
                i = i + 1;
            }
            let small = negligible(max_val);
            proof {
                if det {
                    lemma_apply1(negligible, max_val, small);
                }
            }
            if small {
                proof {
                    if det {
                        assert(pivot_from(magnitude, exceeds, u0, n as int, k as int, n - 1) == (max_val, max_row as int));
                        assert(lu_rounds(magnitude, exceeds, negligible, divide, sub_mul, zero, one, am, k + 1)
                            == Err::<LuFactors<T>, MatrixError>(MatrixError::Singular));
                        lemma_lu_rounds_refusal_stays(magnitude, exceeds, negligible, divide, sub_mul, zero, one, am, k + 1, n as int);
                    }
                }
                return Err(MatrixError::Singular);
            }
            let r = max_row;
            if r != k {
                let mut j: usize = 0;
                while j < n
                    invariant
                        k < n,
                        r < n,
                        r != k,
                        j <= n,
                        nn == n * n,
                        l@.len() == nn,
                        u@.len() == nn,
                        u0.len() == nn,
                        l0.len() == nn,
                        u@ == swap_rows(u0, n as int, k as int, r as int, j as int),
                        l@ == swap_rows(l0, n as int, k as int, r as int, if j < k { j as int } else { k as int }),
                    decreases n - j,
                {
                    proof {
                        lemma_join_position(k as int, j as int, n as int);
                        lemma_join_position(r as int, j as int, n as int);
                    }
                    let ghost ub = u@;
                    let ghost lb = l@;
                    let tu = u[k * n + j];
                    let su = u[r * n + j];
                    u.set(k * n + j, su);
                    u.set(r * n + j, tu);
                    if j < k {
                        let tl = l[k * n + j];
                        let sl = l[r * n + j];
                        l.set(k * n + j, sl);
                        l.set(r * n + j, tl);
                    }
                    proof {
                        assert forall|q: int| 0 <= q < nn implies
                            #[trigger] u@[q] == swap_rows(u0, n as int, k as int, r as int, j + 1)[q] by {
                            lemma_split_position(q, n as int);
                        }
                        assert forall|q: int| 0 <= q < nn implies
                            #[trigger] l@[q] == swap_rows(l0, n as int, k as int, r as int, if j + 1 < k { j + 1 } else { k as int })[q] by {
                            lemma_split_position(q, n as int);
                        }
                        assert(u@ =~= swap_rows(u0, n as int, k as int, r as int, j + 1));
                        assert(l@ =~= swap_rows(l0, n as int, k as int, r as int, if j + 1 < k { j + 1 } else { k as int }));
                    }
                    j = j + 1;
                }
                let tp = p[k];
                let sp = p[r];
                p.set(k, sp);
                p.set(r, tp);
            } else {
                proof {
                    assert forall|q: int| 0 <= q < nn implies
                        #[trigger] u0[q] == swap_rows(u0, n as int, k as int, r as int, n as int)[q] by {
                        lemma_split_position(q, n as int);
                    }
                    assert forall|q: int| 0 <= q < nn implies
                        #[trigger] l0[q] == swap_rows(l0, n as int, k as int, r as int, k as int)[q] by {
                        lemma_split_position(q, n as int);
                    }
                    assert(u@ =~= swap_rows(u0, n as int, k as int, r as int, n as int));
                    assert(l@ =~= swap_rows(l0, n as int, k as int, r as int, k as int));
                    assert(p@ =~= p0.update(k as int, p0[r as int]).update(r as int, p0[k as int]));
                }
            }
            assert(u@ =~= swap_rows(u0, n as int, k as int, r as int, n as int));
            assert(l@ =~= swap_rows(l0, n as int, k as int, r as int, k as int));
            assert(p@ =~= p0.update(k as int, p0[r as int]).update(r as int, p0[k as int]));
            let ghost l1 = l@;
            let ghost u1 = u@;
            let mut i = k + 1;
            while i < n
                invariant
                    k < n,
                    k < i <= n,
                    nn == n * n,
                    l@.len() == nn,
                    u@.len() == nn,
                    l1.len() == nn,
                    u1.len() == nn,
                    det == lu_ops_deterministic(magnitude, exceeds, negligible, divide, sub_mul),
                    forall|x: T, y: T| call_requires(divide, (x, y)),
                    forall|x: T, y: T, z: T| call_requires(sub_mul, (x, y, z)),
                    det ==> l@ == eliminated_lower_upto(divide, l1, u1, n as int, k as int, i as int),
                    det ==> u@ == eliminated_upper_upto(divide, sub_mul, u1, n as int, k as int, i as int, k as int),
                decreases n - i,
            {
                proof {
                    lemma_join_position(i as int, k as int, n as int);
                    lemma_join_position(k as int, k as int, n as int);
                }
                let ghost row_start = u@;
                let factor = divide(u[i * n + k], u[k * n + k]);
                proof {
                    if det {
                        assert(u@[i * n + k] == u1[i * n + k]);
                        assert(u@[k * n + k] == u1[k * n + k]);
                        lemma_apply2(divide, u1[i * n + k], u1[k * n + k], factor);
                    }
                }
                l.set(i * n + k, factor);
                proof {
                    if det {
                        assert forall|q: int| 0 <= q < nn implies
                            #[trigger] l@[q] == eliminated_lower_upto(divide, l1, u1, n as int, k as int, i + 1)[q] by {
                            lemma_split_position(q, n as int);
                        }
                        assert(l@ =~= eliminated_lower_upto(divide, l1, u1, n as int, k as int, i + 1));
                    }
                }
                let mut j = k;
                while j < n
                    invariant
                        k < i < n,
                        k <= j <= n,
                        nn == n * n,
                        u@.len() == nn,
                        u1.len() == nn,
                        det == lu_ops_deterministic(magnitude, exceeds, negligible, divide, sub_mul),
                        forall|x: T, y: T, z: T| call_requires(sub_mul, (x, y, z)),
                        det ==> factor == elimination_factor(divide, u1, n as int, k as int, i as int),
                        det ==> u@ == eliminated_upper_upto(divide, sub_mul, u1, n as int, k as int, i as int, j as int),
                    decreases n - j,
                {
                    proof {
                        lemma_join_position(i as int, j as int, n as int);
                        lemma_join_position(k as int, j as int, n as int);
                    }
                    let v = sub_mul(u[i * n + j], factor, u[k * n + j]);
                    proof {
                        if det {
                            assert(u@[i * n + j] == u1[i * n + j]);
                            assert(u@[k * n + j] == u1[k * n + j]);
                            lemma_apply3(sub_mul, u1[i * n + j], factor, u1[k * n + j], v);
                        }
                    }
                    u.set(i * n + j, v);
                    proof {
                        if det {
                            assert forall|q: int| 0 <= q < nn implies
                                #[trigger] u@[q] == eliminated_upper_upto(divide, sub_mul, u1, n as int, k as int, i as int, j + 1)[q] by {
                                lemma_split_position(q, n as int);
                            }
                            assert(u@ =~= eliminated_upper_upto(divide, sub_mul, u1, n as int, k as int, i as int, j + 1));
                        }
                    }
                    j = j + 1;
                }
                proof {
                    if det {
                        assert forall|q: int| 0 <= q < nn implies
                            #[trigger] u@[q] == eliminated_upper_upto(divide, sub_mul, u1, n as int, k as int, i + 1, k as int)[q] by {
                            lemma_split_position(q, n as int);
                        }
                        assert(u@ =~= eliminated_upper_upto(divide, sub_mul, u1, n as int, k as int, i + 1, k as int));
                    }
                }
                i = i + 1;
            }
            proof {
                if det {
                    assert forall|q: int| 0 <= q < nn implies
                        #[trigger] l@[q] == eliminated_lower(divide, l1, u1, n as int, k as int)[q] by {
                        lemma_split_position(q, n as int);
                    }
                    assert(l@ =~= eliminated_lower(divide, l1, u1, n as int, k as int));
                    assert forall|q: int| 0 <= q < nn implies
                        #[trigger] u@[q] == eliminated_upper(divide, sub_mul, u1, n as int, k as int)[q] by {
                        lemma_split_position(q, n as int);
                    }
                    assert(u@ =~= eliminated_upper(divide, sub_mul, u1, n as int, k as int));
                    assert(pivot_from(magnitude, exceeds, u0, n as int, k as int, n - 1) == (max_val, max_row as int));
                    assert(lu_rounds(magnitude, exceeds, negligible, divide, sub_mul, zero, one, am, k + 1)
                        == Ok::<LuFactors<T>, MatrixError>(LuFactors { lower: l@, upper: u@, perm: p@ }));
                }
            }
            k = k + 1;
        }
        let lm = Matrix::from_entries(n, n, l);
        let um = Matrix::from_entries(n, n, u);
        Ok((lm.unwrap(), um.unwrap(), p))
    }

    /// The inverse of a square matrix by LU factorisation with partial
    /// pivoting: each column `col` solves `L U x = P e_col` by forward
    /// substitution (the diagonal of `L` taken as one) and backward
    /// substitution with `divide` by the diagonal of `U`. Refused when the
    /// matrix is not square, or as singular when the factorisation is.
    pub fn inverse<M: Fn(T) -> T, G: Fn(T, T) -> bool, N: Fn(T) -> bool, D: Fn(T, T) -> T, S: Fn(T, T, T) -> T>(
        &self,
        zero: T,
        one: T,
        magnitude: &M,
        exceeds: &G,
        negligible: &N,
        divide: &D,
        sub_mul: &S,
    ) -> (r: Result<Matrix<T>, MatrixError>)
        requires
            forall|x: T| call_requires(magnitude, (x,)),
            forall|x: T, y: T| call_requires(exceeds, (x, y)),
            forall|x: T| call_requires(negligible, (x,)),
            forall|x: T, y: T| call_requires(divide, (x, y)),
            forall|x: T, y: T, z: T| call_requires(sub_mul, (x, y, z)),
        ensures
            r matches Err(e) ==> (e == MatrixError::NotSquare <==> self@.rows != self@.cols)
                && (e == MatrixError::NotSquare || e == MatrixError::Singular),
            r matches Ok(m) ==> m@.rows == self@.rows && m@.cols == self@.rows && self@.rows == self@.cols,
            lu_ops_deterministic(magnitude, exceeds, negligible, divide, sub_mul) ==>
                match r {
                    Ok(m) => inverse_spec(magnitude, exceeds, negligible, divide, sub_mul, zero, one, self@)
                        == Ok::<Seq<T>, MatrixError>(m@.entries),
                    Err(e) => inverse_spec(magnitude, exceeds, negligible, divide, sub_mul, zero, one, self@)
                        == Err::<Seq<T>, MatrixError>(e),
                },
    {
        let n = self.require_square()?;
        let ghost det = lu_ops_deterministic(magnitude, exceeds, negligible, divide, sub_mul);
        let (lm, um, p) = self.lu_decompose(zero, one, magnitude, exceeds, negligible, divide, sub_mul)?;
        let ghost st = LuFactors { lower: lm@.entries, upper: um@.entries, perm: p@ };
        let l = lm.entries();
        let u = um.entries();
        let nn = l.len();
        assert(nn == n * n);
        let mut result: Vec<T> = Vec::new();
        while result.len() < nn
            invariant
                result@.len() <= nn,
            decreases nn - result@.len(),
        {
            result.push(zero);
        }
        let mut col: usize = 0;
        while col < n
            invariant
                col <= n,
                nn == n * n,
                result@.len() == nn,
                l@.len() == nn,
                u@.len() == nn,
                p@.len() == n,
                st == (LuFactors { lower: l@, upper: u@, perm: p@ }),
                det == lu_ops_deterministic(magnitude, exceeds, negligible, divide, sub_mul),
                forall|x: T, y: T| call_requires(divide, (x, y)),
                forall|x: T, y: T, z: T| call_requires(sub_mul, (x, y, z)),
                det ==> forall|i2: int, c2: int| 0 <= i2 < n && 0 <= c2 < col ==>
                    #[trigger] result@[i2 * n + c2] == solved_column(sub_mul, divide, zero, one, st, n as int, c2)[i2],
            decreases n - col,
        {
            let x = solve_column(l, u, &p, n, col, zero, one, divide, sub_mul);
            let mut i: usize = 0;
            while i < n
                invariant
                    i <= n,
                    col < n,
                    nn == n * n,
                    result@.len() == nn,
                    x@.len() == n,
                    det == lu_ops_deterministic(magnitude, exceeds, negligible, divide, sub_mul),
                    det ==> x@ == solved_column(sub_mul, divide, zero, one, st, n as int, col as int),
                    det ==> forall|i2: int, c2: int| 0 <= i2 < n && 0 <= c2 < n && (c2 < col || (c2 == col && i2 < i)) ==>
                        #[trigger] result@[i2 * n + c2] == solved_column(sub_mul, divide, zero, one, st, n as int, c2)[i2],
                decreases n - i,
            {
                proof { lemma_join_position(i as int, col as int, n as int); }
                let ghost before = result@;
                result.set(i * n + col, x[i]);
                proof {
                    if det {
                        assert forall|i2: int, c2: int| 0 <= i2 < n && 0 <= c2 < n && (c2 < col || (c2 == col && i2 < i + 1)) implies
                            #[trigger] result@[i2 * n + c2] == solved_column(sub_mul, divide, zero, one, st, n as int, c2)[i2] by {
                            lemma_join_position(i2, c2, n as int);
                            if i2 * n + c2 != i * n + col {
                                assert(result@[i2 * n + c2] == before[i2 * n + c2]);
                            }
                        }
                    }
                }
                i = i + 1;
            }
            col = col + 1;
        }
        let m = Matrix::from_entries(n, n, result).unwrap();
        proof {
            if det {
                assert forall|q: int| 0 <= q < nn implies
                    #[trigger] m@.entries[q] == solved_column(sub_mul, divide, zero, one, st, n as int, q % (n as int))[q / (n as int)] by {
                    lemma_split_position(q, n as int);
                    let i2 = q / (n as int);
                    let c2 = q % (n as int);
                    assert(m@.entries[i2 * n + c2] == solved_column(sub_mul, divide, zero, one, st, n as int, c2)[i2]);
                }
                assert(m@.entries =~= Seq::new((n * n) as nat, |q: int| solved_column(sub_mul, divide, zero, one, st, n as int, q % (n as int))[q / (n as int)]));
            }
        }
        Ok(m)
    }

}

} // verus!
