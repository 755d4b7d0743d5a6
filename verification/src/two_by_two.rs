//! Determinant and inverse of matrices with two rows or two columns.

use vstd::prelude::*;
use crate::ops::{apply1, apply2, deterministic1, deterministic2, lemma_apply1, lemma_apply2};
use crate::matrix::{Matrix, MatrixError, MatrixModel};

verus! {

/// The determinant of the first four entries, `e0 * e3 - e1 * e2`, each
/// product by `times` and the difference by `minus`.
pub open spec fn determinant_spec<T, P: Fn(T, T) -> T, Q: Fn(T, T) -> T>(times: P, minus: Q, m: MatrixModel<T>) -> T {
    apply2(minus, apply2(times, m.entries[0], m.entries[3]), apply2(times, m.entries[1], m.entries[2]))
}

/// What `inverse_2x2` builds from entries `e` and determinant `d`: the
/// diagonal entries exchanged, the other two negated, and every entry then
/// multiplied by `d`.
pub open spec fn adjugate_scaled<T, P: Fn(T, T) -> T, R: Fn(T) -> T>(times: P, negate: R, e: Seq<T>, d: T) -> Seq<T> {
    let adj = e.update(0, e[3]).update(3, e[0]).update(1, apply1(negate, e[1])).update(2, apply1(negate, e[2]));
    Seq::new(e.len(), |i: int| apply2(times, d, adj[i]))
}

impl<T: Copy> Matrix<T> {
    /// `e0 * e3 - e1 * e2` of a matrix with two rows or two columns;
    /// refused for a matrix with neither.
    pub fn determinant_2x2<P: Fn(T, T) -> T, Q: Fn(T, T) -> T>(&self, times: &P, minus: &Q) -> (r: Result<T, MatrixError>)
        requires
            self@.rows == 2 || self@.cols == 2 ==> self@.entries.len() >= 4,
            forall|x: T, y: T| call_requires(times, (x, y)),
            forall|x: T, y: T| call_requires(minus, (x, y)),
        ensures
            r is Err <==> self@.rows != 2 && self@.cols != 2,
            r matches Err(e) ==> e == MatrixError::NotTwoByTwo,
            deterministic2(times) && deterministic2(minus) ==>
                (r matches Ok(d) ==> d == determinant_spec(times, minus, self@)),
    {
        self.require_two_by_two()?;
        let e = self.entries();
        let p = times(e[0], e[3]);
        let q = times(e[1], e[2]);
        let d = minus(p, q);
        proof {
            if deterministic2(times) && deterministic2(minus) {
                lemma_apply2(times, e@[0], e@[3], p);
                lemma_apply2(times, e@[1], e@[2], q);
                lemma_apply2(minus, p, q, d);
            }
        }
        Ok(d)
    }

    /// The 2x2 inverse as computed here: refused for a matrix with neither
    /// two rows nor two columns, and when the determinant is not `nonzero`;
    /// otherwise the diagonal entries exchanged, the other two negated, and
    /// every entry multiplied by the determinant.
    pub fn inverse_2x2<P: Fn(T, T) -> T, Q: Fn(T, T) -> T, R: Fn(T) -> T, Z: Fn(T) -> bool>(
        &self,
        times: &P,
        minus: &Q,
        negate: &R,
        nonzero: &Z,
    ) -> (r: Result<Matrix<T>, MatrixError>)
        requires
            self@.rows == 2 || self@.cols == 2 ==> self@.entries.len() >= 4,
            forall|x: T, y: T| call_requires(times, (x, y)),
            forall|x: T, y: T| call_requires(minus, (x, y)),
            forall|x: T| call_requires(negate, (x,)),
            forall|x: T| call_requires(nonzero, (x,)),
        ensures
            r matches Err(e) ==> (e == MatrixError::NotTwoByTwo <==> self@.rows != 2 && self@.cols != 2)
                && (e == MatrixError::NotTwoByTwo || e == MatrixError::NotInvertible),
            self@.rows != 2 && self@.cols != 2 ==> r is Err,
            r matches Ok(m) ==> m@.rows == self@.rows && m@.cols == self@.cols,
            deterministic2(times) && deterministic2(minus) && deterministic1(negate) && deterministic1(nonzero) ==> {
                let d = determinant_spec(times, minus, self@);
                match r {
                    Ok(m) => (self@.rows == 2 || self@.cols == 2) && apply1(nonzero, d)
                        && m@.entries == adjugate_scaled(times, negate, self@.entries, d),
                    Err(e) => (self@.rows == 2 || self@.cols == 2) ==> e == MatrixError::NotInvertible && !apply1(nonzero, d),
                }
            },
    {
        let d = self.determinant_2x2(times, minus)?;
        let ok = nonzero(d);
        let ghost det = deterministic2(times) && deterministic2(minus) && deterministic1(negate) && deterministic1(nonzero);
        proof {
            if det {
                lemma_apply1(nonzero, d, ok);
            }
        }
        if !ok {
            return Err(MatrixError::NotInvertible);
        }
        let e = self.entries();
        let n = e.len();
        let mut data: Vec<T> = Vec::new();
        while data.len() < n
            invariant
                n == e@.len(),
                data@.len() <= n,
                data@ == e@.take(data@.len() as int),
            decreases n - data@.len(),
        {
            let k = data.len();
            data.push(e[k]);
            assert(data@ =~= e@.take(data@.len() as int));
        }
        assert(data@ =~= e@);
        let first = data[0];
        let last = data[3];
        data.set(0, last);
        data.set(3, first);
        let n1 = negate(data[1]);
        data.set(1, n1);
        let n2 = negate(data[2]);
        data.set(2, n2);
        let ghost adj = data@;
        proof {
            if det {
                lemma_apply1(negate, e@[1], n1);
                lemma_apply1(negate, e@[2], n2);
                assert(adj =~= e@.update(0, e@[3]).update(3, e@[0]).update(1, apply1(negate, e@[1])).update(2, apply1(negate, e@[2])));
            }
        }
        let mut i: usize = 0;
        while i < n
            invariant
                i <= n,
                n == e@.len(),
                data@.len() == n,
                adj.len() == n,
                det == (deterministic2(times) && deterministic2(minus) && deterministic1(negate) && deterministic1(nonzero)),
                forall|x: T, y: T| call_requires(times, (x, y)),
                forall|k: int| i <= k < n ==> #[trigger] data@[k] == adj[k],
                det ==> forall|k: int| 0 <= k < i ==> #[trigger] data@[k] == apply2(times, d, adj[k]),
            decreases n - i,
        {
            let v = times(d, data[i]);
            proof {
                if det {
                    lemma_apply2(times, d, adj[i as int], v);
                }
            }
            data.set(i, v);
            i = i + 1;
        }
        let m = Matrix::from_entries(self.rows(), self.cols(), data);
        proof {
            if det {
                assert(data@ =~= adjugate_scaled(times, negate, self@.entries, d));
            }
        }
        Ok(m.unwrap())
    }
}

/// Law: with exact multiplication and subtraction, the determinant is
/// `e0 * e3 - e1 * e2` of the first four entries, which for a 2x2 matrix
/// `[[a, b], [c, d]]` is `a * d - b * c` (so `[[2, 1], [1, 3]]` has 5).
pub proof fn law_determinant_is_cross_difference<P: Fn(int, int) -> int, Q: Fn(int, int) -> int>(
    times: P,
    minus: Q,
    m: MatrixModel<int>,
)
    requires
        forall|x: int, y: int, r: int| #[trigger] call_ensures(times, (x, y), r) <==> r == x * y,
        forall|x: int, y: int, r: int| #[trigger] call_ensures(minus, (x, y), r) <==> r == x - y,
        m.entries.len() >= 4,
    ensures
        determinant_spec(times, minus, m) == m.entries[0] * m.entries[3] - m.entries[1] * m.entries[2],
        m.rows == 2 && m.cols == 2 ==>
            determinant_spec(times, minus, m) == m.entry(0, 0) * m.entry(1, 1) - m.entry(0, 1) * m.entry(1, 0),
{
    let e = m.entries;
    assert(call_ensures(times, (e[0], e[3]), e[0] * e[3]));
    assert(call_ensures(times, (e[1], e[2]), e[1] * e[2]));
    let p = apply2(times, e[0], e[3]);
    let q = apply2(times, e[1], e[2]);
    assert(p == e[0] * e[3]);
    assert(q == e[1] * e[2]);
    assert(call_ensures(minus, (p, q), p - q));
}

/// Law: with exact arithmetic, the 2x2 matrix times what `inverse_2x2`
/// builds is the square of the determinant times the identity: the result is
/// the adjugate scaled by the determinant.
pub proof fn law_inverse_2x2_times_matrix<P: Fn(int, int) -> int, Q: Fn(int, int) -> int, R: Fn(int) -> int>(
    times: P,
    minus: Q,
    negate: R,
    m: MatrixModel<int>,
)
    requires
        forall|x: int, y: int, r: int| #[trigger] call_ensures(times, (x, y), r) <==> r == x * y,
        forall|x: int, y: int, r: int| #[trigger] call_ensures(minus, (x, y), r) <==> r == x - y,
        forall|x: int, r: int| #[trigger] call_ensures(negate, (x,), r) <==> r == -x,
        m.rows == 2,
        m.cols == 2,
        m.well_formed(),
    ensures
        ({
            let d = determinant_spec(times, minus, m);
            let r = adjugate_scaled(times, negate, m.entries, d);
            let e = m.entries;
            &&& r.len() == 4
            &&& e[0] * r[0] + e[1] * r[2] == d * d
            &&& e[0] * r[1] + e[1] * r[3] == 0
            &&& e[2] * r[0] + e[3] * r[2] == 0
            &&& e[2] * r[1] + e[3] * r[3] == d * d
        }),
{
    let e = m.entries;
    assert(e.len() == 4) by (nonlinear_arith)
        requires e.len() == m.rows * m.cols, m.rows == 2, m.cols == 2;
    law_determinant_is_cross_difference(times, minus, m);
    let d = determinant_spec(times, minus, m);
    assert(call_ensures(negate, (e[1],), -e[1]));
    assert(call_ensures(negate, (e[2],), -e[2]));
    let adj = e.update(0, e[3]).update(3, e[0]).update(1, apply1(negate, e[1])).update(2, apply1(negate, e[2]));
    assert(adj[0] == e[3] && adj[1] == -e[1] && adj[2] == -e[2] && adj[3] == e[0]);
    let r = adjugate_scaled(times, negate, e, d);
    assert forall|i: int| 0 <= i < 4 implies #[trigger] r[i] == d * adj[i] by {
        assert(call_ensures(times, (d, adj[i]), d * adj[i]));
    }
    let (e0, e1, e2, e3) = (e[0], e[1], e[2], e[3]);
    assert(r[0] == d * e3 && r[1] == d * -e1 && r[2] == d * -e2 && r[3] == d * e0);
    assert(e0 * (d * e3) + e1 * (d * -e2) == d * (e0 * e3 - e1 * e2)) by (nonlinear_arith);
    assert(e0 * (d * -e1) + e1 * (d * e0) == 0) by (nonlinear_arith);
    assert(e2 * (d * e3) + e3 * (d * -e2) == 0) by (nonlinear_arith);
    assert(e2 * (d * -e1) + e3 * (d * e0) == d * (e0 * e3 - e1 * e2)) by (nonlinear_arith);
}

} // verus!
