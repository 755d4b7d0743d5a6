//! Element operations handed in as closures: the result a closure gives
//! when it gives one result per argument, and folds of such steps.

use vstd::prelude::*;

verus! {

/// The result that `f` gives for `a`, when it gives one result.
pub open spec fn apply1<A, R, F: Fn(A) -> R>(f: F, a: A) -> R {
    choose|r: R| call_ensures(f, (a,), r)
}

/// The result that `f` gives for `(a, b)`, when it gives one result.
pub open spec fn apply2<A, B, R, F: Fn(A, B) -> R>(f: F, a: A, b: B) -> R {
    choose|r: R| call_ensures(f, (a, b), r)
}

/// The result that `f` gives for `(a, b, c)`, when it gives one result.
pub open spec fn apply3<A, B, C, R, F: Fn(A, B, C) -> R>(f: F, a: A, b: B, c: C) -> R {
    choose|r: R| call_ensures(f, (a, b, c), r)
}

/// `f` gives at most one result for each argument.
pub open spec fn deterministic1<A, R, F: Fn(A) -> R>(f: F) -> bool {
    forall|a: A, r1: R, r2: R| #[trigger] call_ensures(f, (a,), r1) && #[trigger] call_ensures(f, (a,), r2) ==> r1 == r2
}

/// `f` gives at most one result for each pair of arguments.
pub open spec fn deterministic2<A, B, R, F: Fn(A, B) -> R>(f: F) -> bool {
    forall|a: A, b: B, r1: R, r2: R| #[trigger] call_ensures(f, (a, b), r1) && #[trigger] call_ensures(f, (a, b), r2) ==> r1 == r2
}

/// `f` gives at most one result for each triple of arguments.
pub open spec fn deterministic3<A, B, C, R, F: Fn(A, B, C) -> R>(f: F) -> bool {
    forall|a: A, b: B, c: C, r1: R, r2: R|
        #[trigger] call_ensures(f, (a, b, c), r1) && #[trigger] call_ensures(f, (a, b, c), r2) ==> r1 == r2
}

/// The result of a call of a deterministic `f` is `apply1(f, a)`.
pub proof fn lemma_apply1<A, R, F: Fn(A) -> R>(f: F, a: A, r: R)
    requires
        deterministic1(f),
        call_ensures(f, (a,), r),
    ensures
        apply1(f, a) == r,
{
}

/// The result of a call of a deterministic `f` is `apply2(f, a, b)`.
pub proof fn lemma_apply2<A, B, R, F: Fn(A, B) -> R>(f: F, a: A, b: B, r: R)
    requires
        deterministic2(f),
        call_ensures(f, (a, b), r),
    ensures
        apply2(f, a, b) == r,
{
}

/// The result of a call of a deterministic `f` is `apply3(f, a, b, c)`.
pub proof fn lemma_apply3<A, B, C, R, F: Fn(A, B, C) -> R>(f: F, a: A, b: B, c: C, r: R)
    requires
        deterministic3(f),
        call_ensures(f, (a, b, c), r),
    ensures
        apply3(f, a, b, c) == r,
{
}

/// `step` applied from `start` to each pair `xs[k]`, `ys[k]` in turn.
pub open spec fn fold_steps<T, S: Fn(T, T, T) -> T>(step: S, start: T, xs: Seq<T>, ys: Seq<T>) -> T
    decreases xs.len(),
{
    if xs.len() == 0 {
        start
    } else {
        apply3(step, fold_steps(step, start, xs.drop_last(), ys.drop_last()), xs.last(), ys.last())
    }
}

/// Folding one more pair takes one more step.
pub proof fn lemma_fold_steps_take<T, S: Fn(T, T, T) -> T>(step: S, start: T, xs: Seq<T>, ys: Seq<T>, j: int)
    requires
        0 <= j < xs.len(),
        j < ys.len(),
    ensures
        fold_steps(step, start, xs.take(j + 1), ys.take(j + 1))
            == apply3(step, fold_steps(step, start, xs.take(j), ys.take(j)), xs[j], ys[j]),
{
    assert(xs.take(j + 1).drop_last() =~= xs.take(j));
    assert(ys.take(j + 1).drop_last() =~= ys.take(j));
}

} // verus!
