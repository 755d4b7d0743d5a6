//! Newton's second law: which form a subject asks for.

use vstd::prelude::*;
use crate::text::same_text;

verus! {

/// Which of the three forms of Newton's second law, `F = m * a`, is asked for.
#[derive(Clone, Copy, Debug, PartialEq, Eq, Structural)]
pub enum FmaForm {
    /// `F = m * a`: multiply the two values.
    Force,
    /// `m = F / a`: divide the first value by the second.
    Mass,
    /// `a = F / m`: divide the first value by the second.
    Acceleration,
}

/// Why a form of `F = m * a` cannot be evaluated.
#[derive(Clone, Copy, Debug, PartialEq, Eq, Structural)]
pub enum FmaError {
    /// The subject is none of `"f"`, `"m"`, `"a"`.
    UnknownForm,
    /// The form divides by the second value, and it is zero.
    DivideByZero,
}

/// The form that a subject names, if any.
pub open spec fn fma_form_of(subject: Seq<char>) -> Option<FmaForm> {
    if subject == seq!['f'] {
        Some(FmaForm::Force)
    } else if subject == seq!['m'] {
        Some(FmaForm::Mass)
    } else if subject == seq!['a'] {
        Some(FmaForm::Acceleration)
    } else {
        None
    }
}

/// What `F = m * a` does for a subject, given whether the second value is zero.
pub open spec fn fma_plan_spec(subject: Seq<char>, second_is_zero: bool) -> Result<FmaForm, FmaError> {
    match fma_form_of(subject) {
        None => Err(FmaError::UnknownForm),
        Some(FmaForm::Force) => Ok(FmaForm::Force),
        Some(form) => if second_is_zero { Err(FmaError::DivideByZero) } else { Ok(form) },
    }
}

/// Chooses the computation for `F = m * a`: the subject `"f"` multiplies the
/// two values; `"m"` and `"a"` divide the first by the second, and are refused
/// when the second is zero; any other subject is refused.
pub fn f_ma_plan(subject: &str, second_is_zero: bool) -> (plan: Result<FmaForm, FmaError>)
    ensures
        plan == fma_plan_spec(subject@, second_is_zero),
{
    let f = "f";
    let m = "m";
    let a = "a";
    proof {
        reveal_strlit("f");
        reveal_strlit("m");
        reveal_strlit("a");
        assert(f@ =~= seq!['f']);
        assert(m@ =~= seq!['m']);
        assert(a@ =~= seq!['a']);
    }
    if same_text(subject, f) {
        Ok(FmaForm::Force)
    } else if same_text(subject, m) {
        if second_is_zero { Err(FmaError::DivideByZero) } else { Ok(FmaForm::Mass) }
    } else if same_text(subject, a) {
        if second_is_zero { Err(FmaError::DivideByZero) } else { Ok(FmaForm::Acceleration) }
    } else {
        Err(FmaError::UnknownForm)
    }
}

/// The subject that names a form: `"f"`, `"m"` or `"a"`.
pub open spec fn fma_subject(form: FmaForm) -> Seq<char> {
    match form {
        FmaForm::Force => seq!['f'],
        FmaForm::Mass => seq!['m'],
        FmaForm::Acceleration => seq!['a'],
    }
}

/// The forms that divide by the second value: the mass and the
/// acceleration; the force multiplies.
pub open spec fn fma_divides(form: FmaForm) -> bool {
    form != FmaForm::Force
}

/// Law: the plan computes exactly the quantity that the subject names, and
/// is refused only for an unknown subject or for a division by a zero
/// second value. So `"f"` always multiplies, whatever the second value is.
/// A zero second value can only refuse: what is planned with it is planned
/// the same without it, and a form that multiplies is planned whatever it is.
pub proof fn law_fma_plan_follows_subject(subject: Seq<char>, second_is_zero: bool)
    ensures
        forall|f: FmaForm| #[trigger] fma_plan_spec(subject, second_is_zero) == Ok::<FmaForm, FmaError>(f)
            ==> subject == fma_subject(f) && !(fma_divides(f) && second_is_zero),
        forall|f: FmaForm| subject == #[trigger] fma_subject(f) && !(fma_divides(f) && second_is_zero)
            ==> fma_plan_spec(subject, second_is_zero) == Ok::<FmaForm, FmaError>(f),
        fma_plan_spec(subject, second_is_zero) == Err::<FmaForm, FmaError>(FmaError::UnknownForm)
            <==> (forall|f: FmaForm| subject != #[trigger] fma_subject(f)),
        fma_plan_spec(subject, second_is_zero) == Err::<FmaForm, FmaError>(FmaError::DivideByZero)
            <==> (exists|f: FmaForm| subject == #[trigger] fma_subject(f) && fma_divides(f)) && second_is_zero,
        fma_plan_spec(subject, true) is Ok ==> fma_plan_spec(subject, true) == fma_plan_spec(subject, false),
        fma_plan_spec(subject, second_is_zero) matches Ok(f) && !fma_divides(f) ==>
            forall|other: bool| #[trigger] fma_plan_spec(subject, other) == fma_plan_spec(subject, second_is_zero),
{
    assert(seq!['f'] != seq!['m']) by { assert(seq!['f'][0] != seq!['m'][0]); }
    assert(seq!['f'] != seq!['a']) by { assert(seq!['f'][0] != seq!['a'][0]); }
    assert(seq!['m'] != seq!['a']) by { assert(seq!['m'][0] != seq!['a'][0]); }
    if forall|f: FmaForm| subject != #[trigger] fma_subject(f) {
        assert(subject != fma_subject(FmaForm::Force));
        assert(subject != fma_subject(FmaForm::Mass));
        assert(subject != fma_subject(FmaForm::Acceleration));
    }
    if subject == fma_subject(FmaForm::Mass) {
        assert(fma_divides(FmaForm::Mass));
    }
    if subject == fma_subject(FmaForm::Acceleration) {
        assert(fma_divides(FmaForm::Acceleration));
    }
}

} // verus!
