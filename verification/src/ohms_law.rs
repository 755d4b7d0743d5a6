//! Ohm's law: which form a subject asks for.

use vstd::prelude::*;
use crate::text::same_text;

verus! {

/// Which form of Ohm's law, `V = I * R`, is asked for.
#[derive(Clone, Copy, Debug, PartialEq, Eq, Structural)]
pub enum OhmsForm {
    /// `V = I * R`: multiply the two values.
    Voltage,
    /// `I = V / R`: divide the first value by the second.
    Current,
    /// `R = V / I`: divide the first value by the second.
    Resistance,
}

/// Why a form of Ohm's law cannot be evaluated.
#[derive(Clone, Copy, Debug, PartialEq, Eq, Structural)]
pub enum OhmsError {
    /// The subject is none of `"v"`, `"i"`, `"r"`.
    UnknownForm,
    /// The current was asked for and the resistance is zero.
    ZeroResistance,
    /// The resistance was asked for and the current is zero.
    ZeroCurrent,
}

/// What Ohm's law does for a subject, given whether the second value is zero.
pub open spec fn ohms_plan_spec(subject: Seq<char>, second_is_zero: bool) -> Result<OhmsForm, OhmsError> {
    if subject == seq!['v'] {
        Ok(OhmsForm::Voltage)
    } else if subject == seq!['i'] {
        if second_is_zero { Err(OhmsError::ZeroResistance) } else { Ok(OhmsForm::Current) }
    } else if subject == seq!['r'] {
        if second_is_zero { Err(OhmsError::ZeroCurrent) } else { Ok(OhmsForm::Resistance) }
    } else {
        Err(OhmsError::UnknownForm)
    }
}

/// Chooses the computation for Ohm's law: `"v"` multiplies the current by
/// the resistance; `"i"` divides the voltage by the resistance and `"r"` the
/// voltage by the current, each refused when the divisor (the second value)
/// is zero; any other subject is refused.
pub fn ohms_law_plan(subject: &str, second_is_zero: bool) -> (plan: Result<OhmsForm, OhmsError>)
    ensures
        plan == ohms_plan_spec(subject@, second_is_zero),
{
    let v = "v";
    let i = "i";
    let r = "r";
    proof {
        reveal_strlit("v");
        reveal_strlit("i");
        reveal_strlit("r");
        assert(v@ =~= seq!['v']);
        assert(i@ =~= seq!['i']);
        assert(r@ =~= seq!['r']);
    }
    if same_text(subject, v) {
        Ok(OhmsForm::Voltage)
    } else if same_text(subject, i) {
        if second_is_zero { Err(OhmsError::ZeroResistance) } else { Ok(OhmsForm::Current) }
    } else if same_text(subject, r) {
        if second_is_zero { Err(OhmsError::ZeroCurrent) } else { Ok(OhmsForm::Resistance) }
    } else {
        Err(OhmsError::UnknownForm)
    }
}

/// The subject that names a form: `"v"`, `"i"` or `"r"`.
pub open spec fn ohms_subject(form: OhmsForm) -> Seq<char> {
    match form {
        OhmsForm::Voltage => seq!['v'],
        OhmsForm::Current => seq!['i'],
        OhmsForm::Resistance => seq!['r'],
    }
}

/// The forms that divide by the second value: the current (by the
/// resistance) and the resistance (by the current); the voltage multiplies.
pub open spec fn ohms_divides(form: OhmsForm) -> bool {
    form != OhmsForm::Voltage
}

/// Law: the plan computes exactly the quantity that the subject names, and
/// is refused only for an unknown subject or for a division by a zero
/// second value. So `"v"` always multiplies, whatever the second value is;
/// `"i"` and `"r"` divide unless the second value is zero. A zero second
/// value can only refuse: what is planned with it is planned the same
/// without it, and a form that multiplies is planned whatever it is.
pub proof fn law_ohms_plan_follows_subject(subject: Seq<char>, second_is_zero: bool)
    ensures
        forall|f: OhmsForm| #[trigger] ohms_plan_spec(subject, second_is_zero) == Ok::<OhmsForm, OhmsError>(f)
            ==> subject == ohms_subject(f) && !(ohms_divides(f) && second_is_zero),
        forall|f: OhmsForm| subject == #[trigger] ohms_subject(f) && !(ohms_divides(f) && second_is_zero)
            ==> ohms_plan_spec(subject, second_is_zero) == Ok::<OhmsForm, OhmsError>(f),
        ohms_plan_spec(subject, second_is_zero) == Err::<OhmsForm, OhmsError>(OhmsError::UnknownForm)
            <==> (forall|f: OhmsForm| subject != #[trigger] ohms_subject(f)),
        ohms_plan_spec(subject, second_is_zero) == Err::<OhmsForm, OhmsError>(OhmsError::ZeroResistance)
            <==> subject == ohms_subject(OhmsForm::Current) && second_is_zero,
        ohms_plan_spec(subject, second_is_zero) == Err::<OhmsForm, OhmsError>(OhmsError::ZeroCurrent)
            <==> subject == ohms_subject(OhmsForm::Resistance) && second_is_zero,
        ohms_plan_spec(subject, true) is Ok ==> ohms_plan_spec(subject, true) == ohms_plan_spec(subject, false),
        ohms_plan_spec(subject, second_is_zero) matches Ok(f) && !ohms_divides(f) ==>
            forall|other: bool| #[trigger] ohms_plan_spec(subject, other) == ohms_plan_spec(subject, second_is_zero),
{
    assert(seq!['v'] != seq!['i']) by { assert(seq!['v'][0] != seq!['i'][0]); }
    assert(seq!['v'] != seq!['r']) by { assert(seq!['v'][0] != seq!['r'][0]); }
    assert(seq!['i'] != seq!['r']) by { assert(seq!['i'][0] != seq!['r'][0]); }
    if forall|f: OhmsForm| subject != #[trigger] ohms_subject(f) {
        assert(subject != ohms_subject(OhmsForm::Voltage));
        assert(subject != ohms_subject(OhmsForm::Current));
        assert(subject != ohms_subject(OhmsForm::Resistance));
    }
}

} // verus!
