//! Snell's law: which form a subject asks for, and when it is refused.

use vstd::prelude::*;
use crate::text::same_text;

verus! {

/// Which unknown of Snell's law, `n1 * sin(t1) = n2 * sin(t2)`, is asked for.
#[derive(Clone, Copy, Debug, PartialEq, Eq, Structural)]
pub enum SnellForm {
    /// `n2 = n1 * sin(t1) / sin(t2)`.
    RefractiveIndex,
    /// `t2 = asin(n1 * sin(t1) / n2)`.
    Angle,
}

/// Why a form of Snell's law cannot be evaluated.
#[derive(Clone, Copy, Debug, PartialEq, Eq, Structural)]
pub enum SnellError {
    /// The subject is neither `"n"` nor `"theta"`.
    UnknownForm,
    /// The index was asked for and the sine of the second angle vanishes.
    SineVanishes,
    /// The angle was asked for and the second refractive index is zero.
    ZeroIndex,
    /// The angle was asked for and the sine it needs lies outside `[-1, 1]`.
    NoSolution,
}

/// What Snell's law does for a subject, given the three facts that can refuse it.
pub open spec fn snell_plan_spec(
    subject: Seq<char>,
    sine_vanishes: bool,
    index_is_zero: bool,
    ratio_in_range: bool,
) -> Result<SnellForm, SnellError> {
    if subject == seq!['n'] {
        if sine_vanishes { Err(SnellError::SineVanishes) } else { Ok(SnellForm::RefractiveIndex) }
    } else if subject == seq!['t', 'h', 'e', 't', 'a'] {
        if index_is_zero {
            Err(SnellError::ZeroIndex)
        } else if !ratio_in_range {
            Err(SnellError::NoSolution)
        } else {
            Ok(SnellForm::Angle)
        }
    } else {
        Err(SnellError::UnknownForm)
    }
}

/// Chooses the computation for Snell's law. `"n"` is refused when the sine of
/// the unknown angle vanishes; `"theta"` is refused first when the unknown
/// index is zero, then when the sine it needs lies outside `[-1, 1]`; any
/// other subject is refused.
pub fn snells_law_plan(
    subject: &str,
    sine_vanishes: bool,
    index_is_zero: bool,
    ratio_in_range: bool,
) -> (plan: Result<SnellForm, SnellError>)
    ensures
        plan == snell_plan_spec(subject@, sine_vanishes, index_is_zero, ratio_in_range),
{
    let n = "n";
    let theta = "theta";
    proof {
        reveal_strlit("n");
        reveal_strlit("theta");
        assert(n@ =~= seq!['n']);
        assert(theta@ =~= seq!['t', 'h', 'e', 't', 'a']);
    }
    if same_text(subject, n) {
        if sine_vanishes { Err(SnellError::SineVanishes) } else { Ok(SnellForm::RefractiveIndex) }
    } else if same_text(subject, theta) {
        if index_is_zero {
            Err(SnellError::ZeroIndex)
        } else if !ratio_in_range {
            Err(SnellError::NoSolution)
        } else {
            Ok(SnellForm::Angle)
        }
    } else {
        Err(SnellError::UnknownForm)
    }
}

/// The subject that names a form: `"n"` or `"theta"`.
pub open spec fn snell_subject(form: SnellForm) -> Seq<char> {
    match form {
        SnellForm::RefractiveIndex => seq!['n'],
        SnellForm::Angle => seq!['t', 'h', 'e', 't', 'a'],
    }
}

/// What keeps a form from being evaluated: the index divides by the sine of
/// the second angle; the angle divides by the second index and needs a sine
/// within `[-1, 1]`.
pub open spec fn snell_blocked(form: SnellForm, sine_vanishes: bool, index_is_zero: bool, ratio_in_range: bool) -> bool {
    match form {
        SnellForm::RefractiveIndex => sine_vanishes,
        SnellForm::Angle => index_is_zero || !ratio_in_range,
    }
}

/// Law: the plan computes exactly the unknown that the subject names, and is
/// refused only for an unknown subject or for what blocks that form: the
/// index only when the sine vanishes, the angle only when the index is zero
/// or the sine it needs is out of range. So what `"theta"` gives does not
/// depend on the sine, and what `"n"` gives depends on nothing else.
pub proof fn law_snell_plan_follows_subject(subject: Seq<char>, sine_vanishes: bool, index_is_zero: bool, ratio_in_range: bool)
    ensures
        forall|f: SnellForm| #[trigger] snell_plan_spec(subject, sine_vanishes, index_is_zero, ratio_in_range)
            == Ok::<SnellForm, SnellError>(f) ==> subject == snell_subject(f)
                && !snell_blocked(f, sine_vanishes, index_is_zero, ratio_in_range),
        forall|f: SnellForm| subject == #[trigger] snell_subject(f)
            && !snell_blocked(f, sine_vanishes, index_is_zero, ratio_in_range)
            ==> snell_plan_spec(subject, sine_vanishes, index_is_zero, ratio_in_range) == Ok::<SnellForm, SnellError>(f),
        snell_plan_spec(subject, sine_vanishes, index_is_zero, ratio_in_range) == Err::<SnellForm, SnellError>(SnellError::UnknownForm)
            <==> (forall|f: SnellForm| subject != #[trigger] snell_subject(f)),
        snell_plan_spec(subject, sine_vanishes, index_is_zero, ratio_in_range) == Err::<SnellForm, SnellError>(SnellError::SineVanishes)
            <==> subject == snell_subject(SnellForm::RefractiveIndex) && sine_vanishes,
        snell_plan_spec(subject, sine_vanishes, index_is_zero, ratio_in_range) == Err::<SnellForm, SnellError>(SnellError::ZeroIndex)
            <==> subject == snell_subject(SnellForm::Angle) && index_is_zero,
        snell_plan_spec(subject, sine_vanishes, index_is_zero, ratio_in_range) == Err::<SnellForm, SnellError>(SnellError::NoSolution)
            <==> subject == snell_subject(SnellForm::Angle) && !index_is_zero && !ratio_in_range,
        subject == snell_subject(SnellForm::Angle) ==> forall|other_sine: bool|
            #[trigger] snell_plan_spec(subject, other_sine, index_is_zero, ratio_in_range)
                == snell_plan_spec(subject, sine_vanishes, index_is_zero, ratio_in_range),
        subject == snell_subject(SnellForm::RefractiveIndex) ==> forall|other_index: bool, other_ratio: bool|
            #[trigger] snell_plan_spec(subject, sine_vanishes, other_index, other_ratio)
                == snell_plan_spec(subject, sine_vanishes, index_is_zero, ratio_in_range),
{
    assert(seq!['n'] != seq!['t', 'h', 'e', 't', 'a']) by {
        assert(seq!['n'].len() != seq!['t', 'h', 'e', 't', 'a'].len());
    }
    if forall|f: SnellForm| subject != #[trigger] snell_subject(f) {
        assert(subject != snell_subject(SnellForm::RefractiveIndex));
        assert(subject != snell_subject(SnellForm::Angle));
    }
}

} // verus!
