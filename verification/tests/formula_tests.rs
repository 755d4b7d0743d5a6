use math_lib::{
    f_ma_plan, ohms_law_plan, same_text, snells_law_plan, FmaError, FmaForm, OhmsError, OhmsForm,
    SnellError, SnellForm,
};

#[test]
fn f_ma_plans() {
    assert_eq!(f_ma_plan("f", false), Ok(FmaForm::Force));
    assert_eq!(f_ma_plan("f", true), Ok(FmaForm::Force));
    assert_eq!(f_ma_plan("m", false), Ok(FmaForm::Mass));
    assert_eq!(f_ma_plan("m", true), Err(FmaError::DivideByZero));
    assert_eq!(f_ma_plan("a", false), Ok(FmaForm::Acceleration));
    assert_eq!(f_ma_plan("a", true), Err(FmaError::DivideByZero));
    assert_eq!(f_ma_plan("F", false), Err(FmaError::UnknownForm));
    assert_eq!(f_ma_plan("", false), Err(FmaError::UnknownForm));
    assert_eq!(f_ma_plan("fm", true), Err(FmaError::UnknownForm));
}

#[test]
fn ohms_law_plans() {
    assert_eq!(ohms_law_plan("v", true), Ok(OhmsForm::Voltage));
    assert_eq!(ohms_law_plan("i", false), Ok(OhmsForm::Current));
    assert_eq!(ohms_law_plan("i", true), Err(OhmsError::ZeroResistance));
    assert_eq!(ohms_law_plan("r", false), Ok(OhmsForm::Resistance));
    assert_eq!(ohms_law_plan("r", true), Err(OhmsError::ZeroCurrent));
    assert_eq!(ohms_law_plan("V", false), Err(OhmsError::UnknownForm));
}

#[test]
fn snells_law_plans() {
    assert_eq!(snells_law_plan("n", false, true, false), Ok(SnellForm::RefractiveIndex));
    assert_eq!(snells_law_plan("n", true, false, true), Err(SnellError::SineVanishes));
    assert_eq!(snells_law_plan("theta", true, false, true), Ok(SnellForm::Angle));
    assert_eq!(snells_law_plan("theta", false, true, false), Err(SnellError::ZeroIndex));
    assert_eq!(snells_law_plan("theta", false, false, false), Err(SnellError::NoSolution));
    assert_eq!(snells_law_plan("angle", false, false, true), Err(SnellError::UnknownForm));
}

#[test]
fn same_text_compares_characters() {
    assert!(same_text("theta", "theta"));
    assert!(!same_text("theta", "thetA"));
    assert!(!same_text("the", "theta"));
    assert!(same_text("", ""));
    assert!(same_text("é", "é"));
}
