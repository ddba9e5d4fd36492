use cooklang::scale::{check_yield_unit, scale_target, ScaleError, ScaleTarget};

#[test]
fn servings_unit_scales_by_servings() {
    assert_eq!(scale_target(Some("servings")), ScaleTarget::Servings);
}

#[test]
fn other_unit_scales_by_yield() {
    assert_eq!(scale_target(Some("g")), ScaleTarget::Yield("g".to_string()));
    assert_eq!(
        scale_target(Some("serving")),
        ScaleTarget::Yield("serving".to_string())
    );
    assert_eq!(
        scale_target(Some("Servings")),
        ScaleTarget::Yield("Servings".to_string())
    );
    assert_eq!(scale_target(Some("")), ScaleTarget::Yield(String::new()));
}

#[test]
fn no_unit_is_a_direct_factor() {
    assert_eq!(scale_target(None), ScaleTarget::Factor);
}

#[test]
fn yield_units_have_to_match() {
    assert_eq!(check_yield_unit(Some("g"), "g"), Ok(()));
    assert_eq!(
        check_yield_unit(Some("g"), "kg"),
        Err(ScaleError::UnitMismatch {
            expected: "kg".to_string(),
            got: "g".to_string()
        })
    );
}

#[test]
fn missing_yield_unit_counts_as_empty() {
    assert_eq!(check_yield_unit(None, ""), Ok(()));
    assert_eq!(
        check_yield_unit(None, "g"),
        Err(ScaleError::UnitMismatch {
            expected: "g".to_string(),
            got: String::new()
        })
    );
}
