use nucleon::families::qwen3::FamilyError;

#[test]
fn display_names_the_stage() {
    let b = FamilyError::Build {
        reason: "x".to_string(),
    };
    let f = FamilyError::Forward {
        reason: "y".to_string(),
    };
    assert!(b.to_string().starts_with("family build failed"));
    assert!(f.to_string().starts_with("forward pass failed"));
}

#[test]
fn forward_constructor_wraps_any_display() {
    assert!(matches!(
        FamilyError::forward("boom"),
        FamilyError::Forward { .. }
    ));
}

#[test]
fn family_messages_are_exact() {
    assert_eq!(FamilyError::forward("boom").to_string(), "forward pass failed: boom");
    assert_eq!(
        FamilyError::Build { reason: "x".into() }.to_string(),
        "family build failed: x"
    );
}
