use dkms::security::{GradeResolution, KeyGrade, SecurityLevel};

#[test]
fn default_level_is_qkd_prefer() {
    assert_eq!(SecurityLevel::default(), SecurityLevel::QkdPrefer);
}



#[test]
fn strict_qkd_needs_a_qkd_path() {
    assert_eq!(
        SecurityLevel::StrictQkd.resolve_grade(true, true),
        GradeResolution::Serve(KeyGrade::Qkd)
    );
    assert_eq!(
        SecurityLevel::StrictQkd.resolve_grade(true, false),
        GradeResolution::Serve(KeyGrade::Qkd)
    );
    assert_eq!(
        SecurityLevel::StrictQkd.resolve_grade(false, true),
        GradeResolution::Unsatisfiable
    );
    assert_eq!(
        SecurityLevel::StrictQkd.resolve_grade(false, false),
        GradeResolution::Unsatisfiable
    );
}

#[test]
fn qkd_prefer_is_connectivity_only() {
    assert_eq!(
        SecurityLevel::QkdPrefer.resolve_grade(true, true),
        GradeResolution::Serve(KeyGrade::Qkd)
    );
    assert_eq!(
        SecurityLevel::QkdPrefer.resolve_grade(false, true),
        GradeResolution::Serve(KeyGrade::Pqc)
    );
    assert_eq!(
        SecurityLevel::QkdPrefer.resolve_grade(false, false),
        GradeResolution::Unsatisfiable
    );
}

#[test]
fn no_worry_prefers_pqc_to_conserve_qkd() {
    assert_eq!(
        SecurityLevel::NoWorry.resolve_grade(true, true),
        GradeResolution::Serve(KeyGrade::Pqc)
    );
    assert_eq!(
        SecurityLevel::NoWorry.resolve_grade(true, false),
        GradeResolution::Serve(KeyGrade::Qkd)
    );
    assert_eq!(
        SecurityLevel::NoWorry.resolve_grade(false, false),
        GradeResolution::Unsatisfiable
    );
}
