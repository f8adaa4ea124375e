use mslx::resolve::curated_exam_code;

#[test]
fn maps_known_certs_to_exam_codes() {
    assert_eq!(curated_exam_code("certification.azure-fundamentals"), Some("az-900"));
    assert_eq!(
        curated_exam_code("certification.d365-business-central-functional-consultant-associate"),
        Some("mb-800"),
    );
}

#[test]
fn unknown_falls_through() {
    // Certs that resolve normally (catalog study guide) must not be overridden.
    assert!(curated_exam_code("certification.azure-ai-fundamentals").is_none());
    assert!(curated_exam_code("certification.azure-solutions-architect").is_none());
}

#[test]
fn case_and_white_space_do_not_count() {
    assert_eq!(curated_exam_code(" Certification.Azure-Fundamentals\n"), Some("az-900"));
}
