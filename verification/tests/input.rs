use mslx::exam_code_label;
use mslx::extract_exam_uid;
use mslx::input::canonical_exam_code;
use mslx::parse_input;
use mslx::LearnInput;

#[test]
fn parses_cert_url() {
    assert_eq!(
        parse_input(
            "https://learn.microsoft.com/en-us/credentials/certifications/azure-solutions-architect/"
        )
        .unwrap(),
        LearnInput::Cert("certification.azure-solutions-architect".into())
    );
}

#[test]
fn passes_through_uids() {
    assert_eq!(
        parse_input("certification.azure-solutions-architect").unwrap(),
        LearnInput::Cert("certification.azure-solutions-architect".into())
    );
    assert_eq!(
        parse_input("exam.az-305").unwrap(),
        LearnInput::Exam("exam.az-305".into())
    );
}

#[test]
fn bare_slug_vs_exam_code() {
    assert_eq!(
        parse_input("azure-solutions-architect").unwrap(),
        LearnInput::Cert("certification.azure-solutions-architect".into())
    );
    assert_eq!(
        parse_input("az-104").unwrap(),
        LearnInput::Exam("exam.az-104".into())
    );
}

#[test]
fn exam_url_classified_as_exam() {
    assert_eq!(
        parse_input("https://learn.microsoft.com/en-us/credentials/certifications/exams/az-305/")
            .unwrap(),
        LearnInput::Exam("exam.az-305".into())
    );
}

#[test]
fn exam_code_label_uppercases() {
    assert_eq!(exam_code_label("exam.az-104"), "AZ-104");
}

#[test]
fn extracts_exam_uid_from_page() {
    let html = r#"<div>Required exams: <a href="/exams/az-700/">exam.AZ-700</a></div>"#;
    assert_eq!(extract_exam_uid(html), Some("exam.az-700".into()));
    // ignores non-exam "exam." text, finds the real code
    let html2 = "blah exam.foo then exam.sc-300 here";
    assert_eq!(extract_exam_uid(html2), Some("exam.sc-300".into()));
}

#[test]
fn path_url_gives_its_slug() {
    assert_eq!(
        parse_input(
            "https://learn.microsoft.com/training/paths/get-started-with-microsoft-azure-fundamentals/"
        )
        .unwrap(),
        LearnInput::Path("get-started-with-microsoft-azure-fundamentals".into())
    );
    assert_eq!(
        parse_input("https://learn.microsoft.com/training/paths/a-b/?WT.mc_id=x").unwrap(),
        LearnInput::Path("a-b".into())
    );
}

#[test]
fn module_url_gives_its_slug() {
    assert_eq!(
        parse_input("https://learn.microsoft.com/en-us/training/modules/design-governance/")
            .unwrap(),
        LearnInput::Module("design-governance".into())
    );
    assert_eq!(
        parse_input("https://learn.microsoft.com/training/modules/m/2-explore?x=1").unwrap(),
        LearnInput::Module("m".into())
    );
}

#[test]
fn course_url_gives_its_uid() {
    assert_eq!(
        parse_input("https://learn.microsoft.com/en-us/training/courses/az-900t00").unwrap(),
        LearnInput::Course("course.az-900t00".into())
    );
}

#[test]
fn exam_codes_in_any_common_form() {
    for form in ["az-305", "az305", "AZ-305", "Az 305", "  aZ--305/ "] {
        assert_eq!(
            parse_input(form).unwrap(),
            LearnInput::Exam("exam.az-305".into()),
            "{form}"
        );
    }
    assert_eq!(canonical_exam_code("AZ-500"), Some("az-500".into()));
    assert_eq!(canonical_exam_code("az-500"), Some("az-500".into()));
}

#[test]
fn what_is_no_exam_code() {
    for s in ["az-1", "az-12345", "a-104", "azz-104", "az-10a", "104", "", "az"] {
        assert_eq!(canonical_exam_code(s), None, "{s}");
    }
    assert_eq!(canonical_exam_code("az-12"), Some("az-12".into()));
    assert_eq!(canonical_exam_code("az-1234"), Some("az-1234".into()));
    // Only spaces and hyphens are passed over.
    for s in ["az_500", "az.500", "äaz-104", "az\t500", "(az-500)"] {
        assert_eq!(canonical_exam_code(s), None, "{s}");
    }
    assert_eq!(canonical_exam_code("a z - 5 0-0"), Some("az-500".into()));
    // The case of a letter is that of Unicode.
    assert_eq!(canonical_exam_code("\u{212a}z-104"), Some("kz-104".into()));
}

#[test]
fn refuses_empty_input() {
    assert_eq!(
        parse_input("  / ").unwrap_err().text(),
        "could not derive a certification uid from input: empty"
    );
}

#[test]
fn refuses_unknown_urls() {
    assert_eq!(
        parse_input("https://learn.microsoft.com/training/browse/").unwrap_err().text(),
        "could not derive a certification uid from input: https://learn.microsoft.com/training/browse is not a recognised certification or exam URL"
    );
    assert!(parse_input("https://learn.microsoft.com/training/modules/").is_err());
    assert!(parse_input("https://learn.microsoft.com/training/courses/").is_err());
    assert!(parse_input("https://learn.microsoft.com/certifications/exams/").is_err());
    assert!(parse_input("https://learn.microsoft.com/certifications").is_err());
}

#[test]
fn page_without_an_exam() {
    assert_eq!(extract_exam_uid("nothing here, exam. and exam.az and EXAM."), None);
    assert_eq!(extract_exam_uid("EXAM.PL-900!"), Some("exam.pl-900".into()));
}

#[test]
fn what_stands_around_an_input_is_ignored() {
    let exam = LearnInput::Exam("exam.az-104".into());
    let url = "https://learn.microsoft.com/credentials/certifications/exams/az-104";
    for input in [
        " \u{a0}\taz-104\n".to_string(),
        "az-104//".to_string(),
        format!("  {url}// \u{3000}"),
        format!("{url}?practice-assessment-type=certification"),
        format!("{url}/?tab=a/b/?c://d/"),
        format!("{url}?/ /paths/x"),
    ] {
        assert_eq!(parse_input(&input).unwrap(), exam, "{input}");
    }
    // White space before the slashes is part of the input.
    assert_eq!(parse_input("x").unwrap(), LearnInput::Cert("certification.x".into()));
    assert_eq!(parse_input("x /").unwrap(), LearnInput::Cert("certification.x ".into()));
    // A query does not make a page of what is none.
    assert!(parse_input("https://learn.microsoft.com/training/?paths/x").is_err());
}
