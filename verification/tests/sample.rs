use mslx::sample::build_test_epub;
use mslx::sample::is_sample_input;
use std::io::Cursor;
use std::io::Read;

fn read(archive: &mut zip::ZipArchive<Cursor<Vec<u8>>>, name: &str) -> String {
    let mut s = String::new();
    archive.by_name(name).unwrap().read_to_string(&mut s).unwrap();
    s
}

#[test]
fn sample_is_asked_for_by_name() {
    assert!(is_sample_input("test-mslx-epub"));
    assert!(is_sample_input("  TEST-mslx-EPUB\n"));
    assert!(!is_sample_input("test-mslx-epub2"));
    assert!(!is_sample_input(""));
}

#[test]
fn sample_shows_every_element() {
    let bytes =
        build_test_epub("2026-01-02", Some(vec![1]), None, Some(vec![2])).unwrap();
    let mut archive = zip::ZipArchive::new(Cursor::new(bytes)).unwrap();
    assert!(read(&mut archive, "OEBPS/cover.xhtml").contains("Assembled 2026-01-02."));
    let page = read(&mut archive, "OEBPS/u01.xhtml");
    assert!(page.contains("<table>"));
    assert!(page.contains("<blockquote>"));
    assert!(page.contains("<del>strikethrough</del>"));
    assert!(page.contains("<code class=\"ic\">inline code</code>"));
    assert!(page.contains("class=\"footnote-definition\""));
    assert!(read(&mut archive, "OEBPS/u02.xhtml").contains("<code class=\"language-bash\">"));
    assert!(read(&mut archive, "OEBPS/u03.xhtml").contains("media/diagram.png"));
    let quiz = read(&mut archive, "OEBPS/u04.xhtml");
    assert!(quiz.contains("Answers: A, C - Virtual Machines and Functions both run your workloads."));
    let opf = read(&mut archive, "OEBPS/content.opf");
    assert!(opf.contains("mslx-test-book"));
    assert!(opf.contains("media/badge.png"));
    assert!(opf.contains("media/figure.png"));
    assert!(!opf.contains("media/diagram.png"));
    assert!(archive.by_name("OEBPS/media/diagram.png").is_err());
}
