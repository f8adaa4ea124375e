use mslx::scrape::absolutize_media;
use mslx::scrape::is_minutes_line;
use mslx::scrape::rewrap_alerts;
use mslx::scrape::strip_frontmatter;
use mslx::scrape::strip_unit_preamble;
use mslx::scrape::unit_markdown_to_xhtml;

#[test]
fn strips_frontmatter_and_preamble() {
    let md = "---\nuid: x\ntitle: T\n---\n# Title\n\nCompleted\n\n- 10 minutes\n\nReal content here.\n";
    let body = strip_unit_preamble(&strip_frontmatter(md));
    // Title h1 dropped (the chapter renders the title itself), metadata dropped, content kept.
    assert!(body.starts_with("Real content here."));
    assert!(!body.contains("# Title"));
    assert!(!body.contains("Completed"));
    assert!(!body.contains("10 minutes"));
    assert!(!body.contains("uid: x"));
}

#[test]
fn absolutizes_unit_relative_images() {
    let url = "https://learn.microsoft.com/en-us/training/modules/configure-microsoft-365-experience/2-explore";
    let md = "![alt](../../wwl/configure-microsoft-365-experience/media/x.png)";
    assert_eq!(
        absolutize_media(md, url),
        "![alt](https://learn.microsoft.com/en-us/training/wwl/configure-microsoft-365-experience/media/x.png)"
    );
}

#[test]
fn converts_unit_markdown_to_xhtml() {
    let url = "https://learn.microsoft.com/en-us/training/modules/m/2-explore";
    let md = "---\nuid: x\n---\n# Unit Title\n\nCompleted\n\n- 5 minutes\n\nA paragraph with `code`.\n\n## Section\n\n```json\n{}\n```\n";
    let x = unit_markdown_to_xhtml(md, url).unwrap();
    // Leading title h1 is dropped (chapter renders it); a content h2 survives; inline code
    // gets the `ic` class and fenced code keeps `language-*` - identical to the GitHub path.
    assert!(!x.contains("<h1>Unit Title</h1>"));
    assert!(x.contains("<h2>Section</h2>"));
    assert!(x.contains("<p>A paragraph with <code class=\"ic\">code</code>.</p>"));
    assert!(x.contains("<pre><code class=\"language-json\">"));
    assert!(!x.contains("Completed"));
}

#[test]
fn rewraps_flattened_alerts_into_callouts() {
    // Learn flattens "> [!IMPORTANT]" to a bare keyword + paragraph; we restore the callout.
    let url = "https://learn.microsoft.com/en-us/training/modules/m/1-x";
    let md = "---\nuid: x\n---\nIntro line.\n\nImportant\n\nAzure AD is now Microsoft Entra ID.\n\nNext paragraph.\n";
    let x = unit_markdown_to_xhtml(md, url).unwrap();
    // Renders as a blockquote with a bold label (same as the GitHub `> [!IMPORTANT]` path).
    assert!(x.contains("<blockquote>"));
    assert!(x.contains("<strong>Important</strong>"));
    assert!(x.contains("Azure AD is now Microsoft Entra ID."));
    // The bare keyword line must not survive as plain text.
    assert!(!x.contains("<p>Important</p>"));
}

#[test]
fn empty_body_returns_none() {
    assert!(unit_markdown_to_xhtml("---\nuid: x\n---\n", "https://learn.microsoft.com/training/modules/m/1-x").is_none());
}

#[test]
fn frontmatter_without_an_end_stays() {
    assert_eq!(strip_frontmatter("---\nuid: x\n"), "---\nuid: x\n");
    assert_eq!(strip_frontmatter("plain"), "plain");
    assert_eq!(strip_frontmatter("\u{feff}\r\n ---a\n---\r\n\nb"), "b");
}

#[test]
fn only_the_first_lines_are_preamble() {
    assert_eq!(
        strip_unit_preamble("# A\n# B\n1\n2\n3\n4\n5\n6\nCompleted\n- 3 minutes"),
        "# B\n1\n2\n3\n4\n5\n6\nCompleted\n- 3 minutes"
    );
    assert_eq!(strip_unit_preamble("a\nb\nc\n# D"), "a\nb\nc\n# D");
    assert_eq!(strip_unit_preamble("- 1 minute\nx"), "x");
}

#[test]
fn minutes_lines() {
    let line = |s: &str| is_minutes_line(&s.chars().collect::<Vec<char>>());
    assert!(line("- 10 minutes"));
    assert!(line("- 1 minute"));
    assert!(!line("-  minutes"));
    assert!(!line("- minutes"));
    assert!(!line("- ten minutes"));
    assert!(!line("10 minutes"));
}

#[test]
fn alerts_need_blank_lines_and_a_paragraph() {
    assert_eq!(rewrap_alerts("Note\n\na\nb\n\nc"), "> [!NOTE]\n> a\n> b\n\nc");
    assert_eq!(rewrap_alerts("x\nNote\n\na"), "x\nNote\n\na");
    assert_eq!(rewrap_alerts("Note\na"), "Note\na");
    assert_eq!(rewrap_alerts("Tip\n\n\na"), "Tip\n\n\na");
    assert_eq!(rewrap_alerts("Notes\n\na"), "Notes\n\na");
    assert_eq!(rewrap_alerts(" Caution \n\na"), "> [!CAUTION]\n> a");
}

#[test]
fn media_outside_training_stays() {
    assert_eq!(absolutize_media("![a](../../b)", "https://x/y"), "![a](../../b)");
}
