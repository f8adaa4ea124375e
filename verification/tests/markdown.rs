use mslx::markdown::close_void_tag;
use mslx::markdown::escape_stray_amp;
use mslx::markdown::finish_html;
use mslx::markdown::mark_inline_code;
use mslx::markdown::markdown_to_xhtml;
use mslx::markdown::markdown_to_xhtml_with_unit;
use mslx::markdown::preprocess;
use mslx::markdown::resolve_media_url;
use mslx::markdown::strip_code_lang_classes;
use mslx::markdown::title_case;

fn chars(s: &str) -> Vec<char> {
    s.chars().collect()
}

#[test]
fn converts_basic_markdown() {
    let x = markdown_to_xhtml("# Hi\n\nSome **bold** text.", "https://x/mod");
    assert!(x.contains("<h1>Hi</h1>"));
    assert!(x.contains("<strong>bold</strong>"));
}

#[test]
fn absolutises_root_links() {
    let x = markdown_to_xhtml("See [policy](/azure/governance/policy).", "https://x/mod");
    assert!(x.contains("https://learn.microsoft.com/azure/governance/policy"));
}

#[test]
fn video_becomes_link() {
    let x = markdown_to_xhtml("> [!VIDEO https://aka.ms/v]", "https://x/mod");
    assert!(x.contains("https://aka.ms/v"));
    assert!(!x.contains("[!VIDEO"));
}

#[test]
fn video_links_to_unit_page_when_known() {
    // The embed player is JS-only; the unit's Learn page is the working target.
    let x = markdown_to_xhtml_with_unit(
        "> [!VIDEO https://learn-video.azurefd.net/vod/player?id=abc]",
        "https://x/mod",
        "https://learn.microsoft.com/training/modules/m/2-unit",
    );
    assert!(x.contains("https://learn.microsoft.com/training/modules/m/2-unit"));
    assert!(x.contains("Watch video on Microsoft Learn"));
}

#[test]
fn bare_video_id_gets_player_prefix() {
    // No unit_url and a prefix-less id -> normalise to the canonical player URL.
    let x = markdown_to_xhtml("> [!VIDEO 477e6b92-9bc6-425d-90fe-2468ab8ab0f1]", "https://x/mod");
    assert!(x.contains("https://learn-video.azurefd.net/vod/player?id=477e6b92-9bc6-425d-90fe-2468ab8ab0f1"));
}

#[test]
fn note_alert_labelled() {
    let x = markdown_to_xhtml("> [!NOTE]\n> Be careful.", "https://x/mod");
    assert!(x.contains("Note"));
    assert!(!x.contains("[!NOTE]"));
}

#[test]
fn iframe_becomes_link_and_amp_escaped() {
    let md =
        "<iframe width=\"854\" src=\"https://youtube.com/embed/x?a=1&b=2\" allowfullscreen></iframe>";
    // With no unit_url, the iframe src is kept as the fallback target.
    let x = markdown_to_xhtml(md, "https://x/mod");
    assert!(!x.contains("<iframe"));
    assert!(!x.contains("allowfullscreen"));
    assert!(x.contains("Watch video on Microsoft Learn"));
    // the & in the URL is escaped, and not double-escaped
    assert!(x.contains("a=1&amp;b=2"));
    assert!(!x.contains("&amp;amp;"));
}

#[test]
fn image_zone_converted() {
    let x = markdown_to_xhtml(
        ":::image type=\"content\" source=\"../media/x.png\" alt-text=\"A diagram\":::",
        "https://raw/mod",
    );
    assert!(x.contains("<img"));
    assert!(x.contains("https://raw/mod/media/x.png"));
    assert!(x.contains("A diagram"));
}

#[test]
fn inline_image_directive_in_html_table() {
    let md = "<table><tr><td>:::image type=\"icon\" source=\"../media/i.png\":::</td></tr></table>";
    let x = markdown_to_xhtml(md, "https://raw/mod");
    assert!(!x.contains(":::image"), "directive leaked: {x}");
    assert!(x.contains("src=\"https://raw/mod/media/i.png\""));
    assert!(x.contains("class=\"learn-icon\""), "icon class missing: {x}");
}

#[test]
fn image_end_and_bare_fences_dropped() {
    let x = markdown_to_xhtml(":::row:::\ntext\n:::image-end:::", "https://raw/mod");
    assert!(!x.contains(":::"), "fence leaked: {x}");
    assert!(x.contains("text"));
}

#[test]
fn closes_raw_void_tags() {
    // Raw HTML passed through from a Learn table, with messy <br> variants.
    let md = "<p>a <br> b <br > c <br/> d <br /> e</p>";
    let x = markdown_to_xhtml(md, "https://x/mod");
    assert!(!x.contains("<br>"));
    assert!(!x.contains("<br >"));
    assert_eq!(x.matches("<br/>").count(), 4);
    // does not maul a non-void tag that merely starts with the same letters
    let x2 = markdown_to_xhtml("<p><break>x</break></p>", "https://x/mod");
    assert!(x2.contains("<break>"));
}

#[test]
fn void_tags_keep_their_attributes() {
    assert_eq!(
        close_void_tag("a<br class=\"x\" / >b<br\n>c<brx><br", "br"),
        "a<br class=\"x\"/>b<br/>c<brx><br"
    );
    assert_eq!(close_void_tag("<hr>", "br"), "<hr>");
    assert_eq!(close_void_tag("x<br y", "br"), "x<br y");
}

#[test]
fn references_are_not_escaped_again() {
    assert_eq!(
        escape_stray_amp("a & b &amp; c &#160; d &#xAf; e &x f &; g &#; h &#x; &#12x;"),
        "a &amp; b &amp; c &#160; d &#xAf; e &amp;x f &amp;; g &amp;#; h &amp;#x; &amp;#12x;"
    );
    let once = escape_stray_amp("R&D &amp &lt; 1&&2");
    assert_eq!(once, "R&amp;D &amp;amp &lt; 1&amp;&amp;2");
    assert_eq!(escape_stray_amp(&once), once);
}

#[test]
fn inline_code_is_marked_and_blocks_are_not() {
    assert_eq!(
        mark_inline_code("<p><code>a</code></p><pre><code>b</code></pre><code>"),
        "<p><code class=\"ic\">a</code></p><pre><code>b</code></pre><code class=\"ic\">"
    );
    assert_eq!(
        finish_html("<code>x</code><br>&"),
        "<code class=\"ic\">x</code><br/>&amp;"
    );
}

#[test]
fn language_classes_can_be_stripped() {
    assert_eq!(
        strip_code_lang_classes("<pre><code class=\"language-json\">{}</code></pre>"),
        "<pre><code>{}</code></pre>"
    );
    assert_eq!(strip_code_lang_classes("a class=\"language-b"), "ab");
}

#[test]
fn alerts_videos_and_zones_line_by_line() {
    assert_eq!(
        preprocess("> [!IMPORTANT] Read this\n  > [!tip]\n:::zone:::\nplain\r\n> [!open", "b", "u"),
        "> **Important** Read this\n> **Tip**\nplain\n> [!open\n"
    );
    assert_eq!(
        preprocess("> [!VIDEO https://v]", "b", "https://unit"),
        "\n\n[Watch video on Microsoft Learn](https://unit)\n\n"
    );
    assert_eq!(
        preprocess("x <iframe src=\"https://v\"> y <iframe", "b", ""),
        "x \n\n[Watch video on Microsoft Learn](https://v)\n\n y \n"
    );
    assert_eq!(preprocess(":::image source=\"a\"", "b", ""), "");
    assert_eq!(preprocess("a :::image b", "b", ""), "a :::image b\n");
}

#[test]
fn links_and_media_are_absolute() {
    assert_eq!(
        preprocess("[a](/b) ![c](../media/d.png) ![e](media/f.png)", "https://base", ""),
        "[a](https://learn.microsoft.com/b) ![c](https://base/media/d.png) ![e](https://base/media/f.png)\n"
    );
    for (src, url) in [
        ("https://x/y.png", "https://x/y.png"),
        ("../media/y.png", "https://base/media/y.png"),
        ("media/y.png", "https://base/media/y.png"),
        ("../y.png", "https://base/y.png"),
        ("/azure/y.png", "https://learn.microsoft.com/azure/y.png"),
        ("y.png", "https://base/y.png"),
    ] {
        assert_eq!(resolve_media_url(&chars(src), "https://base"), url);
    }
}

#[test]
fn title_case_of_words() {
    assert_eq!(title_case(&chars("WARNING")), "Warning");
    assert_eq!(title_case(&chars("")), "");
    assert_eq!(title_case(&chars("ÄÖ")), "Äö");
    assert_eq!(title_case(&chars("ßA")), "SSa");
}

#[test]
fn tables_strikethrough_and_footnotes_are_on() {
    let x = markdown_to_xhtml("| a |\n| - |\n| ~~b~~[^1] |\n\n[^1]: note", "m");
    assert!(x.contains("<table>"), "{x}");
    assert!(x.contains("<del>b</del>"), "{x}");
    assert!(x.contains("footnote"), "{x}");
}
