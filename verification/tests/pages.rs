use mslx::pages::badge_img;
use mslx::pages::cert_sources_body_flat;
use mslx::pages::cover_body;
use mslx::pages::json_escape;
use mslx::pages::made_with;
use mslx::pages::part_intro_body;
use mslx::pages::report;
use mslx::pages::sources_body;
use mslx::pages::title_page_body;
use mslx::pages::SourceSlot;
use mslx::pages::UnitContent;
use mslx::Book;
use mslx::ModuleNode;
use mslx::Part;
use mslx::UnitNode;

fn unit(title: &str) -> UnitNode {
    UnitNode {
        uid: title.to_lowercase(),
        title: title.into(),
        duration_in_minutes: None,
        is_knowledge_check: false,
    }
}

fn module(title: &str, minutes: Option<u32>, units: Vec<UnitNode>) -> ModuleNode {
    ModuleNode {
        uid: title.to_lowercase(),
        title: title.into(),
        url: None,
        duration_in_minutes: minutes,
        units,
    }
}

fn part(title: &str, icon: Option<&str>, modules: Vec<ModuleNode>) -> Part {
    Part {
        uid: title.to_lowercase(),
        title: title.into(),
        url: None,
        icon_url: icon.map(|s| s.to_string()),
        duration_in_minutes: None,
        modules,
    }
}

fn content(body: &str, learn: &str, raw: &str) -> UnitContent {
    UnitContent {
        body: body.into(),
        learn_url: learn.into(),
        raw_url: raw.into(),
        placeholder: false,
    }
}

fn stand_in(body: &str) -> UnitContent {
    UnitContent { placeholder: true, ..content(body, "", "") }
}

fn slot(gidx: usize, module: &str, unit: &str) -> SourceSlot {
    SourceSlot { gidx, module_title: module.into(), unit_title: unit.into() }
}

#[test]
fn badge_needs_an_http_url() {
    assert_eq!(
        badge_img(&Some("https://x/b.svg?a&b".into())),
        "<p class=\"badge-wrap\"><img class=\"badge\" src=\"https://x/b.svg?a&amp;b\" alt=\"badge\"/></p>\n"
    );
    assert_eq!(badge_img(&Some("/b.svg".into())), "");
    assert_eq!(badge_img(&None), "");
}

#[test]
fn cover_counts_the_book() {
    let book = Book {
        cert_uid: "c".into(),
        title: "A & B".into(),
        icon_url: None,
        parts: vec![part(
            "P",
            None,
            vec![module("M", Some(100), vec![unit("U"), unit("V")]), module("N", None, vec![])],
        )],
    };
    assert_eq!(
        cover_body(&book, "2026-01-02"),
        "<p class=\"muted\">Microsoft Learn study export, assembled 2026-01-02 for personal study. \
         Content is Microsoft's; original sources are listed at the end.</p>\n\
         <p><strong>Certification:</strong> A &amp; B</p>\n\
         <p><strong>1 parts &#183; 2 modules &#183; 2 units &#183; about 2 hours</strong></p>\n"
    );
}

#[test]
fn part_opens_with_its_modules() {
    let p = part("P", Some("http://x/i.png"), vec![module("<M>", Some(9), vec![]), module("N", None, vec![])]);
    assert_eq!(
        part_intro_body(3, &p),
        "<p class=\"badge-wrap\"><img class=\"badge\" src=\"http://x/i.png\" alt=\"badge\"/></p>\n\
         <p class=\"muted\">Part 3</p>\n<p><strong>Modules in this part:</strong></p>\n<ul>\n  \
         <li>&lt;M&gt; <span class=\"muted\">(about 9 min)</span></li>\n  \
         <li>N <span class=\"muted\">(about 0 min)</span></li>\n</ul>\n"
    );
}

#[test]
fn title_page_of_a_module() {
    let m = module("M", Some(12), vec![unit("U"), unit("V")]);
    assert_eq!(
        title_page_body("M", "https://x/m/", &m, "2026-01-02"),
        "<p class=\"muted\">Microsoft Learn study export, assembled 2026-01-02 for personal study. \
         Content is Microsoft's; original sources are listed at the end.</p>\n\
         <p><strong>Module:</strong> M</p>\n\
         <p><strong>Source:</strong> <a href=\"https://x/m/\">https://x/m/</a></p>\n\
         <p><strong>Units:</strong> 2 &#183; about 12 min</p>\n"
    );
}

#[test]
fn sources_of_a_module() {
    let titles = vec!["U".to_string(), "V".to_string()];
    let contents = vec![content("a", "https://x/m/1-u", "https://raw/1-u.md"), content("b", "https://x/m/", "")];
    assert_eq!(
        sources_body("M", "https://x/m/", &titles, &contents, "2026-01-02"),
        "<p>Assembled from <a href=\"https://x/m/\">M</a> on 2026-01-02. \
         Each unit's original Learn page and content source:</p>\n<ol>\n  \
         <li>U<br/>\n    <a href=\"https://x/m/1-u\">https://x/m/1-u</a><br/>\n    \
         <span class=\"muted\">source: <a href=\"https://raw/1-u.md\">https://raw/1-u.md</a></span></li>\n  \
         <li>V<br/>\n    <a href=\"https://x/m/\">https://x/m/</a></li>\n</ol>\n"
    );
}

#[test]
fn sources_of_a_book_by_module() {
    let slots = vec![slot(1, "M", "U"), slot(2, "M", "V"), slot(3, "N", "W")];
    let contents = vec![
        content("", "https://x/m/1-u", "https://raw/1-u.md"),
        content("", "https://x/m/", ""),
        content("", "https://x/n/", ""),
    ];
    assert_eq!(
        cert_sources_body_flat("T", &slots, &contents, "2026-01-02"),
        "<p>Assembled from <a href=\"https://learn.microsoft.com/credentials/certifications/\">T</a> \
         on 2026-01-02. Original Learn pages and content sources, by module:</p>\n\
         <h3>M</h3>\n<ol>\n  \
         <li>U<br/>\n    <a href=\"https://x/m/1-u\">https://x/m/1-u</a><br/>\n    \
         <span class=\"muted\">source: <a href=\"https://raw/1-u.md\">https://raw/1-u.md</a></span></li>\n  \
         <li>V<br/>\n    <a href=\"https://x/m/\">https://x/m/</a></li>\n\
         </ol>\n<h3>N</h3>\n<ol>\n  \
         <li>W<br/>\n    <a href=\"https://x/n/\">https://x/n/</a></li>\n</ol>\n"
    );
    assert_eq!(
        cert_sources_body_flat("T", &Vec::new(), &Vec::new(), "d"),
        "<p>Assembled from <a href=\"https://learn.microsoft.com/credentials/certifications/\">T</a> \
         on d. Original Learn pages and content sources, by module:</p>\n"
    );
}

#[test]
fn provenance_line() {
    assert_eq!(
        made_with(),
        "<hr/>\n<p class=\"muted\">Made with mslx. Source and issues at \
         <a href=\"https://github.com/ashirokikh/mslx\">github.com/ashirokikh/mslx</a>.</p>\n"
    );
}

#[test]
fn json_strings_are_escaped() {
    assert_eq!(json_escape("a\"b\\c\nd\re\tf"), "a\\\"b\\\\c d e f");
}

#[test]
fn report_names_what_is_missing() {
    let missing = vec!["No \"source\"".to_string(), "Other".to_string()];
    let slots = vec![slot(1, "M", "U"), slot(2, "M", "V"), slot(3, "N", "W")];
    let contents = vec![
        stand_in("<p class=\"muted\">Content could not be fetched.</p>"),
        content("<p>The value could not be fetched.</p>", "", ""),
        stand_in("<p class=\"muted\">Content not available for this unit.</p>"),
    ];
    assert_eq!(
        report("T", &missing, &slots, &contents),
        "__MSLX_REPORT__{\"resolved\":\"T\",\"missing\":[\"No \\\"source\\\"\",\"Other\"],\
         \"unitPlaceholders\":[\"M / U\",\"N / W\"]}"
    );
    assert_eq!(
        report("T", &Vec::new(), &Vec::new(), &Vec::new()),
        "__MSLX_REPORT__{\"resolved\":\"T\",\"missing\":[],\"unitPlaceholders\":[]}"
    );
}
