use mslx::assemble::book_outcome;
use mslx::assemble::build_certification_epub;
use mslx::assemble::build_module_epub;
use mslx::assemble::certification_chapters;
use mslx::assemble::certification_images;
use mslx::assemble::certification_nav;
use mslx::assemble::fetch_again;
use mslx::assemble::fetching_progress;
use mslx::assemble::found_modules;
use mslx::assemble::missing_modules;
use mslx::assemble::module_chapters_of;
use mslx::assemble::module_images;
use mslx::assemble::module_outcome;
use mslx::assemble::packed;
use mslx::assemble::plan_book;
use mslx::assemble::plan_module;
use mslx::assemble::quiz_content;
use mslx::assemble::rendered_content;
use mslx::assemble::rendered_or_notice;
use mslx::assemble::settle;
use mslx::assemble::source_slots;
use mslx::assemble::unfetched_content;
use mslx::assemble::unit_content;
use mslx::assemble::unit_progress;
use mslx::assemble::Reply;
use mslx::assemble::UnitSource;
use mslx::build_content_index;
use mslx::content::GitEntry;
use mslx::content::GitTree;
use mslx::epub::PackError;
use mslx::pages::report;
use mslx::pages::UnitContent;
use mslx::quiz::Quiz;
use mslx::scrape::unit_markdown_to_xhtml;
use mslx::Book;
use mslx::ContentIndex;
use mslx::ModuleNode;
use mslx::Part;
use mslx::ResolveError;
use mslx::UnitNode;
use std::io::Cursor;
use std::io::Read;

const RAW: &str = "https://raw.githubusercontent.com/MicrosoftDocs/learn/main/learn-pr/wwl";

fn unit(uid: &str, title: &str, kc: bool) -> UnitNode {
    UnitNode {
        uid: uid.into(),
        title: title.into(),
        duration_in_minutes: None,
        is_knowledge_check: kc,
    }
}

fn module(slug: &str, title: &str, units: Vec<UnitNode>) -> ModuleNode {
    ModuleNode {
        uid: format!("learn.{slug}"),
        title: title.into(),
        url: Some(format!("https://learn.microsoft.com/training/modules/{slug}/")),
        duration_in_minutes: Some(5),
        units,
    }
}

fn part(title: &str, modules: Vec<ModuleNode>) -> Part {
    Part {
        uid: title.to_lowercase(),
        title: title.into(),
        url: None,
        icon_url: None,
        duration_in_minutes: None,
        modules,
    }
}

fn first_module() -> ModuleNode {
    module(
        "public",
        "Public",
        vec![
            unit("learn.public.introduction", "Introduction", false),
            unit("learn.public.renamed", "Renamed", false),
            unit("learn.public.knowledge-check", "Check", true),
        ],
    )
}

fn book() -> Book {
    Book {
        cert_uid: "certification.x".into(),
        title: "X".into(),
        icon_url: Some("https://x/badge.svg".into()),
        parts: vec![
            part("One", vec![first_module(), module("hidden", "Hidden", vec![unit("learn.hidden.a", "A", false)])]),
            part("Two", vec![module("hollow", "Hollow", vec![])]),
        ],
    }
}

fn index() -> ContentIndex {
    let entry = |p: &str| GitEntry { path: format!("learn-pr/wwl/{p}"), kind: "blob".into() };
    build_content_index(&GitTree {
        tree: vec![
            entry("public/1-introduction.yml"),
            entry("public/3-knowledge-check.yml"),
            entry("public/includes/1-introduction.md"),
            entry("public/includes/2-other-name.md"),
        ],
        truncated: false,
    })
}

fn page(body: &str, learn_url: &str) -> UnitContent {
    UnitContent {
        body: body.into(),
        learn_url: learn_url.into(),
        raw_url: "".into(),
        placeholder: false,
    }
}

fn contents() -> Vec<UnitContent> {
    vec![
        UnitContent {
            body: "<p><img src=\"https://x/a.png\"/></p>".into(),
            learn_url: "https://learn/1".into(),
            raw_url: "https://raw/1".into(),
            placeholder: false,
        },
        page("<p>b</p>", "https://learn/2"),
        page("<p>c</p>", "https://learn/3"),
        page("<p>d</p>", "https://learn/4"),
    ]
}

fn read(archive: &mut zip::ZipArchive<Cursor<Vec<u8>>>, name: &str) -> String {
    let mut s = String::new();
    archive.by_name(name).unwrap().read_to_string(&mut s).unwrap();
    s
}

#[test]
fn plan_has_a_task_for_each_unit() {
    let tasks = plan_book(&index(), &book());
    assert_eq!(tasks.len(), 4);
    let numbers: Vec<usize> = tasks.iter().map(|t| t.gidx).collect();
    assert_eq!(numbers, [1, 2, 3, 4]);
    let t = &tasks[2];
    assert!(t.is_kc);
    assert_eq!(t.unit_uid, "learn.public.knowledge-check");
    assert_eq!(t.slug.as_deref(), Some("public"));
    assert_eq!(t.base.as_deref(), Some(format!("{RAW}/public").as_str()));
    assert_eq!(t.module_url, "https://learn.microsoft.com/training/modules/public/");
    assert_eq!((t.position, t.content_ordinal, t.non_kc_count), (3, 2, 2));
    assert_eq!(tasks[3].base, None);
}

#[test]
fn sources_of_the_tasks() {
    let idx = index();
    let tasks = plan_book(&idx, &book());
    match tasks[0].source(&idx) {
        UnitSource::Markdown { url, base, learn_url } => {
            assert_eq!(url, format!("{RAW}/public/includes/1-introduction.md"));
            assert_eq!(base, format!("{RAW}/public"));
            assert_eq!(
                learn_url,
                "https://learn.microsoft.com/training/modules/public/1-introduction"
            );
        }
        other => panic!("{other:?}"),
    }
    // No file of that slug: the one numbered as the unit stands.
    match tasks[1].source(&idx) {
        UnitSource::Markdown { url, .. } => {
            assert_eq!(url, format!("{RAW}/public/includes/2-other-name.md"));
        }
        other => panic!("{other:?}"),
    }
    match tasks[2].source(&idx) {
        UnitSource::Quiz { url, learn_url } => {
            assert_eq!(url, format!("{RAW}/public/3-knowledge-check.yml"));
            assert_eq!(
                learn_url,
                "https://learn.microsoft.com/training/modules/public/3-knowledge-check"
            );
        }
        other => panic!("{other:?}"),
    }
    match tasks[3].source(&idx) {
        UnitSource::Rendered { url, learn_url } => {
            assert_eq!(
                url,
                "https://learn.microsoft.com/training/modules/hidden/1-a?accept=text/markdown"
            );
            assert_eq!(learn_url, "https://learn.microsoft.com/training/modules/hidden/1-a");
        }
        other => panic!("{other:?}"),
    }
}

#[test]
fn what_no_page_can_give() {
    let known = |b: &Book| match plan_book(&index(), b)[3].source(&index()) {
        UnitSource::Known(c) => c,
        other => panic!("{other:?}"),
    };
    // A knowledge check is only in the repository.
    let mut b = book();
    b.parts[0].modules[1].units[0].is_knowledge_check = true;
    let c = known(&b);
    assert_eq!(c.body, "<p class=\"muted\">Content source not found for this module.</p>");
    assert_eq!(c.learn_url, "https://learn.microsoft.com/training/modules/hidden/");
    assert_eq!(c.raw_url, "");
    // A module without a page has no unit pages.
    let mut b = book();
    b.parts[0].modules[1].url = None;
    assert_eq!(known(&b).learn_url, "");
}

#[test]
fn units_without_a_file() {
    let entry = |p: &str| GitEntry { path: format!("learn-pr/wwl/{p}"), kind: "blob".into() };
    let idx = build_content_index(&GitTree { tree: vec![entry("public/9-summary.yml")], truncated: false });
    let mut b = book();
    b.parts[0].modules.truncate(1);
    let tasks = plan_book(&idx, &b);
    match tasks[0].source(&idx) {
        UnitSource::Known(c) => {
            assert_eq!(c.body, "<p class=\"muted\">Content not available for this unit.</p>")
        }
        other => panic!("{other:?}"),
    }
    match tasks[2].source(&idx) {
        UnitSource::Known(c) => {
            assert_eq!(c.body, "<p class=\"muted\">No knowledge check found for this module.</p>")
        }
        other => panic!("{other:?}"),
    }
}

#[test]
fn a_book_without_any_content_is_refused() {
    let nowhere = ContentIndex::default();
    let b = book();
    let found = found_modules(&nowhere, &b, &vec![false; 4]);
    assert_eq!(found, [false, false, false]);
    match book_outcome(&b, &found) {
        Err(ResolveError::ContentUnavailable(t)) => assert_eq!(t, "X"),
        _ => panic!("accepted"),
    }
    assert_eq!(missing_modules(&b, &found), ["Public", "Hidden", "Hollow"]);
    // A book without modules is empty, not unavailable.
    let mut empty = book();
    empty.parts.clear();
    assert!(plan_book(&nowhere, &empty).is_empty());
    assert!(book_outcome(&empty, &found_modules(&nowhere, &empty, &Vec::new())).is_ok());
}

#[test]
fn a_page_from_learn_saves_a_book() {
    let nowhere = ContentIndex::default();
    let b = book();
    let found = found_modules(&nowhere, &b, &vec![false, false, false, true]);
    assert_eq!(found, [false, true, false]);
    assert!(book_outcome(&b, &found).is_ok());
    assert_eq!(missing_modules(&b, &found), ["Public", "Hollow"]);
}

#[test]
fn a_module_of_the_repository_is_found() {
    let b = book();
    let found = found_modules(&index(), &b, &vec![false; 4]);
    assert_eq!(found, [true, false, false]);
    assert!(book_outcome(&b, &found).is_ok());
    assert_eq!(missing_modules(&b, &found), ["Hidden", "Hollow"]);
}

#[test]
fn content_from_learn() {
    let url = "https://learn.microsoft.com/training/modules/hidden/1-a";
    let md = "---\nuid: x\n---\n# A\n\nCompleted\n\n- 5 minutes\n\nText ![i](../../wwl/hidden/media/i.png)\n";
    let c = rendered_content(md, url).unwrap();
    assert_eq!(Some(c.body.clone()), unit_markdown_to_xhtml(md, url));
    assert_eq!(
        c.body,
        "<p>Text <img src=\"https://learn.microsoft.com/training/wwl/hidden/media/i.png\" alt=\"i\" /></p>\n"
    );
    assert_eq!(c.learn_url, url);
    assert_eq!(c.raw_url, "");
    assert!(rendered_content("---\nuid: x\n---\n", url).is_none());
}

#[test]
fn a_book_from_learn_alone_reads_back() {
    let mut b = book();
    b.parts.truncate(1);
    b.parts[0].modules.remove(0);
    let url = match plan_book(&ContentIndex::default(), &b)[0].source(&ContentIndex::default()) {
        UnitSource::Rendered { learn_url, .. } => learn_url,
        other => panic!("{other:?}"),
    };
    let c = vec![rendered_content("# A\n\nOnly on Learn.\n", &url).unwrap()];
    let found = found_modules(&ContentIndex::default(), &b, &vec![true]);
    assert!(book_outcome(&b, &found).is_ok());
    let bytes = build_certification_epub(&b, &c, vec![None], "2026-01-02").unwrap();
    let mut archive = zip::ZipArchive::new(Cursor::new(bytes)).unwrap();
    assert!(read(&mut archive, "OEBPS/u0001.xhtml").contains("<p>Only on Learn.</p>"));
    assert!(read(&mut archive, "OEBPS/sources.xhtml").contains(&url));
}

#[test]
fn content_of_a_unit() {
    let c = unit_content("# Hi\n\ntext", "https://raw/1.md", "https://raw", "https://learn/1");
    assert_eq!(c.body, "<h1>Hi</h1>\n<p>text</p>\n");
    assert_eq!(c.learn_url, "https://learn/1");
    assert_eq!(c.raw_url, "https://raw/1.md");
}

#[test]
fn content_of_a_check() {
    let c = quiz_content(&None, "https://raw/q.yml", "https://learn/q");
    assert_eq!(c.body, "<p class=\"muted\">Knowledge check could not be parsed.</p>");
    assert_eq!(c.raw_url, "https://raw/q.yml");
    let c = quiz_content(
        &Some(Quiz { title: String::new(), questions: Vec::new() }),
        "https://raw/q.yml",
        "https://learn/q",
    );
    assert!(c.body.ends_with("<h3 class=\"answer-key\">Answer key</h3>\n"));
    assert_eq!(c.learn_url, "https://learn/q");
}

#[test]
fn content_that_was_not_fetched() {
    let c = unfetched_content("https://learn/m/");
    assert_eq!(c.body, "<p class=\"muted\">Content could not be fetched.</p>");
    assert_eq!(c.learn_url, "https://learn/m/");
    assert_eq!(c.raw_url, "");
}

#[test]
fn three_tries() {
    assert!(fetch_again(0));
    assert!(fetch_again(2));
    assert!(!fetch_again(3));
    assert!(!fetch_again(u32::MAX));
}

#[test]
fn progress_lines() {
    assert_eq!(fetching_progress(4), "Fetching 4 units\u{2026}");
    let slots = source_slots(&book());
    assert_eq!(unit_progress(2, 4, &slots[3]), "[2/4] Hidden \u{203a} A");
}

#[test]
fn chapters_in_reading_order() {
    let chapters = certification_chapters(&book(), &contents(), "2026-01-02");
    let files: Vec<&str> = chapters.iter().map(|c| c.filename.as_str()).collect();
    assert_eq!(
        files,
        [
            "cover.xhtml",
            "part01.xhtml",
            "u0001.xhtml",
            "u0002.xhtml",
            "u0003.xhtml",
            "u0004.xhtml",
            "part02.xhtml",
            "sources.xhtml",
        ]
    );
    assert_eq!(chapters[1].title, "Part 1: One");
    assert_eq!(chapters[2].module_header.as_deref(), Some("Public"));
    assert_eq!(chapters[3].module_header, None);
    assert_eq!(chapters[3].body, "<p>b</p>");
    assert_eq!(chapters[5].module_header.as_deref(), Some("Hidden"));
    assert!(chapters[7].body.contains("<a href=\"https://learn/4\">"));
    assert!(chapters[7].body.ends_with("mslx</a>.</p>\n"));
}

#[test]
fn contents_mirror_the_tree() {
    let nav = certification_nav(&book());
    assert_eq!(nav.len(), 4);
    assert_eq!(nav[0].title, "Title page");
    assert_eq!(nav[1].title, "Part 1: One");
    assert_eq!(nav[1].href, "part01.xhtml");
    let public = &nav[1].children[0];
    assert_eq!(public.title, "Public");
    assert_eq!(public.href, "u0001.xhtml");
    assert_eq!(public.children.len(), 3);
    assert_eq!(public.children[1].href, "u0002.xhtml");
    assert_eq!(nav[1].children[1].children[0].href, "u0004.xhtml");
    // A module without units leads to its part.
    assert_eq!(nav[2].children[0].href, "part02.xhtml");
    assert_eq!(nav[3].href, "sources.xhtml");
}

#[test]
fn book_reads_back() {
    let b = book();
    let c = contents();
    assert_eq!(certification_images(&b, &c, "2026-01-02"), ["https://x/badge.svg", "https://x/a.png"]);
    let images = vec![None, Some(vec![7, 8, 9])];
    let bytes = build_certification_epub(&b, &c, images, "2026-01-02").unwrap();
    let mut archive = zip::ZipArchive::new(Cursor::new(bytes)).unwrap();
    assert_eq!(archive.by_index(0).unwrap().name(), "mimetype");
    assert_eq!(
        archive.by_index(0).unwrap().compression(),
        zip::CompressionMethod::Stored
    );
    assert_eq!(read(&mut archive, "mimetype"), "application/epub+zip");
    let page = read(&mut archive, "OEBPS/u0001.xhtml");
    assert!(page.contains("<img src=\"media/img0001.png\"/>"));
    assert!(read(&mut archive, "OEBPS/cover.xhtml").contains("src=\"https://x/badge.svg\""));
    let opf = read(&mut archive, "OEBPS/content.opf");
    assert!(opf.contains("urn:mslx:certification.x:2026-01-02"));
    assert!(opf.contains("2026-01-02T00:00:00Z"));
    let mut data = Vec::new();
    archive.by_name("OEBPS/media/img0001.png").unwrap().read_to_end(&mut data).unwrap();
    assert_eq!(data, [7, 8, 9]);
}

#[test]
fn packing_that_fails() {
    assert_eq!(packed(Ok(vec![1, 2])).unwrap(), [1, 2]);
    match packed(Err(PackError { message: "full".into() })) {
        Err(ResolveError::BadInput(m)) => assert_eq!(m, "epub packaging failed: full"),
        _ => panic!("packed"),
    }
}

#[test]
fn a_module_of_too_many_units_is_refused() {
    // The unit numbered 999 and the sources would share a file.
    let m = |n: usize| module("m", "M", (0..n).map(|i| unit(&format!("m.u{i}"), "U", false)).collect());
    let pages = |n: usize| {
        (0..n)
            .map(|_| page("", ""))
            .collect::<Vec<UnitContent>>()
    };
    assert!(build_module_epub(&m(998), &pages(998), Vec::new(), "d").is_ok());
    match build_module_epub(&m(999), &pages(999), Vec::new(), "d") {
        Err(ResolveError::BadInput(e)) => assert!(e.starts_with("epub packaging failed: ")),
        _ => panic!("packed"),
    }
}

#[test]
fn plan_of_a_module() {
    let idx = index();
    let tasks = plan_module(&idx, "learn.public", &first_module()).unwrap();
    assert_eq!(tasks.len(), 3);
    assert_eq!(tasks[1].position, 2);
    let mut bare = first_module();
    bare.url = None;
    match plan_module(&idx, "learn.public", &bare) {
        Err(ResolveError::BadInput(m)) => {
            assert_eq!(m, "module learn.public has no usable training URL")
        }
        _ => panic!("planned"),
    }
    // A module that the index does not have is asked of Learn.
    let nowhere = ContentIndex::new();
    let tasks = plan_module(&nowhere, "learn.public", &first_module()).unwrap();
    match tasks[1].source(&nowhere) {
        UnitSource::Rendered { learn_url, .. } => assert_eq!(
            learn_url,
            "https://learn.microsoft.com/training/modules/public/2-renamed"
        ),
        other => panic!("{other:?}"),
    }
    assert!(module_outcome(&nowhere, &first_module(), &vec![false, true, false]).is_ok());
    assert!(module_outcome(&idx, &first_module(), &vec![false; 3]).is_ok());
    match module_outcome(&nowhere, &first_module(), &vec![false; 3]) {
        Err(ResolveError::BadInput(m)) => {
            assert_eq!(m, "module 'public' not found in the content index (rebuild the index?)")
        }
        _ => panic!("accepted"),
    }
}

#[test]
fn module_reads_back() {
    let m = first_module();
    let mut c = contents();
    c.truncate(3);
    let chapters = module_chapters_of(&m, &c, "2026-01-02");
    let files: Vec<&str> = chapters.iter().map(|c| c.filename.as_str()).collect();
    assert_eq!(files, ["ch000.xhtml", "ch001.xhtml", "ch002.xhtml", "ch003.xhtml", "ch999.xhtml"]);
    assert_eq!(module_images(&m, &c, "2026-01-02"), ["https://x/a.png"]);
    let bytes = build_module_epub(&m, &c, vec![Some(vec![1])], "2026-01-02").unwrap();
    let mut archive = zip::ZipArchive::new(Cursor::new(bytes)).unwrap();
    assert!(read(&mut archive, "OEBPS/content.opf").contains("urn:mslx:learn.public:2026-01-02"));
    assert!(read(&mut archive, "OEBPS/ch001.xhtml").contains("<img src=\"media/img0001.png\"/>"));
    assert!(read(&mut archive, "OEBPS/ch999.xhtml").contains("<a href=\"https://raw/1\">"));
    let nav = read(&mut archive, "OEBPS/nav.xhtml");
    assert!(nav.contains("<a href=\"ch002.xhtml\">Renamed</a>"));
}

#[test]
fn learn_is_the_last_resort() {
    let url = "https://learn.microsoft.com/training/modules/hidden/1-a";
    let (c, from_learn) = rendered_or_notice(Some("# A\n\nText\n".into()), url, "https://learn/m/");
    assert!(from_learn);
    assert_eq!(c.body, "<p>Text</p>\n");
    assert_eq!(c.learn_url, url);
    assert!(!c.placeholder);
    // Nothing was served, or what was served holds nothing.
    for md in [None, Some("---\nuid: x\n---\n".to_string())] {
        let (c, from_learn) = rendered_or_notice(md, url, "https://learn/m/");
        assert!(!from_learn);
        assert_eq!(c.body, "<p class=\"muted\">Content source not found for this module.</p>");
        assert_eq!(c.learn_url, "https://learn/m/");
        assert_eq!(c.raw_url, "");
        assert!(!c.placeholder);
    }
}

#[test]
fn replies_settle_the_pages() {
    let md = || UnitSource::Markdown {
        url: "https://raw/1.md".into(),
        base: "https://raw".into(),
        learn_url: "https://learn/1".into(),
    };
    let quiz = || UnitSource::Quiz { url: "https://raw/q.yml".into(), learn_url: "https://learn/q".into() };
    let (c, from_learn) = settle(md(), Reply::Text("text".into()), "https://learn/m/");
    assert_eq!((c.body.as_str(), c.placeholder, from_learn), ("<p>text</p>\n", false, false));
    let (c, _) = settle(quiz(), Reply::Check(None), "https://learn/m/");
    assert_eq!(c.body, "<p class=\"muted\">Knowledge check could not be parsed.</p>");
    assert!(!c.placeholder);
    for (c, from_learn) in [
        settle(md(), Reply::Nothing, "https://learn/m/"),
        settle(md(), Reply::Check(None), "https://learn/m/"),
        settle(quiz(), Reply::Nothing, "https://learn/m/"),
        settle(quiz(), Reply::Text("text".into()), "https://learn/m/"),
    ] {
        assert_eq!(c.body, "<p class=\"muted\">Content could not be fetched.</p>");
        assert_eq!(c.learn_url, "https://learn/m/");
        assert!(c.placeholder && !from_learn);
    }
    let (c, from_learn) = settle(
        UnitSource::Known(page("<p>k</p>", "https://learn/k")),
        Reply::Text("other".into()),
        "https://learn/m/",
    );
    assert_eq!((c.body.as_str(), from_learn), ("<p>k</p>", false));
}

#[test]
fn report_lists_units_of_indexed_modules_alone() {
    // The second unit is matched to no file; the first and the check are not fetched; the module
    // `hidden` is in no index and Learn does not serve it, and `hollow` has no units at all.
    let entry = |p: &str| GitEntry { path: format!("learn-pr/wwl/{p}"), kind: "blob".into() };
    let idx = build_content_index(&GitTree {
        tree: vec![
            entry("public/3-knowledge-check.yml"),
            entry("public/includes/1-introduction.md"),
        ],
        truncated: false,
    });
    let b = book();
    let mut pages = Vec::new();
    let mut rendered = Vec::new();
    for task in plan_book(&idx, &b) {
        let (c, from_learn) = settle(task.source(&idx), Reply::Nothing, &task.module_url);
        pages.push(c);
        rendered.push(from_learn);
    }
    assert_eq!(
        pages[3].body,
        "<p class=\"muted\">Content source not found for this module.</p>"
    );
    let found = found_modules(&idx, &b, &rendered);
    let missing = missing_modules(&b, &found);
    assert_eq!(missing, ["Hidden", "Hollow"]);
    assert_eq!(
        report(&b.title, &missing, &source_slots(&b), &pages),
        "__MSLX_REPORT__{\"resolved\":\"X\",\"missing\":[\"Hidden\",\"Hollow\"],\
         \"unitPlaceholders\":[\"Public / Introduction\",\"Public / Renamed\",\"Public / Check\"]}"
    );
}
