use mslx::epub::build_epub;
use mslx::epub::esc;
use mslx::epub::Chapter;
use mslx::epub::NavEntry;
use mslx::epub::Resource;
use std::io::Cursor;
use std::io::Read;

fn chapter(id: &str, title: &str, body: &str) -> Chapter {
    Chapter {
        id: id.into(),
        filename: format!("{id}.xhtml"),
        title: title.into(),
        body: body.into(),
        module_header: None,
    }
}

fn read(archive: &mut zip::ZipArchive<Cursor<Vec<u8>>>, name: &str) -> String {
    let mut s = String::new();
    archive.by_name(name).unwrap().read_to_string(&mut s).unwrap();
    s
}

#[test]
fn builds_nonempty_zip_with_mimetype_first() {
    let chapters = vec![Chapter {
        id: "c1".into(),
        filename: "c1.xhtml".into(),
        title: "One".into(),
        body: "<p>hello</p>".into(),
        module_header: None,
    }];
    let nav = vec![NavEntry::leaf("c1.xhtml", "One")];
    let bytes =
        build_epub("T", "urn:x", "2026-06-15T00:00:00Z", "en", &chapters, &nav, &[]).unwrap();
    assert!(bytes.len() > 100);
    // ZIP local file header for the first entry names "mimetype".
    assert_eq!(&bytes[30..38], b"mimetype");
}

#[test]
fn archive_reads_back() {
    let mut first = chapter("c1", "One & two", "<p>\u{e9}</p>");
    first.module_header = Some("Module".into());
    let chapters = vec![first, chapter("c2", "Two", "<p>b</p>")];
    let nav = vec![
        NavEntry {
            href: "c1.xhtml".into(),
            title: "Part".into(),
            children: vec![NavEntry::leaf("c2.xhtml", "Two")],
        },
    ];
    let resources = vec![Resource {
        filename: "media/a.png".into(),
        media_type: "image/png".into(),
        data: vec![1, 2, 3],
    }];
    let bytes =
        build_epub("T", "urn:x", "2026-06-15T00:00:00Z", "en", &chapters, &nav, &resources)
            .unwrap();
    let mut archive = zip::ZipArchive::new(Cursor::new(bytes)).unwrap();
    let names: Vec<String> =
        (0..archive.len()).map(|i| archive.by_index(i).unwrap().name().to_string()).collect();
    assert_eq!(
        names,
        vec![
            "mimetype",
            "META-INF/container.xml",
            "OEBPS/style.css",
            "OEBPS/nav.xhtml",
            "OEBPS/toc.ncx",
            "OEBPS/c1.xhtml",
            "OEBPS/c2.xhtml",
            "OEBPS/media/a.png",
            "OEBPS/content.opf",
        ]
    );
    assert!(archive.by_index(0).unwrap().compression() == zip::CompressionMethod::Stored);
    assert!(archive.by_index(5).unwrap().compression() == zip::CompressionMethod::Deflated);
    assert_eq!(read(&mut archive, "mimetype"), "application/epub+zip");
    let c1 = read(&mut archive, "OEBPS/c1.xhtml");
    assert!(c1.contains("One &amp; two"), "{c1}");
    assert!(c1.contains("Module"), "{c1}");
    assert!(c1.contains("<p>\u{e9}</p>"), "{c1}");
    let opf = read(&mut archive, "OEBPS/content.opf");
    assert!(opf.contains("c1.xhtml") && opf.contains("c2.xhtml"), "{opf}");
    assert!(opf.contains("media/a.png"), "{opf}");
    assert!(opf.contains("2026-06-15T00:00:00Z"), "{opf}");
    let toc = read(&mut archive, "OEBPS/toc.ncx");
    assert!(toc.contains("<navPoint id=\"np1\" playOrder=\"1\">"), "{toc}");
    assert!(toc.contains("<navPoint id=\"np2\" playOrder=\"2\">"), "{toc}");
    let mut data = Vec::new();
    archive.by_name("OEBPS/media/a.png").unwrap().read_to_end(&mut data).unwrap();
    assert_eq!(data, vec![1, 2, 3]);
}

#[test]
fn two_files_of_one_name_are_refused() {
    let chapters = vec![chapter("c1", "One", ""), chapter("c1", "Two", "")];
    let nav = vec![NavEntry::leaf("c1.xhtml", "One")];
    assert!(build_epub("T", "i", "m", "en", &chapters, &nav, &[]).is_err());
}

#[test]
fn escapes_markup() {
    assert_eq!(esc("a<b>&\"c\" 'd'"), "a&lt;b&gt;&amp;&quot;c&quot; 'd'");
    assert_eq!(esc("&amp;"), "&amp;amp;");
}

#[test]
fn escaped_text_decodes_to_the_text() {
    let decode = |s: &str| {
        s.replace("&lt;", "<").replace("&gt;", ">").replace("&quot;", "\"").replace("&amp;", "&")
    };
    for s in ["a < b & c > \"d\"", "&amp;lt;", "&#39; 'plain' \u{e9}", ""] {
        assert_eq!(decode(&esc(s)), s);
    }
    assert_eq!(esc("&lt;"), "&amp;lt;");
    assert_eq!(esc("a<") + &esc("b&"), esc("a<b&"));
}
