//! EPUB 3 packaging: XHTML chapters, a nested table of contents and images become one archive.
//!
//! An EPUB is a ZIP archive with a fixed layout: an uncompressed `mimetype` first, a
//! `META-INF/container.xml` that points at the package document, then the stylesheet, the two
//! tables of contents, the chapters, the images and the package document (metadata, manifest
//! and spine).

use crate::archive;
use crate::archive::Packing;
use crate::text;
use vstd::prelude::*;
use vstd::string::*;

verus! {

broadcast use vstd::seq_lib::group_seq_properties;

/// One chapter in reading order. `body` is an XHTML fragment.
pub struct Chapter {
    pub id: String,
    pub filename: String,
    pub title: String,
    pub body: String,
    /// When set (the first unit of a module), the module's name, shown as the heading above the
    /// unit's title.
    pub module_header: Option<String>,
}

/// What a [`Chapter`] holds.
pub struct ChapterView {
    pub id: Seq<char>,
    pub filename: Seq<char>,
    pub title: Seq<char>,
    pub body: Seq<char>,
    pub module_header: Option<Seq<char>>,
}

impl DeepView for Chapter {
    type V = ChapterView;

    open spec fn deep_view(&self) -> ChapterView {
        ChapterView {
            id: self.id@,
            filename: self.filename@,
            title: self.title@,
            body: self.body@,
            module_header: self.module_header.deep_view(),
        }
    }
}

/// A node of the table of contents, with the nodes below it.
pub struct NavEntry {
    pub href: String,
    pub title: String,
    pub children: Vec<NavEntry>,
}

/// What a [`NavEntry`] holds.
pub struct NavView {
    pub href: Seq<char>,
    pub title: Seq<char>,
    pub children: Seq<NavView>,
}

impl NavEntry {
    pub open spec fn model(&self) -> NavView
        decreases self,
    {
        NavView {
            href: self.href@,
            title: self.title@,
            children: Seq::new(
                self.children@.len(),
                |i: int|
                    if 0 <= i < self.children@.len() {
                        self.children@[i].model()
                    } else {
                        arbitrary()
                    },
            ),
        }
    }

    /// A node with nothing below it.
    pub fn leaf(href: &str, title: &str) -> (r: Self)
        ensures
            r.deep_view() == leaf_view(href@, title@),
    {
        let r = NavEntry { href: href.to_owned(), title: title.to_owned(), children: Vec::new() };
        assert(r.deep_view().children =~= Seq::<NavView>::empty());
        r
    }
}

impl DeepView for NavEntry {
    type V = NavView;

    open spec fn deep_view(&self) -> NavView {
        self.model()
    }
}

pub open spec fn leaf_view(href: Seq<char>, title: Seq<char>) -> NavView {
    NavView { href, title, children: Seq::empty() }
}

pub proof fn lemma_nav_children(e: NavEntry)
    ensures
        e.deep_view().children == e.children.deep_view(),
{
    assert(e.deep_view().children =~= e.children.deep_view());
}

/// A binary asset embedded into the EPUB. `filename` is relative to `OEBPS`.
pub struct Resource {
    pub filename: String,
    pub media_type: String,
    pub data: Vec<u8>,
}

/// What a [`Resource`] holds.
pub struct ResourceView {
    pub filename: Seq<char>,
    pub media_type: Seq<char>,
    pub data: Seq<u8>,
}

impl DeepView for Resource {
    type V = ResourceView;

    open spec fn deep_view(&self) -> ResourceView {
        ResourceView {
            filename: self.filename@,
            media_type: self.media_type@,
            data: self.data@,
        }
    }
}

pub const CSS: &'static str = r#"
body { font-family: sans-serif; line-height: 1.5; margin: 1em; }
h1, h2, h3 { font-family: sans-serif; line-height: 1.2; }
.module-name { border-top: 2px solid #b9c6cf; padding-top: 0.4em; color: #0b3d5c; }
.module-name + h2 { margin-top: 0.2em; color: #345; font-weight: normal; }
code, pre { font-family: monospace; }
pre { white-space: pre-wrap; background: #f4f4f4; padding: 0.6em; }
blockquote { border-left: 3px solid #bbb; margin: 1em 0; padding: 0.2em 1em; color: #333; }
img { max-width: 100%; height: auto; }
img.content-img { display: block; max-width: 100%; height: auto; margin: 0.6em auto; }
.quiz-q { margin: 1.2em 0; }
.quiz-choices { list-style-type: upper-alpha; margin: 0.3em 0 0.5em 1.4em; }
.quiz-choices li { margin: 0.2em 0; }
.answer-key { font-family: sans-serif; color: #0b3d5c; margin-top: 1.2em; }
.answer { color: #333; font-size: 0.95em; margin: 0.3em 0; }
.muted { color: #666; font-size: 0.9em; }
.badge-wrap { text-align: center; margin: 0.5em 0 1em; }
img.badge { max-width: 150px; height: auto; }
img.learn-icon { height: 1.1em; width: auto; vertical-align: middle; }
"#;

pub const CONTAINER_XML: &'static str = r#"<?xml version="1.0" encoding="UTF-8"?>
<container version="1.0" xmlns="urn:oasis:names:tc:opendocument:xmlns:container">
  <rootfiles>
    <rootfile full-path="OEBPS/content.opf" media-type="application/oebps-package+xml"/>
  </rootfiles>
</container>
"#;

// ---------------------------------------------------------------------------
// Escaping
// ---------------------------------------------------------------------------

/// A character as XML text and attributes hold it.
pub open spec fn escaped_char(c: char) -> Seq<char> {
    if c == '&' {
        "&amp;"@
    } else if c == '<' {
        "&lt;"@
    } else if c == '>' {
        "&gt;"@
    } else if c == '"' {
        "&quot;"@
    } else {
        seq![c]
    }
}

/// A text as XML text and attributes hold it: each character for itself.
pub open spec fn escaped(s: Seq<char>) -> Seq<char>
    decreases s.len(),
{
    if s.len() == 0 {
        Seq::empty()
    } else {
        escaped(s.drop_last()) + escaped_char(s.last())
    }
}

/// Minimal XML text escaping.
pub fn esc(s: &str) -> (r: String)
    ensures
        r@ == escaped(s@),
{
    let cs = text::chars_of(s);
    let n: usize = cs.len();
    let mut out = String::new();
    for i in 0..n
        invariant
            n == cs@.len(),
            out@ == escaped(cs@.take(i as int)),
    {
        assert(cs@.take(i + 1).drop_last() =~= cs@.take(i as int));
        let c: char = cs[i];
        if c == '&' {
            out.append("&amp;");
        } else if c == '<' {
            out.append("&lt;");
        } else if c == '>' {
            out.append("&gt;");
        } else if c == '"' {
            out.append("&quot;");
        } else {
            let ghost before = out@;
            out.push(c);
            assert(out@ =~= before + seq![c]);
        }
    }
    assert(cs@.take(n as int) =~= cs@);
    out
}

// ---------------------------------------------------------------------------
// Documents
// ---------------------------------------------------------------------------

pub const PAGE_OPEN: &'static str = r#"<?xml version="1.0" encoding="UTF-8"?>
<!DOCTYPE html>
<html xmlns="http://www.w3.org/1999/xhtml" xmlns:epub="http://www.idpf.org/2007/ops" lang="en">
<head>
  <meta charset="utf-8"/>
  <title>"#;

pub const CHAPTER_BODY_OPEN: &'static str = r#"</title>
  <link rel="stylesheet" type="text/css" href="style.css"/>
</head>
<body>
"#;

pub const CHAPTER_CLOSE: &'static str = r#"
</body>
</html>
"#;

/// The heading of a chapter: its title, under the module's name where it opens a module.
pub open spec fn heading_text(title: Seq<char>, module_header: Option<Seq<char>>) -> Seq<char> {
    match module_header {
        Some(m) => "<h1 class=\"module-name\">"@ + escaped(m) + "</h1>\n<h2>"@ + escaped(title)
            + "</h2>"@,
        None => "<h1>"@ + escaped(title) + "</h1>"@,
    }
}

/// The XHTML document of a chapter.
pub open spec fn chapter_text(
    title: Seq<char>,
    module_header: Option<Seq<char>>,
    body: Seq<char>,
) -> Seq<char> {
    PAGE_OPEN@ + escaped(title) + CHAPTER_BODY_OPEN@ + heading_text(title, module_header) + "\n"@
        + body + CHAPTER_CLOSE@
}

/// The XHTML document of a chapter.
pub fn chapter_xhtml(title: &str, module_header: &Option<String>, body: &str) -> (r: String)
    ensures
        r@ == chapter_text(title@, module_header.deep_view(), body@),
{
    let t = esc(title);
    let mut heading = String::new();
    match module_header {
        Some(m) => {
            heading = "<h1 class=\"module-name\">".to_owned();
            heading.append(esc(m.as_str()).as_str());
            heading.append("</h1>\n<h2>");
            heading.append(t.as_str());
            heading.append("</h2>");
        },
        None => {
            heading = "<h1>".to_owned();
            heading.append(t.as_str());
            heading.append("</h1>");
        },
    }
    let mut out = PAGE_OPEN.to_owned();
    out.append(t.as_str());
    out.append(CHAPTER_BODY_OPEN);
    out.append(heading.as_str());
    out.append("\n");
    out.append(body);
    out.append(CHAPTER_CLOSE);
    out
}

/// How many nodes the first `n` entries hold, those below them counted.
pub open spec fn nav_size(entries: Seq<NavView>, n: nat) -> nat
    decreases entries, n,
{
    if n == 0 || n > entries.len() {
        0
    } else {
        let e = entries[n - 1];
        nav_size(entries, (n - 1) as nat) + 1 + nav_size(e.children, e.children.len())
    }
}

/// The first `n` entries as EPUB 2 navigation points, indented by `pad` and numbered in reading
/// order behind `first`.
pub open spec fn navpoints_text(
    entries: Seq<NavView>,
    n: nat,
    first: nat,
    pad: Seq<char>,
) -> Seq<char>
    decreases entries, n,
{
    if n == 0 || n > entries.len() {
        Seq::empty()
    } else {
        let e = entries[n - 1];
        let np = first + nav_size(entries, (n - 1) as nat) + 1;
        navpoints_text(entries, (n - 1) as nat, first, pad) + pad + "<navPoint id=\"np"@
            + text::decimal(np) + "\" playOrder=\""@ + text::decimal(np) + "\">\n"@ + pad
            + "  <navLabel><text>"@ + escaped(e.title) + "</text></navLabel>\n"@ + pad
            + "  <content src=\""@ + escaped(e.href) + "\"/>\n"@ + navpoints_text(
            e.children,
            e.children.len(),
            np,
            pad + "  "@,
        ) + pad + "</navPoint>\n"@
    }
}

proof fn lemma_nav_size_monotonic(entries: Seq<NavView>, n: nat, m: nat)
    requires
        n <= m <= entries.len(),
    ensures
        nav_size(entries, n) <= nav_size(entries, m),
    decreases m - n,
{
    if n < m {
        lemma_nav_size_monotonic(entries, n, (m - 1) as nat);
    }
}

/// The entries as EPUB 2 navigation points. `order` counts the points written so far.
pub fn render_navpoints(entries: &Vec<NavEntry>, order: &mut u32, pad: &str) -> (r: String)
    requires
        *old(order) + nav_size(entries.deep_view(), entries@.len()) <= u32::MAX,
    ensures
        r@ == navpoints_text(entries.deep_view(), entries@.len(), *old(order) as nat, pad@),
        *final(order) == *old(order) + nav_size(entries.deep_view(), entries@.len()),
    decreases entries,
{
    let ghost all = entries.deep_view();
    let ghost first = *order as nat;
    let mut inner = pad.to_owned();
    inner.append("  ");
    let mut s = String::new();
    let n: usize = entries.len();
    for i in 0..n
        invariant
            n == entries@.len(),
            all == entries.deep_view(),
            inner@ == pad@ + "  "@,
            first + nav_size(all, n as nat) <= u32::MAX,
            *order == first + nav_size(all, i as nat),
            s@ == navpoints_text(all, i as nat, first, pad@),
    {
        let e = &entries[i];
        proof {
            lemma_nav_children(*e);
            lemma_nav_size_monotonic(all, (i + 1) as nat, n as nat);
            assert(all[i as int] == e.deep_view());
            assert(e.children.deep_view().len() == e.children@.len());
        }
        *order = *order + 1;
        let np = text::decimal_text(*order as u64);
        s.append(pad);
        s.append("<navPoint id=\"np");
        s.append(np.as_str());
        s.append("\" playOrder=\"");
        s.append(np.as_str());
        s.append("\">\n");
        s.append(pad);
        s.append("  <navLabel><text>");
        s.append(esc(e.title.as_str()).as_str());
        s.append("</text></navLabel>\n");
        s.append(pad);
        s.append("  <content src=\"");
        s.append(esc(e.href.as_str()).as_str());
        s.append("\"/>\n");
        assert(decreases_to!(entries => e.children));
        let below = render_navpoints(&e.children, order, inner.as_str());
        s.append(below.as_str());
        s.append(pad);
        s.append("</navPoint>\n");
    }
    s
}

/// The first `n` entries as items of an EPUB 3 list, indented by `pad`.
pub open spec fn nav_items_text(entries: Seq<NavView>, n: nat, pad: Seq<char>) -> Seq<char>
    decreases entries, n,
{
    if n == 0 || n > entries.len() {
        Seq::empty()
    } else {
        let e = entries[n - 1];
        let item = nav_items_text(entries, (n - 1) as nat, pad) + pad + "  <li><a href=\""@
            + escaped(e.href) + "\">"@ + escaped(e.title) + "</a>"@;
        if e.children.len() == 0 {
            item + "</li>\n"@
        } else {
            item + "\n"@ + nav_list_text(e.children, pad + "    "@) + pad + "  </li>\n"@
        }
    }
}

/// The entries as an EPUB 3 list: nothing where there is none.
pub open spec fn nav_list_text(entries: Seq<NavView>, pad: Seq<char>) -> Seq<char>
    decreases entries, entries.len() + 1,
{
    if entries.len() == 0 {
        Seq::empty()
    } else {
        pad + "<ol>\n"@ + nav_items_text(entries, entries.len(), pad) + pad + "</ol>\n"@
    }
}

/// The items of an EPUB 3 list, indented by `pad`.
fn render_nav_items(entries: &Vec<NavEntry>, pad: &str) -> (r: String)
    ensures
        r@ == nav_items_text(entries.deep_view(), entries@.len(), pad@),
    decreases entries, 0nat,
{
    let ghost all = entries.deep_view();
    let mut inner = pad.to_owned();
    inner.append("    ");
    let mut s = String::new();
    let n: usize = entries.len();
    for i in 0..n
        invariant
            n == entries@.len(),
            all == entries.deep_view(),
            inner@ == pad@ + "    "@,
            s@ == nav_items_text(all, i as nat, pad@),
    {
        let e = &entries[i];
        proof {
            lemma_nav_children(*e);
            assert(all[i as int] == e.deep_view());
        }
        s.append(pad);
        s.append("  <li><a href=\"");
        s.append(esc(e.href.as_str()).as_str());
        s.append("\">");
        s.append(esc(e.title.as_str()).as_str());
        s.append("</a>");
        if e.children.len() > 0 {
            s.append("\n");
            assert(decreases_to!(entries => e.children));
            let below = render_nav_list(&e.children, inner.as_str());
            s.append(below.as_str());
            s.append(pad);
            s.append("  </li>\n");
        } else {
            s.append("</li>\n");
        }
    }
    s
}

/// The entries as an EPUB 3 list, indented by `pad`: nothing where there is none.
pub fn render_nav_list(entries: &Vec<NavEntry>, pad: &str) -> (r: String)
    ensures
        r@ == nav_list_text(entries.deep_view(), pad@),
    decreases entries, 1nat,
{
    if entries.len() == 0 {
        return String::new();
    }
    let mut s = pad.to_owned();
    s.append("<ol>\n");
    let items = render_nav_items(entries, pad);
    s.append(items.as_str());
    s.append(pad);
    s.append("</ol>\n");
    s
}

pub const NAV_BODY_OPEN: &'static str = r#" - Contents</title>
  <link rel="stylesheet" type="text/css" href="style.css"/>
</head>
<body>
  <nav epub:type="toc" id="toc">
    <h1>Contents</h1>
"#;

pub const NAV_CLOSE: &'static str = r#"  </nav>
</body>
</html>
"#;

/// The EPUB 3 navigation document.
pub open spec fn nav_document_text(title: Seq<char>, nav: Seq<NavView>) -> Seq<char> {
    PAGE_OPEN@ + escaped(title) + NAV_BODY_OPEN@ + nav_list_text(nav, "    "@) + NAV_CLOSE@
}

/// The EPUB 3 navigation document.
pub fn nav_xhtml(title: &str, nav: &Vec<NavEntry>) -> (r: String)
    ensures
        r@ == nav_document_text(title@, nav.deep_view()),
{
    let mut s = PAGE_OPEN.to_owned();
    s.append(esc(title).as_str());
    s.append(NAV_BODY_OPEN);
    s.append(render_nav_list(nav, "    ").as_str());
    s.append(NAV_CLOSE);
    s
}

pub const NCX_OPEN: &'static str = r#"<?xml version="1.0" encoding="UTF-8"?>
<ncx xmlns="http://www.daisy.org/z3986/2005/ncx/" version="2005-1">
  <head>
    <meta name="dtb:uid" content=""#;

pub const NCX_HEAD_CLOSE: &'static str = r#""/>
    <meta name="dtb:depth" content="3"/>
    <meta name="dtb:totalPageCount" content="0"/>
    <meta name="dtb:maxPageNumber" content="0"/>
  </head>
  <docTitle><text>"#;

pub const NCX_MAP_OPEN: &'static str = r#"</text></docTitle>
  <navMap>
"#;

pub const NCX_CLOSE: &'static str = r#"  </navMap>
</ncx>
"#;

/// The EPUB 2 table of contents.
pub open spec fn ncx_text(title: Seq<char>, identifier: Seq<char>, nav: Seq<NavView>) -> Seq<char> {
    NCX_OPEN@ + escaped(identifier) + NCX_HEAD_CLOSE@ + escaped(title) + NCX_MAP_OPEN@
        + navpoints_text(nav, nav.len(), 0, "    "@) + NCX_CLOSE@
}

/// The EPUB 2 table of contents, for readers that know no other.
pub fn ncx(title: &str, identifier: &str, nav: &Vec<NavEntry>) -> (r: String)
    requires
        nav_size(nav.deep_view(), nav@.len()) <= u32::MAX,
    ensures
        r@ == ncx_text(title@, identifier@, nav.deep_view()),
{
    let mut order: u32 = 0;
    let points = render_navpoints(nav, &mut order, "    ");
    let mut s = NCX_OPEN.to_owned();
    s.append(esc(identifier).as_str());
    s.append(NCX_HEAD_CLOSE);
    s.append(esc(title).as_str());
    s.append(NCX_MAP_OPEN);
    s.append(points.as_str());
    s.append(NCX_CLOSE);
    s
}

/// The manifest items of the first `n` chapters.
pub open spec fn manifest_chapters_text(chapters: Seq<ChapterView>, n: nat) -> Seq<char>
    decreases n,
{
    if n == 0 {
        Seq::empty()
    } else {
        manifest_chapters_text(chapters, (n - 1) as nat) + "    <item id=\""@ + escaped(
            chapters[n - 1].id,
        ) + "\" href=\""@ + escaped(chapters[n - 1].filename)
            + "\" media-type=\"application/xhtml+xml\"/>\n"@
    }
}

/// The manifest items of all chapters and then of the first `n` resources, numbered from zero.
pub open spec fn manifest_text(
    chapters: Seq<ChapterView>,
    resources: Seq<ResourceView>,
    n: nat,
) -> Seq<char>
    decreases n,
{
    if n == 0 {
        manifest_chapters_text(chapters, chapters.len())
    } else {
        manifest_text(chapters, resources, (n - 1) as nat) + "    <item id=\"res"@
            + text::decimal((n - 1) as nat) + "\" href=\""@ + escaped(resources[n - 1].filename)
            + "\" media-type=\""@ + escaped(resources[n - 1].media_type) + "\"/>\n"@
    }
}

/// The spine: the first `n` chapters in reading order.
pub open spec fn spine_text(chapters: Seq<ChapterView>, n: nat) -> Seq<char>
    decreases n,
{
    if n == 0 {
        Seq::empty()
    } else {
        spine_text(chapters, (n - 1) as nat) + "    <itemref idref=\""@ + escaped(
            chapters[n - 1].id,
        ) + "\"/>\n"@
    }
}

pub const OPF_OPEN: &'static str = r#"<?xml version="1.0" encoding="UTF-8"?>
<package xmlns="http://www.idpf.org/2007/opf" version="3.0" unique-identifier="bookid">
  <metadata xmlns:dc="http://purl.org/dc/elements/1.1/">
    <dc:identifier id="bookid">"#;

pub const OPF_TITLE: &'static str = r#"</dc:identifier>
    <dc:title>"#;

pub const OPF_LANGUAGE: &'static str = r#"</dc:title>
    <dc:language>"#;

pub const OPF_MODIFIED: &'static str = r#"</dc:language>
    <meta property="dcterms:modified">"#;

pub const OPF_MANIFEST: &'static str = r#"</meta>
  </metadata>
  <manifest>
    <item id="nav" href="nav.xhtml" media-type="application/xhtml+xml" properties="nav"/>
    <item id="ncx" href="toc.ncx" media-type="application/x-dtbncx+xml"/>
    <item id="css" href="style.css" media-type="text/css"/>
"#;

pub const OPF_SPINE: &'static str = r#"  </manifest>
  <spine toc="ncx">
"#;

pub const OPF_CLOSE: &'static str = r#"  </spine>
</package>
"#;

/// The package document: metadata, manifest and spine.
pub open spec fn opf_text(
    title: Seq<char>,
    identifier: Seq<char>,
    modified: Seq<char>,
    language: Seq<char>,
    chapters: Seq<ChapterView>,
    resources: Seq<ResourceView>,
) -> Seq<char> {
    OPF_OPEN@ + escaped(identifier) + OPF_TITLE@ + escaped(title) + OPF_LANGUAGE@ + escaped(
        language,
    ) + OPF_MODIFIED@ + escaped(modified) + OPF_MANIFEST@ + manifest_text(
        chapters,
        resources,
        resources.len(),
    ) + OPF_SPINE@ + spine_text(chapters, chapters.len()) + OPF_CLOSE@
}

/// The package document.
pub fn opf(
    title: &str,
    identifier: &str,
    modified: &str,
    language: &str,
    chapters: &[Chapter],
    resources: &[Resource],
) -> (r: String)
    ensures
        r@ == opf_text(
            title@,
            identifier@,
            modified@,
            language@,
            chapters.deep_view(),
            resources.deep_view(),
        ),
{
    let mut manifest = String::new();
    let mut spine = String::new();
    let n: usize = chapters.len();
    for i in 0..n
        invariant
            n == chapters@.len(),
            manifest@ == manifest_chapters_text(chapters.deep_view(), i as nat),
            spine@ == spine_text(chapters.deep_view(), i as nat),
    {
        let ch = &chapters[i];
        assert(chapters.deep_view()[i as int] == ch.deep_view());
        let id = esc(ch.id.as_str());
        manifest.append("    <item id=\"");
        manifest.append(id.as_str());
        manifest.append("\" href=\"");
        manifest.append(esc(ch.filename.as_str()).as_str());
        manifest.append("\" media-type=\"application/xhtml+xml\"/>\n");
        spine.append("    <itemref idref=\"");
        spine.append(id.as_str());
        spine.append("\"/>\n");
    }
    let m: usize = resources.len();
    for i in 0..m
        invariant
            m == resources@.len(),
            manifest@ == manifest_text(chapters.deep_view(), resources.deep_view(), i as nat),
    {
        let r = &resources[i];
        assert(resources.deep_view()[i as int] == r.deep_view());
        manifest.append("    <item id=\"res");
        manifest.append(text::decimal_text(i as u64).as_str());
        manifest.append("\" href=\"");
        manifest.append(esc(r.filename.as_str()).as_str());
        manifest.append("\" media-type=\"");
        manifest.append(esc(r.media_type.as_str()).as_str());
        manifest.append("\"/>\n");
    }
    let mut s = OPF_OPEN.to_owned();
    s.append(esc(identifier).as_str());
    s.append(OPF_TITLE);
    s.append(esc(title).as_str());
    s.append(OPF_LANGUAGE);
    s.append(esc(language).as_str());
    s.append(OPF_MODIFIED);
    s.append(esc(modified).as_str());
    s.append(OPF_MANIFEST);
    s.append(manifest.as_str());
    s.append(OPF_SPINE);
    s.append(spine.as_str());
    s.append(OPF_CLOSE);
    s
}

// ---------------------------------------------------------------------------
// The package
// ---------------------------------------------------------------------------

/// One file of the package, before it is packed.
pub struct PackageFile {
    pub name: String,
    pub packing: Packing,
    pub data: Vec<u8>,
}

impl DeepView for PackageFile {
    type V = (Seq<char>, bool, Seq<u8>);

    open spec fn deep_view(&self) -> (Seq<char>, bool, Seq<u8>) {
        (self.name@, self.packing == Packing::Stored, self.data@)
    }
}

/// A deflated file that holds `content` in UTF-8.
pub open spec fn text_file(name: Seq<char>, content: Seq<char>) -> (Seq<char>, bool, Seq<u8>) {
    (name, false, vstd::utf8::encode_utf8(content))
}

/// The name that a file beside the package document has in the archive.
pub open spec fn oebps_name(filename: Seq<char>) -> Seq<char> {
    "OEBPS/"@ + filename
}

pub open spec fn chapter_file(c: ChapterView) -> (Seq<char>, bool, Seq<u8>) {
    text_file(oebps_name(c.filename), chapter_text(c.title, c.module_header, c.body))
}

pub open spec fn resource_file(r: ResourceView) -> (Seq<char>, bool, Seq<u8>) {
    (oebps_name(r.filename), false, r.data)
}

/// The files in front of the chapters.
pub open spec fn front_files(
    title: Seq<char>,
    identifier: Seq<char>,
    nav: Seq<NavView>,
) -> Seq<(Seq<char>, bool, Seq<u8>)> {
    seq![
        ("mimetype"@, true, vstd::utf8::encode_utf8("application/epub+zip"@)),
        text_file("META-INF/container.xml"@, CONTAINER_XML@),
        text_file("OEBPS/style.css"@, CSS@),
        text_file("OEBPS/nav.xhtml"@, nav_document_text(title, nav)),
        text_file("OEBPS/toc.ncx"@, ncx_text(title, identifier, nav)),
    ]
}

/// The files of the package in the order in which they are packed.
pub open spec fn package_view(
    title: Seq<char>,
    identifier: Seq<char>,
    modified: Seq<char>,
    language: Seq<char>,
    chapters: Seq<ChapterView>,
    nav: Seq<NavView>,
    resources: Seq<ResourceView>,
) -> Seq<(Seq<char>, bool, Seq<u8>)> {
    front_files(title, identifier, nav) + chapters.map_values(|c: ChapterView| chapter_file(c))
        + resources.map_values(|r: ResourceView| resource_file(r)) + seq![
        text_file(
            "OEBPS/content.opf"@,
            opf_text(title, identifier, modified, language, chapters, resources),
        ),
    ]
}

/// The names of the chapters and of the resources fit an archive.
pub open spec fn names_fit(chapters: Seq<ChapterView>, resources: Seq<ResourceView>) -> bool {
    &&& forall|i: int|
        0 <= i < chapters.len() ==> archive::name_fits(oebps_name(#[trigger] chapters[i].filename))
    &&& forall|i: int|
        0 <= i < resources.len() ==> archive::name_fits(
            oebps_name(#[trigger] resources[i].filename),
        )
}

fn text_entry(name: &str, content: &str) -> (r: PackageFile)
    ensures
        r.deep_view() == text_file(name@, content@),
{
    PackageFile {
        name: name.to_owned(),
        packing: Packing::Deflated,
        data: content.as_bytes_vec(),
    }
}

fn oebps_path(filename: &str) -> (r: String)
    ensures
        r@ == oebps_name(filename@),
{
    let mut s = "OEBPS/".to_owned();
    s.append(filename);
    s
}

/// The files of the package in the order in which they are packed.
pub fn package_files(
    title: &str,
    identifier: &str,
    modified: &str,
    language: &str,
    chapters: &[Chapter],
    nav: &Vec<NavEntry>,
    resources: &[Resource],
) -> (r: Vec<PackageFile>)
    requires
        nav_size(nav.deep_view(), nav@.len()) <= u32::MAX,
    ensures
        r.deep_view() == package_view(
            title@,
            identifier@,
            modified@,
            language@,
            chapters.deep_view(),
            nav.deep_view(),
            resources.deep_view(),
        ),
{
    let mut files: Vec<PackageFile> = Vec::new();
    text::push_item(
        &mut files,
        PackageFile {
            name: "mimetype".to_owned(),
            packing: Packing::Stored,
            data: "application/epub+zip".as_bytes_vec(),
        },
    );
    text::push_item(&mut files, text_entry("META-INF/container.xml", CONTAINER_XML));
    text::push_item(&mut files, text_entry("OEBPS/style.css", CSS));
    text::push_item(&mut files, text_entry("OEBPS/nav.xhtml", nav_xhtml(title, nav).as_str()));
    text::push_item(&mut files, text_entry("OEBPS/toc.ncx", ncx(title, identifier, nav).as_str()));
    let ghost front = front_files(title@, identifier@, nav.deep_view());
    assert(files.deep_view() =~= front);
    let ghost chs = chapters.deep_view();
    let ghost rss = resources.deep_view();
    let n: usize = chapters.len();
    for i in 0..n
        invariant
            n == chapters@.len(),
            chs == chapters.deep_view(),
            files.deep_view() =~= front + chs.take(i as int).map_values(
                |c: ChapterView| chapter_file(c),
            ),
    {
        let ch = &chapters[i];
        assert(chs[i as int] == ch.deep_view());
        let page = chapter_xhtml(ch.title.as_str(), &ch.module_header, ch.body.as_str());
        text::push_item(
            &mut files,
            text_entry(oebps_path(ch.filename.as_str()).as_str(), page.as_str()),
        );
    }
    assert(chs.take(n as int) =~= chs);
    let ghost middle = files.deep_view();
    let m: usize = resources.len();
    for i in 0..m
        invariant
            m == resources@.len(),
            rss == resources.deep_view(),
            files.deep_view() =~= middle + rss.take(i as int).map_values(
                |r: ResourceView| resource_file(r),
            ),
    {
        let r = &resources[i];
        assert(rss[i as int] == r.deep_view());
        let data = vstd::slice::slice_to_vec(r.data.as_slice());
        text::push_item(
            &mut files,
            PackageFile {
                name: oebps_path(r.filename.as_str()),
                packing: Packing::Deflated,
                data,
            },
        );
    }
    assert(rss.take(m as int) =~= rss);
    let package = opf(title, identifier, modified, language, chapters, resources);
    text::push_item(&mut files, text_entry("OEBPS/content.opf", package.as_str()));
    files
}

/// Why an archive could not be written.
#[derive(Debug)]
pub struct PackError {
    pub message: String,
}

/// Packs the files into an archive, in their order.
fn pack(files: &Vec<PackageFile>) -> (r: Result<Vec<u8>, PackError>)
    requires
        forall|i: int| 0 <= i < files@.len() ==> archive::name_fits(#[trigger] files@[i].name@),
    ensures
        r is Ok <==> archive::packs(files.deep_view()),
        r is Ok ==> archive::archive_entries(r->Ok_0@) == files.deep_view(),
        r is Ok ==> archive::names_differ(files.deep_view()),
{
    let ghost all = files.deep_view();
    let mut zip = archive::zip_new();
    let n: usize = files.len();
    assert(archive::zip_entries(zip) =~= all.take(0));
    for i in 0..n
        invariant
            n == files@.len(),
            all == files.deep_view(),
            forall|j: int|
                0 <= j < files@.len() ==> archive::name_fits(#[trigger] files@[j].name@),
            archive::zip_entries(zip) == all.take(i as int),
            archive::names_differ(archive::zip_entries(zip)),
            archive::packs_first(all, i as nat),
    {
        let f = &files[i];
        assert(all[i as int] == f.deep_view());
        proof {
            if archive::packs_first(all, n as nat) {
                archive::lemma_packs_prefix(all, (i + 1) as nat, n as nat);
            }
        }
        match archive::zip_start(zip, f.name.as_str(), f.packing) {
            Ok(w) => {
                zip = w;
            },
            Err(e) => {
                return Err(PackError { message: archive::io_error_text(&e) });
            },
        }
        let ghost started = archive::zip_entries(zip);
        match archive::zip_write(zip, f.data.as_slice()) {
            Ok(w) => {
                zip = w;
            },
            Err(e) => {
                return Err(PackError { message: archive::io_error_text(&e) });
            },
        }
        assert(archive::names_differ(archive::zip_entries(zip))) by {
            assert forall|j: int| 0 <= j < started.len() implies (#[trigger] archive::zip_entries(
                zip,
            )[j]).0 == started[j].0 by {}
        }
        assert(archive::zip_entries(zip) =~= all.take(i + 1));
    }
    assert(all.take(n as int) =~= all);
    match archive::zip_finish(zip) {
        Ok(bytes) => Ok(bytes),
        Err(e) => Err(PackError { message: archive::io_error_text(&e) }),
    }
}

/// Builds a complete EPUB from ordered chapters.
///
/// `title`, `identifier` and `modified` go into the package document; `modified` must be an
/// `xsd:dateTime` (e.g. `2026-06-15T00:00:00Z`) for EPUB 3. It fails where the `zip` crate cannot
/// write the archive, and only there: that crate refuses, for one, two files of one name.
pub fn build_epub(
    title: &str,
    identifier: &str,
    modified: &str,
    language: &str,
    chapters: &[Chapter],
    nav: &Vec<NavEntry>,
    resources: &[Resource],
) -> (r: Result<Vec<u8>, PackError>)
    requires
        nav_size(nav.deep_view(), nav@.len()) <= u32::MAX,
        names_fit(chapters.deep_view(), resources.deep_view()),
    ensures
        r is Ok <==> archive::packs(
            package_view(
                title@,
                identifier@,
                modified@,
                language@,
                chapters.deep_view(),
                nav.deep_view(),
                resources.deep_view(),
            ),
        ),
        r is Ok ==> archive::archive_entries(r->Ok_0@) == package_view(
            title@,
            identifier@,
            modified@,
            language@,
            chapters.deep_view(),
            nav.deep_view(),
            resources.deep_view(),
        ),
        r is Ok ==> archive::names_differ(
            package_view(
                title@,
                identifier@,
                modified@,
                language@,
                chapters.deep_view(),
                nav.deep_view(),
                resources.deep_view(),
            ),
        ),
{
    let files = package_files(title, identifier, modified, language, chapters, nav, resources);
    proof {
        lemma_package_names_fit(
            title@,
            identifier@,
            modified@,
            language@,
            chapters.deep_view(),
            nav.deep_view(),
            resources.deep_view(),
        );
        assert forall|i: int| 0 <= i < files@.len() implies archive::name_fits(
            #[trigger] files@[i].name@,
        ) by {
            assert(files.deep_view()[i] == files@[i].deep_view());
        }
    }
    pack(&files)
}

/// Text in ASCII takes one byte for each character.
pub proof fn lemma_ascii_name_fits(name: Seq<char>)
    requires
        text::all_ascii(name),
        name.len() <= 65535,
    ensures
        archive::name_fits(name),
{
    vstd::utf8::is_ascii_chars_encode_utf8(name);
}

proof fn lemma_package_names_fit(
    title: Seq<char>,
    identifier: Seq<char>,
    modified: Seq<char>,
    language: Seq<char>,
    chapters: Seq<ChapterView>,
    nav: Seq<NavView>,
    resources: Seq<ResourceView>,
)
    requires
        names_fit(chapters, resources),
    ensures
        forall|i: int|
            0 <= i < package_view(
                title,
                identifier,
                modified,
                language,
                chapters,
                nav,
                resources,
            ).len() ==> archive::name_fits(
                (#[trigger] package_view(
                    title,
                    identifier,
                    modified,
                    language,
                    chapters,
                    nav,
                    resources,
                )[i]).0,
            ),
{
    reveal_strlit("mimetype");
    reveal_strlit("META-INF/container.xml");
    reveal_strlit("OEBPS/style.css");
    reveal_strlit("OEBPS/nav.xhtml");
    reveal_strlit("OEBPS/toc.ncx");
    reveal_strlit("OEBPS/content.opf");
    lemma_ascii_name_fits("mimetype"@);
    lemma_ascii_name_fits("META-INF/container.xml"@);
    lemma_ascii_name_fits("OEBPS/style.css"@);
    lemma_ascii_name_fits("OEBPS/nav.xhtml"@);
    lemma_ascii_name_fits("OEBPS/toc.ncx"@);
    lemma_ascii_name_fits("OEBPS/content.opf"@);
    let p = package_view(title, identifier, modified, language, chapters, nav, resources);
    let front = front_files(title, identifier, nav);
    let n = chapters.len();
    let m = resources.len();
    assert forall|i: int| 0 <= i < p.len() implies archive::name_fits((#[trigger] p[i]).0) by {
        if i < 5 {
            assert(p[i] == front[i]);
        } else if i < 5 + n {
            assert(p[i] == chapter_file(chapters[i - 5]));
            assert(archive::name_fits(oebps_name(chapters[i - 5].filename)));
        } else if i < 5 + n + m {
            assert(p[i] == resource_file(resources[i - 5 - n]));
            assert(archive::name_fits(oebps_name(resources[i - 5 - n].filename)));
        }
    }
}

// ---------------------------------------------------------------------------
// Laws
// ---------------------------------------------------------------------------

/// An EPUB begins with its media type, uncompressed, as readers expect it.
pub proof fn law_mimetype_is_first_and_stored(
    title: Seq<char>,
    identifier: Seq<char>,
    modified: Seq<char>,
    language: Seq<char>,
    chapters: Seq<ChapterView>,
    nav: Seq<NavView>,
    resources: Seq<ResourceView>,
)
    ensures
        package_view(title, identifier, modified, language, chapters, nav, resources)[0] == (
            "mimetype"@,
            true,
            vstd::utf8::encode_utf8("application/epub+zip"@),
        ),
        forall|i: int|
            1 <= i < package_view(
                title,
                identifier,
                modified,
                language,
                chapters,
                nav,
                resources,
            ).len() ==> !(#[trigger] package_view(
                title,
                identifier,
                modified,
                language,
                chapters,
                nav,
                resources,
            )[i]).1,
{
    let all = package_view(title, identifier, modified, language, chapters, nav, resources);
    let front = front_files(title, identifier, nav);
    let middle = chapters.map_values(|c: ChapterView| chapter_file(c));
    let images = resources.map_values(|r: ResourceView| resource_file(r));
    assert forall|i: int| 1 <= i < all.len() implies !(#[trigger] all[i]).1 by {
        if i < front.len() {
            assert(all[i] == front[i]);
        } else if i < front.len() + middle.len() {
            assert(all[i] == middle[i - front.len()]);
        } else if i < front.len() + middle.len() + images.len() {
            assert(all[i] == images[i - front.len() - middle.len()]);
        }
    }
}

/// The files beside the package document, and itself.
pub open spec fn local_files(
    chapters: Seq<ChapterView>,
    resources: Seq<ResourceView>,
) -> Seq<Seq<char>> {
    seq!["style.css"@, "nav.xhtml"@, "toc.ncx"@] + Seq::new(
        chapters.len(),
        |i: int| chapters[i].filename,
    ) + Seq::new(resources.len(), |i: int| resources[i].filename) + seq!["content.opf"@]
}

/// Where the chapters and the images are in files of their own, no two files of the package have
/// one name.
pub proof fn law_own_files_own_names(
    title: Seq<char>,
    identifier: Seq<char>,
    modified: Seq<char>,
    language: Seq<char>,
    chapters: Seq<ChapterView>,
    nav: Seq<NavView>,
    resources: Seq<ResourceView>,
)
    requires
        local_files(chapters, resources).no_duplicates(),
    ensures
        archive::names_differ(
            package_view(title, identifier, modified, language, chapters, nav, resources),
        ),
{
    let p = package_view(title, identifier, modified, language, chapters, nav, resources);
    let local = local_files(chapters, resources);
    let front = front_files(title, identifier, nav);
    let n = chapters.len();
    reveal_strlit("mimetype");
    reveal_strlit("META-INF/container.xml");
    reveal_strlit("OEBPS/");
    assert(p.len() == local.len() + 2);
    assert forall|i: int| 2 <= i < p.len() implies (#[trigger] p[i]).0 == oebps_name(local[i - 2]) by {
        if i < 5 {
            assert(p[i] == front[i]);
            lemma_front_names();
        } else if i < 5 + n {
            assert(p[i] == chapter_file(chapters[i - 5]));
        } else if i < 5 + n + resources.len() {
            assert(p[i] == resource_file(resources[i - 5 - n]));
        } else {
            lemma_front_names();
        }
    }
    assert forall|i: int, j: int| 0 <= i < j < p.len() implies (#[trigger] p[i]).0 != (
    #[trigger] p[j]).0 by {
        assert(p[0] == front[0] && p[1] == front[1]);
        assert(p[0].0[0] == 'm' && p[1].0[0] == 'M');
        if i >= 2 {
            let a = local[i - 2];
            let b = local[j - 2];
            assert(a != b);
            if oebps_name(a) == oebps_name(b) {
                assert(a =~= oebps_name(a).skip(6));
                assert(b =~= oebps_name(b).skip(6));
            }
        } else if j >= 2 {
            assert(oebps_name(local[j - 2])[0] == 'O');
        }
    }
}

proof fn lemma_front_names()
    ensures
        "OEBPS/style.css"@ == oebps_name("style.css"@),
        "OEBPS/nav.xhtml"@ == oebps_name("nav.xhtml"@),
        "OEBPS/toc.ncx"@ == oebps_name("toc.ncx"@),
        "OEBPS/content.opf"@ == oebps_name("content.opf"@),
{
    reveal_strlit("OEBPS/");
    reveal_strlit("style.css");
    reveal_strlit("nav.xhtml");
    reveal_strlit("toc.ncx");
    reveal_strlit("content.opf");
    reveal_strlit("OEBPS/style.css");
    reveal_strlit("OEBPS/nav.xhtml");
    reveal_strlit("OEBPS/toc.ncx");
    reveal_strlit("OEBPS/content.opf");
    assert("OEBPS/style.css"@ =~= oebps_name("style.css"@));
    assert("OEBPS/nav.xhtml"@ =~= oebps_name("nav.xhtml"@));
    assert("OEBPS/toc.ncx"@ =~= oebps_name("toc.ncx"@));
    assert("OEBPS/content.opf"@ =~= oebps_name("content.opf"@));
}

/// The manifest item of a chapter.
pub open spec fn manifest_item(c: ChapterView) -> Seq<char> {
    "    <item id=\""@ + escaped(c.id) + "\" href=\""@ + escaped(c.filename)
        + "\" media-type=\"application/xhtml+xml\"/>\n"@
}

/// The spine item of a chapter.
pub open spec fn spine_item(c: ChapterView) -> Seq<char> {
    "    <itemref idref=\""@ + escaped(c.id) + "\"/>\n"@
}

proof fn lemma_manifest_has(chapters: Seq<ChapterView>, i: int, n: nat)
    requires
        0 <= i < n <= chapters.len(),
    ensures
        text::contains_text(manifest_chapters_text(chapters, n), manifest_item(chapters[i])),
        text::contains_text(spine_text(chapters, n), spine_item(chapters[i])),
    decreases n,
{
    let m = manifest_chapters_text(chapters, (n - 1) as nat);
    let s = spine_text(chapters, (n - 1) as nat);
    let c = chapters[n - 1];
    assert(manifest_chapters_text(chapters, n) =~= m + manifest_item(c));
    assert(spine_text(chapters, n) =~= s + spine_item(c));
    text::lemma_contains_cat(m, manifest_item(c), manifest_item(chapters[i]));
    text::lemma_contains_cat(s, spine_item(c), spine_item(chapters[i]));
    if i < n - 1 {
        lemma_manifest_has(chapters, i, (n - 1) as nat);
    }
}

proof fn lemma_manifest_keeps(
    chapters: Seq<ChapterView>,
    resources: Seq<ResourceView>,
    n: nat,
    item: Seq<char>,
)
    requires
        text::contains_text(manifest_chapters_text(chapters, chapters.len()), item),
    ensures
        text::contains_text(manifest_text(chapters, resources, n), item),
    decreases n,
{
    if n > 0 {
        lemma_manifest_keeps(chapters, resources, (n - 1) as nat, item);
        let before = manifest_text(chapters, resources, (n - 1) as nat);
        let line = "    <item id=\"res"@ + text::decimal((n - 1) as nat) + "\" href=\""@ + escaped(
            resources[n - 1].filename,
        ) + "\" media-type=\""@ + escaped(resources[n - 1].media_type) + "\"/>\n"@;
        assert(manifest_text(chapters, resources, n) =~= before + line);
        text::lemma_contains_cat(before, line, item);
    }
}

/// Every chapter is in the archive, is listed in the manifest and has its place in the spine.
pub proof fn law_every_chapter_is_in_the_package(
    title: Seq<char>,
    identifier: Seq<char>,
    modified: Seq<char>,
    language: Seq<char>,
    chapters: Seq<ChapterView>,
    nav: Seq<NavView>,
    resources: Seq<ResourceView>,
    i: int,
)
    requires
        0 <= i < chapters.len(),
    ensures
        package_view(title, identifier, modified, language, chapters, nav, resources).contains(
            chapter_file(chapters[i]),
        ),
        text::contains_text(
            opf_text(title, identifier, modified, language, chapters, resources),
            manifest_item(chapters[i]),
        ),
        text::contains_text(
            opf_text(title, identifier, modified, language, chapters, resources),
            spine_item(chapters[i]),
        ),
{
    let all = package_view(title, identifier, modified, language, chapters, nav, resources);
    assert(all[5 + i] == chapter_file(chapters[i]));
    lemma_manifest_has(chapters, i, chapters.len());
    lemma_manifest_keeps(chapters, resources, resources.len(), manifest_item(chapters[i]));
    let head = OPF_OPEN@ + escaped(identifier) + OPF_TITLE@ + escaped(title) + OPF_LANGUAGE@
        + escaped(language) + OPF_MODIFIED@ + escaped(modified) + OPF_MANIFEST@;
    let manifest = manifest_text(chapters, resources, resources.len());
    let spine = spine_text(chapters, chapters.len());
    text::lemma_contains_cat(head, manifest, manifest_item(chapters[i]));
    text::lemma_contains_cat(head + manifest, OPF_SPINE@, manifest_item(chapters[i]));
    text::lemma_contains_cat(head + manifest + OPF_SPINE@, spine, manifest_item(chapters[i]));
    text::lemma_contains_cat(head + manifest + OPF_SPINE@, spine, spine_item(chapters[i]));
    text::lemma_contains_cat(
        head + manifest + OPF_SPINE@ + spine,
        OPF_CLOSE@,
        manifest_item(chapters[i]),
    );
    text::lemma_contains_cat(
        head + manifest + OPF_SPINE@ + spine,
        OPF_CLOSE@,
        spine_item(chapters[i]),
    );
}

/// A reference for one of the escaped characters begins at `i`.
pub open spec fn escape_at(s: Seq<char>, i: int) -> bool {
    ||| text::occurs_at(s, "&amp;"@, i)
    ||| text::occurs_at(s, "&lt;"@, i)
    ||| text::occurs_at(s, "&gt;"@, i)
    ||| text::occurs_at(s, "&quot;"@, i)
}

/// Escaped text holds no markup: no angle bracket, no double quote, and no ampersand but that of
/// a reference.
pub proof fn law_escaped_holds_no_markup(s: Seq<char>)
    ensures
        forall|i: int|
            0 <= i < escaped(s).len() ==> #[trigger] escaped(s)[i] != '<' && escaped(s)[i] != '>'
                && escaped(s)[i] != '"' && (escaped(s)[i] == '&' ==> escape_at(escaped(s), i)),
    decreases s.len(),
{
    if s.len() > 0 {
        let a = escaped(s.drop_last());
        let c = s.last();
        let b = escaped_char(c);
        law_escaped_holds_no_markup(s.drop_last());
        reveal_strlit("&amp;");
        reveal_strlit("&lt;");
        reveal_strlit("&gt;");
        reveal_strlit("&quot;");
        let whole = a + b;
        assert(escaped(s) == whole);
        assert forall|i: int| 0 <= i < whole.len() implies #[trigger] whole[i] != '<' && whole[i]
            != '>' && whole[i] != '"' && (whole[i] == '&' ==> escape_at(whole, i)) by {
            if i < a.len() {
                assert(whole[i] == a[i]);
                if a[i] == '&' {
                    assert(escape_at(a, i));
                    lemma_escape_at_keeps(a, b, i);
                }
            } else {
                assert(whole[i] == b[i - a.len()]);
                if whole[i] == '&' {
                    assert(i == a.len());
                    assert(whole.subrange(i, i + b.len()) =~= b);
                }
            }
        }
    }
}

/// Escaping works character by character: what is put together before it can be put together
/// after it.
pub proof fn law_escaped_distributes(a: Seq<char>, b: Seq<char>)
    ensures
        escaped(a + b) == escaped(a) + escaped(b),
    decreases b.len(),
{
    if b.len() == 0 {
        assert(a + b =~= a);
        assert(escaped(a) + escaped(b) =~= escaped(a));
    } else {
        law_escaped_distributes(a, b.drop_last());
        assert((a + b).drop_last() =~= a + b.drop_last());
        assert((a + b).last() == b.last());
        assert(escaped(a) + escaped(b) =~= escaped(a) + escaped(b.drop_last()) + escaped_char(
            b.last(),
        ));
    }
}

/// What a reader makes of escaped text: each reference for an escaped character is that
/// character, read once from the front.
pub open spec fn unescaped(s: Seq<char>) -> Seq<char>
    decreases s.len(),
{
    proof {
        reveal_strlit("&amp;");
        reveal_strlit("&lt;");
        reveal_strlit("&gt;");
        reveal_strlit("&quot;");
    }
    if s.len() == 0 {
        Seq::empty()
    } else if text::has_prefix(s, "&amp;"@) {
        seq!['&'] + unescaped(s.skip(5))
    } else if text::has_prefix(s, "&lt;"@) {
        seq!['<'] + unescaped(s.skip(4))
    } else if text::has_prefix(s, "&gt;"@) {
        seq!['>'] + unescaped(s.skip(4))
    } else if text::has_prefix(s, "&quot;"@) {
        seq!['"'] + unescaped(s.skip(6))
    } else {
        seq![s[0]] + unescaped(s.skip(1))
    }
}

proof fn lemma_unescaped_front(c: char, rest: Seq<char>)
    ensures
        unescaped(escaped_char(c) + rest) == seq![c] + unescaped(rest),
{
    reveal_strlit("&amp;");
    reveal_strlit("&lt;");
    reveal_strlit("&gt;");
    reveal_strlit("&quot;");
    let e = escaped_char(c);
    let s = e + rest;
    assert(s.subrange(0, e.len() as int) =~= e);
    assert(s.skip(e.len() as int) =~= rest);
    if c == '<' || c == '>' || c == '"' {
        assert(s[1] == e[1]);
        if text::has_prefix(s, "&amp;"@) {
            assert(s.subrange(0, 5)[1] == s[1]);
        }
        if text::has_prefix(s, "&lt;"@) {
            assert(s.subrange(0, 4)[1] == s[1]);
        }
        if text::has_prefix(s, "&gt;"@) {
            assert(s.subrange(0, 4)[1] == s[1]);
        }
    } else if c != '&' {
        assert(s[0] == c);
        if text::has_prefix(s, "&amp;"@) {
            assert(s.subrange(0, 5)[0] == s[0]);
        }
        if text::has_prefix(s, "&lt;"@) {
            assert(s.subrange(0, 4)[0] == s[0]);
        }
        if text::has_prefix(s, "&gt;"@) {
            assert(s.subrange(0, 4)[0] == s[0]);
        }
        if text::has_prefix(s, "&quot;"@) {
            assert(s.subrange(0, 6)[0] == s[0]);
        }
    }
}

/// Escaping loses nothing: decoding escaped text once gives the text back.
pub proof fn law_unescaping_gives_the_text_back(s: Seq<char>)
    ensures
        unescaped(escaped(s)) == s,
    decreases s.len(),
{
    if s.len() > 0 {
        let c = s[0];
        let rest = s.skip(1);
        law_unescaping_gives_the_text_back(rest);
        law_escaped_distributes(seq![c], rest);
        assert(seq![c] + rest =~= s);
        assert(seq![c].drop_last() =~= Seq::<char>::empty());
        assert(escaped(seq![c]) =~= escaped_char(c)) by {
            reveal_with_fuel(escaped, 2);
        }
        lemma_unescaped_front(c, escaped(rest));
    }
}

proof fn lemma_escape_at_keeps(a: Seq<char>, b: Seq<char>, i: int)
    requires
        escape_at(a, i),
    ensures
        escape_at(a + b, i),
{
    if text::occurs_at(a, "&amp;"@, i) {
        assert((a + b).subrange(i, i + "&amp;"@.len()) =~= a.subrange(i, i + "&amp;"@.len()));
    } else if text::occurs_at(a, "&lt;"@, i) {
        assert((a + b).subrange(i, i + "&lt;"@.len()) =~= a.subrange(i, i + "&lt;"@.len()));
    } else if text::occurs_at(a, "&gt;"@, i) {
        assert((a + b).subrange(i, i + "&gt;"@.len()) =~= a.subrange(i, i + "&gt;"@.len()));
    } else {
        assert((a + b).subrange(i, i + "&quot;"@.len()) =~= a.subrange(i, i + "&quot;"@.len()));
    }
}

proof fn lemma_spine_take(chapters: Seq<ChapterView>, more: Seq<ChapterView>, n: nat)
    requires
        n <= chapters.len(),
    ensures
        spine_text(chapters + more, n) == spine_text(chapters, n),
        manifest_chapters_text(chapters + more, n) == manifest_chapters_text(chapters, n),
    decreases n,
{
    if n > 0 {
        lemma_spine_take(chapters, more, (n - 1) as nat);
    }
}

proof fn lemma_spine_cat(a: Seq<ChapterView>, b: Seq<ChapterView>, n: nat)
    requires
        n <= b.len(),
    ensures
        spine_text(a + b, a.len() + n) == spine_text(a, a.len()) + spine_text(b, n),
        manifest_chapters_text(a + b, a.len() + n) == manifest_chapters_text(a, a.len())
            + manifest_chapters_text(b, n),
    decreases n,
{
    if n == 0 {
        lemma_spine_take(a, b, a.len());
        assert(spine_text(a, a.len()) + spine_text(b, 0) =~= spine_text(a, a.len()));
        assert(manifest_chapters_text(a, a.len()) + manifest_chapters_text(b, 0)
            =~= manifest_chapters_text(a, a.len()));
    } else {
        lemma_spine_cat(a, b, (n - 1) as nat);
        assert((a + b)[a.len() + n - 1] == b[n - 1]);
        let k = (n - 1) as nat;
        assert(spine_text(a + b, a.len() + n) =~= spine_text(a + b, a.len() + k) + spine_item(
            b[n - 1],
        ));
        assert(spine_text(b, n) =~= spine_text(b, k) + spine_item(b[n - 1]));
        text::lemma_cat_assoc(spine_text(a, a.len()), spine_text(b, k), spine_item(b[n - 1]));
        assert(manifest_chapters_text(a + b, a.len() + n) =~= manifest_chapters_text(
            a + b,
            a.len() + k,
        ) + manifest_item(b[n - 1]));
        assert(manifest_chapters_text(b, n) =~= manifest_chapters_text(b, k) + manifest_item(
            b[n - 1],
        ));
        text::lemma_cat_assoc(
            manifest_chapters_text(a, a.len()),
            manifest_chapters_text(b, k),
            manifest_item(b[n - 1]),
        );
    }
}

/// The spine and the manifest are in reading order: those of two runs of chapters, one after the
/// other, are those of the first run followed by those of the second.
pub proof fn law_spine_is_in_reading_order(a: Seq<ChapterView>, b: Seq<ChapterView>)
    ensures
        spine_text(a + b, (a + b).len()) == spine_text(a, a.len()) + spine_text(b, b.len()),
        manifest_chapters_text(a + b, (a + b).len()) == manifest_chapters_text(a, a.len())
            + manifest_chapters_text(b, b.len()),
{
    lemma_spine_cat(a, b, b.len());
}

/// One chapter's line in the spine refers to the manifest's line for it, by its id.
pub proof fn law_spine_refers_to_the_manifest(c: ChapterView)
    ensures
        spine_text(seq![c], 1) == "    <itemref idref=\""@ + escaped(c.id) + "\"/>\n"@,
        manifest_chapters_text(seq![c], 1) == "    <item id=\""@ + escaped(c.id) + "\" href=\""@
            + escaped(c.filename) + "\" media-type=\"application/xhtml+xml\"/>\n"@,
{
    reveal_with_fuel(spine_text, 2);
    reveal_with_fuel(manifest_chapters_text, 2);
    assert(spine_text(seq![c], 1) =~= spine_item(c));
    assert(manifest_chapters_text(seq![c], 1) =~= manifest_item(c));
}

/// The package document holds the spine of all chapters and the manifest of all chapters and then
/// of all images, and it ends with the spine.
pub proof fn law_package_lists_everything_in_order(
    title: Seq<char>,
    identifier: Seq<char>,
    modified: Seq<char>,
    language: Seq<char>,
    chapters: Seq<ChapterView>,
    resources: Seq<ResourceView>,
)
    ensures
        text::has_suffix(
            opf_text(title, identifier, modified, language, chapters, resources),
            manifest_text(chapters, resources, resources.len()) + OPF_SPINE@ + spine_text(
                chapters,
                chapters.len(),
            ) + OPF_CLOSE@,
        ),
        text::has_prefix(
            manifest_text(chapters, resources, resources.len()),
            manifest_chapters_text(chapters, chapters.len()),
        ),
{
    let all = opf_text(title, identifier, modified, language, chapters, resources);
    let manifest = manifest_text(chapters, resources, resources.len());
    let tail = manifest + OPF_SPINE@ + spine_text(chapters, chapters.len()) + OPF_CLOSE@;
    let head = OPF_OPEN@ + escaped(identifier) + OPF_TITLE@ + escaped(title) + OPF_LANGUAGE@
        + escaped(language) + OPF_MODIFIED@ + escaped(modified) + OPF_MANIFEST@;
    assert(all =~= head + tail);
    assert(all.subrange(all.len() - tail.len(), all.len() as int) =~= tail);
    lemma_manifest_begins(chapters, resources, resources.len());
}

proof fn lemma_manifest_begins(chapters: Seq<ChapterView>, resources: Seq<ResourceView>, n: nat)
    requires
        n <= resources.len(),
    ensures
        text::has_prefix(
            manifest_text(chapters, resources, n),
            manifest_chapters_text(chapters, chapters.len()),
        ),
    decreases n,
{
    let front = manifest_chapters_text(chapters, chapters.len());
    if n == 0 {
        assert(front.subrange(0, front.len() as int) =~= front);
    } else {
        lemma_manifest_begins(chapters, resources, (n - 1) as nat);
        let before = manifest_text(chapters, resources, (n - 1) as nat);
        let all = manifest_text(chapters, resources, n);
        assert(all.subrange(0, front.len() as int) =~= before.subrange(0, front.len() as int));
    }
}

/// For two chapters, the spine holds the one that is read first before the other.
pub proof fn law_earlier_chapters_come_first(chapters: Seq<ChapterView>, i: int, j: int) -> (r: (
    int,
    int,
))
    requires
        0 <= i < j < chapters.len(),
    ensures
        0 <= r.0 < r.1,
        text::occurs_at(
            spine_text(chapters, chapters.len()),
            "    <itemref idref=\""@ + escaped(chapters[i].id) + "\"/>\n"@,
            r.0,
        ),
        text::occurs_at(
            spine_text(chapters, chapters.len()),
            "    <itemref idref=\""@ + escaped(chapters[j].id) + "\"/>\n"@,
            r.1,
        ),
{
    let a = chapters.take(i);
    let b = chapters.subrange(i + 1, j);
    let c = chapters.skip(j + 1);
    let x = seq![chapters[i]];
    let y = seq![chapters[j]];
    assert(chapters =~= a + (x + (b + (y + c))));
    law_spine_is_in_reading_order(a, x + (b + (y + c)));
    law_spine_is_in_reading_order(x, b + (y + c));
    law_spine_is_in_reading_order(b, y + c);
    law_spine_is_in_reading_order(y, c);
    law_spine_refers_to_the_manifest(chapters[i]);
    law_spine_refers_to_the_manifest(chapters[j]);
    let all = spine_text(chapters, chapters.len());
    let ta = spine_text(a, a.len());
    let tx = spine_text(x, 1);
    let tb = spine_text(b, b.len());
    let ty = spine_text(y, 1);
    let tc = spine_text(c, c.len());
    assert(all == ta + (tx + (tb + (ty + tc))));
    reveal_strlit("\"/>\n");
    let p = ta.len() as int;
    let q = p + tx.len() + tb.len();
    assert(all.subrange(p, p + tx.len()) =~= tx);
    assert(all.subrange(q, q + ty.len()) =~= ty);
    (p, q)
}

/// The package document says what the book is called, and by what it is known, in which language
/// it is and when it was made.
pub proof fn law_package_names_the_book(
    title: Seq<char>,
    identifier: Seq<char>,
    modified: Seq<char>,
    language: Seq<char>,
    chapters: Seq<ChapterView>,
    resources: Seq<ResourceView>,
)
    ensures
        text::contains_text(
            opf_text(title, identifier, modified, language, chapters, resources),
            "<dc:identifier id=\"bookid\">"@ + escaped(identifier) + "</dc:identifier>"@,
        ),
        text::contains_text(
            opf_text(title, identifier, modified, language, chapters, resources),
            "<dc:title>"@ + escaped(title) + "</dc:title>"@,
        ),
        text::contains_text(
            opf_text(title, identifier, modified, language, chapters, resources),
            "<dc:language>"@ + escaped(language) + "</dc:language>"@,
        ),
        text::contains_text(
            opf_text(title, identifier, modified, language, chapters, resources),
            "<meta property=\"dcterms:modified\">"@ + escaped(modified) + "</meta>"@,
        ),
{
    lemma_opf_words();
    let none = Seq::<char>::empty();
    let f1 = OPF_OPEN@ + escaped(identifier);
    let f2 = f1 + OPF_TITLE@ + escaped(title);
    let f3 = f2 + OPF_LANGUAGE@ + escaped(language);
    let f4 = f3 + OPF_MODIFIED@ + escaped(modified);
    let w1 = "<dc:identifier id=\"bookid\">"@ + escaped(identifier) + "</dc:identifier>"@;
    let w2 = "<dc:title>"@ + escaped(title) + "</dc:title>"@;
    let w3 = "<dc:language>"@ + escaped(language) + "</dc:language>"@;
    let w4 = "<meta property=\"dcterms:modified\">"@ + escaped(modified) + "</meta>"@;
    let manifest = manifest_text(chapters, resources, resources.len());
    let spine = spine_text(chapters, chapters.len());
    assert(none + OPF_OPEN@ =~= OPF_OPEN@);
    lemma_framed(
        none,
        OPF_OPEN@,
        escaped(identifier),
        OPF_TITLE@,
        "<dc:identifier id=\"bookid\">"@,
        "</dc:identifier>"@,
    );
    lemma_framed(f1, OPF_TITLE@, escaped(title), OPF_LANGUAGE@, "<dc:title>"@, "</dc:title>"@);
    lemma_framed(
        f2,
        OPF_LANGUAGE@,
        escaped(language),
        OPF_MODIFIED@,
        "<dc:language>"@,
        "</dc:language>"@,
    );
    lemma_framed(
        f3,
        OPF_MODIFIED@,
        escaped(modified),
        OPF_MANIFEST@,
        "<meta property=\"dcterms:modified\">"@,
        "</meta>"@,
    );
    lemma_stays_in_2(f1 + OPF_TITLE@, escaped(title), OPF_LANGUAGE@, w1);
    lemma_stays_in_2(f2 + OPF_LANGUAGE@, escaped(language), OPF_MODIFIED@, w1);
    lemma_stays_in_2(f2 + OPF_LANGUAGE@, escaped(language), OPF_MODIFIED@, w2);
    lemma_stays_in_2(f3 + OPF_MODIFIED@, escaped(modified), OPF_MANIFEST@, w1);
    lemma_stays_in_2(f3 + OPF_MODIFIED@, escaped(modified), OPF_MANIFEST@, w2);
    lemma_stays_in_2(f3 + OPF_MODIFIED@, escaped(modified), OPF_MANIFEST@, w3);
    let front = f4 + OPF_MANIFEST@;
    lemma_stays_in_4(front, manifest, OPF_SPINE@, spine, OPF_CLOSE@, w1);
    lemma_stays_in_4(front, manifest, OPF_SPINE@, spine, OPF_CLOSE@, w2);
    lemma_stays_in_4(front, manifest, OPF_SPINE@, spine, OPF_CLOSE@, w3);
    lemma_stays_in_4(front, manifest, OPF_SPINE@, spine, OPF_CLOSE@, w4);
}

proof fn lemma_stays_in_2(a: Seq<char>, b: Seq<char>, c: Seq<char>, w: Seq<char>)
    requires
        text::contains_text(a, w),
    ensures
        text::contains_text(a + b + c, w),
{
    text::lemma_contains_cat(a, b, w);
    text::lemma_contains_cat(a + b, c, w);
}

proof fn lemma_stays_in_4(
    a: Seq<char>,
    b: Seq<char>,
    c: Seq<char>,
    d: Seq<char>,
    e: Seq<char>,
    w: Seq<char>,
)
    requires
        text::contains_text(a, w),
    ensures
        text::contains_text(a + b + c + d + e, w),
{
    lemma_stays_in_2(a, b, c, w);
    lemma_stays_in_2(a + b + c, d, e, w);
}

/// A text between the end of one piece and the beginning of another is in the whole.
proof fn lemma_framed(
    a: Seq<char>,
    open: Seq<char>,
    x: Seq<char>,
    close: Seq<char>,
    left: Seq<char>,
    right: Seq<char>,
)
    requires
        text::has_suffix(open, left),
        text::has_prefix(close, right),
    ensures
        text::contains_text(a + open + x + close, left + x + right),
{
    let s = a + open + x + close;
    let i = a.len() + open.len() - left.len();
    let w = left + x + right;
    assert(open.subrange(open.len() - left.len(), open.len() as int) == left);
    assert(close.subrange(0, right.len() as int) == right);
    assert forall|k: int| 0 <= k < w.len() implies s[i + k] == #[trigger] w[k] by {
        if k < left.len() {
            assert(left[k] == open[open.len() - left.len() + k]);
        } else if k < left.len() + x.len() {
            assert(w[k] == x[k - left.len()]);
        } else {
            assert(right[k - left.len() - x.len()] == close[k - left.len() - x.len()]);
        }
    }
    assert(s.subrange(i, i + w.len()) =~= w);
    assert(text::occurs_at(s, w, i));
}

proof fn lemma_opf_words()
    ensures
        text::has_suffix(OPF_OPEN@, "<dc:identifier id=\"bookid\">"@),
        text::has_prefix(OPF_TITLE@, "</dc:identifier>"@),
        text::has_suffix(OPF_TITLE@, "<dc:title>"@),
        text::has_prefix(OPF_LANGUAGE@, "</dc:title>"@),
        text::has_suffix(OPF_LANGUAGE@, "<dc:language>"@),
        text::has_prefix(OPF_MODIFIED@, "</dc:language>"@),
        text::has_suffix(OPF_MODIFIED@, "<meta property=\"dcterms:modified\">"@),
        text::has_prefix(OPF_MANIFEST@, "</meta>"@),
{
    reveal_strlit(r#"<?xml version="1.0" encoding="UTF-8"?>
<package xmlns="http://www.idpf.org/2007/opf" version="3.0" unique-identifier="bookid">
  <metadata xmlns:dc="http://purl.org/dc/elements/1.1/">
    <dc:identifier id="bookid">"#);
    reveal_strlit(r#"</dc:identifier>
    <dc:title>"#);
    reveal_strlit(r#"</dc:title>
    <dc:language>"#);
    reveal_strlit(r#"</dc:language>
    <meta property="dcterms:modified">"#);
    reveal_strlit(r#"</meta>
  </metadata>
  <manifest>
    <item id="nav" href="nav.xhtml" media-type="application/xhtml+xml" properties="nav"/>
    <item id="ncx" href="toc.ncx" media-type="application/x-dtbncx+xml"/>
    <item id="css" href="style.css" media-type="text/css"/>
"#);
    reveal_strlit("<dc:identifier id=\"bookid\">");
    reveal_strlit("</dc:identifier>");
    reveal_strlit("<dc:title>");
    reveal_strlit("</dc:title>");
    reveal_strlit("<dc:language>");
    reveal_strlit("</dc:language>");
    reveal_strlit("<meta property=\"dcterms:modified\">");
    reveal_strlit("</meta>");
    assert(OPF_OPEN@.subrange(OPF_OPEN@.len() - 27, OPF_OPEN@.len() as int)
        =~= "<dc:identifier id=\"bookid\">"@);
    assert(OPF_TITLE@.subrange(0, 16) =~= "</dc:identifier>"@);
    assert(OPF_TITLE@.subrange(OPF_TITLE@.len() - 10, OPF_TITLE@.len() as int) =~= "<dc:title>"@);
    assert(OPF_LANGUAGE@.subrange(0, 11) =~= "</dc:title>"@);
    assert(OPF_LANGUAGE@.subrange(OPF_LANGUAGE@.len() - 13, OPF_LANGUAGE@.len() as int)
        =~= "<dc:language>"@);
    assert(OPF_MODIFIED@.subrange(0, 14) =~= "</dc:language>"@);
    assert(OPF_MODIFIED@.subrange(OPF_MODIFIED@.len() - 34, OPF_MODIFIED@.len() as int)
        =~= "<meta property=\"dcterms:modified\">"@);
    assert(OPF_MANIFEST@.subrange(0, 7) =~= "</meta>"@);
}

/// Every image is in the archive with its bytes, and is listed in the manifest with its type.
pub proof fn law_every_resource_is_in_the_package(
    title: Seq<char>,
    identifier: Seq<char>,
    modified: Seq<char>,
    language: Seq<char>,
    chapters: Seq<ChapterView>,
    nav: Seq<NavView>,
    resources: Seq<ResourceView>,
    i: int,
)
    requires
        0 <= i < resources.len(),
    ensures
        package_view(title, identifier, modified, language, chapters, nav, resources).contains(
            ("OEBPS/"@ + resources[i].filename, false, resources[i].data),
        ),
        text::contains_text(
            manifest_text(chapters, resources, resources.len()),
            "\" href=\""@ + escaped(resources[i].filename) + "\" media-type=\""@ + escaped(
                resources[i].media_type,
            ) + "\"/>\n"@,
        ),
{
    let all = package_view(title, identifier, modified, language, chapters, nav, resources);
    assert(all[5 + chapters.len() + i] == resource_file(resources[i]));
    lemma_manifest_has_resource(chapters, resources, i, resources.len());
}

proof fn lemma_manifest_has_resource(
    chapters: Seq<ChapterView>,
    resources: Seq<ResourceView>,
    i: int,
    n: nat,
)
    requires
        0 <= i < n <= resources.len(),
    ensures
        text::contains_text(
            manifest_text(chapters, resources, n),
            "\" href=\""@ + escaped(resources[i].filename) + "\" media-type=\""@ + escaped(
                resources[i].media_type,
            ) + "\"/>\n"@,
        ),
    decreases n,
{
    let item = "\" href=\""@ + escaped(resources[i].filename) + "\" media-type=\""@ + escaped(
        resources[i].media_type,
    ) + "\"/>\n"@;
    let before = manifest_text(chapters, resources, (n - 1) as nat);
    let r = resources[n - 1];
    let front = before + "    <item id=\"res"@ + text::decimal((n - 1) as nat);
    let line = "\" href=\""@ + escaped(r.filename) + "\" media-type=\""@ + escaped(r.media_type)
        + "\"/>\n"@;
    assert(manifest_text(chapters, resources, n) =~= front + line);
    if i < n - 1 {
        lemma_manifest_has_resource(chapters, resources, i, (n - 1) as nat);
        text::lemma_contains_cat(before, "    <item id=\"res"@, item);
        text::lemma_contains_cat(
            before + "    <item id=\"res"@,
            text::decimal((n - 1) as nat),
            item,
        );
    }
    text::lemma_contains_cat(front, line, item);
}

/// The chapters stand in the archive in reading order, each with its own document; the tables of
/// contents stand before them and the package document behind everything.
pub proof fn law_archive_is_in_order(
    title: Seq<char>,
    identifier: Seq<char>,
    modified: Seq<char>,
    language: Seq<char>,
    chapters: Seq<ChapterView>,
    nav: Seq<NavView>,
    resources: Seq<ResourceView>,
)
    ensures
        ({
            let all = package_view(title, identifier, modified, language, chapters, nav, resources);
            &&& all.len() == 6 + chapters.len() + resources.len()
            &&& all[1].0 == "META-INF/container.xml"@
            &&& all[2].0 == "OEBPS/style.css"@
            &&& all[3] == ("OEBPS/nav.xhtml"@, false, vstd::utf8::encode_utf8(
                nav_document_text(title, nav),
            ))
            &&& all[4] == ("OEBPS/toc.ncx"@, false, vstd::utf8::encode_utf8(
                ncx_text(title, identifier, nav),
            ))
            &&& all.last() == ("OEBPS/content.opf"@, false, vstd::utf8::encode_utf8(
                opf_text(title, identifier, modified, language, chapters, resources),
            ))
            &&& forall|i: int|
                0 <= i < chapters.len() ==> #[trigger] all[5 + i] == (
                    "OEBPS/"@ + chapters[i].filename,
                    false,
                    vstd::utf8::encode_utf8(
                        chapter_text(chapters[i].title, chapters[i].module_header, chapters[i].body),
                    ),
                )
            &&& forall|i: int|
                0 <= i < resources.len() ==> #[trigger] all[5 + chapters.len() + i] == (
                    "OEBPS/"@ + resources[i].filename,
                    false,
                    resources[i].data,
                )
        }),
{
}

/// A chapter's document holds the chapter's text under its title, which stands under the name of
/// the module where the chapter opens one.
pub proof fn law_a_chapter_shows_its_text(title: Seq<char>, module: Seq<char>, body: Seq<char>)
    ensures
        text::contains_text(
            chapter_text(title, None, body),
            "<h1>"@ + escaped(title) + "</h1>"@ + "\n"@ + body,
        ),
        text::contains_text(
            chapter_text(title, Some(module), body),
            "<h1 class=\"module-name\">"@ + escaped(module) + "</h1>\n<h2>"@ + escaped(title)
                + "</h2>"@ + "\n"@ + body,
        ),
        text::has_prefix(chapter_text(title, None, body), PAGE_OPEN@ + escaped(title) + "</title>"@),
{
    let head = PAGE_OPEN@ + escaped(title) + CHAPTER_BODY_OPEN@;
    let a = "<h1>"@ + escaped(title) + "</h1>"@ + "\n"@ + body;
    let b = "<h1 class=\"module-name\">"@ + escaped(module) + "</h1>\n<h2>"@ + escaped(title)
        + "</h2>"@ + "\n"@ + body;
    assert(chapter_text(title, None, body) =~= head + a + CHAPTER_CLOSE@);
    assert(chapter_text(title, Some(module), body) =~= head + b + CHAPTER_CLOSE@);
    text::lemma_contains_cat(head, a, a);
    text::lemma_contains_cat(head + a, CHAPTER_CLOSE@, a);
    text::lemma_contains_cat(head, b, b);
    text::lemma_contains_cat(head + b, CHAPTER_CLOSE@, b);
    reveal_strlit("</title>");
    reveal_strlit(r#"</title>
  <link rel="stylesheet" type="text/css" href="style.css"/>
</head>
<body>
"#);
    let p = PAGE_OPEN@ + escaped(title) + "</title>"@;
    assert(CHAPTER_BODY_OPEN@.subrange(0, 8) =~= "</title>"@);
    let all = chapter_text(title, None, body);
    assert forall|k: int| 0 <= k < p.len() implies all[k] == #[trigger] p[k] by {
        let n = PAGE_OPEN@.len() + escaped(title).len();
        if k >= n {
            assert(p[k] == "</title>"@[k - n]);
            assert(CHAPTER_BODY_OPEN@.subrange(0, 8)[k - n] == CHAPTER_BODY_OPEN@[k - n]);
            assert(all[k] == CHAPTER_BODY_OPEN@[k - n]);
        }
    }
    assert(all.subrange(0, p.len() as int) =~= p);
}

// ---------------------------------------------------------------------------
// Laws of the tables of contents
// ---------------------------------------------------------------------------

proof fn lemma_nav_take(a: Seq<NavView>, b: Seq<NavView>, n: nat, first: nat, pad: Seq<char>)
    requires
        n <= a.len(),
    ensures
        nav_size(a + b, n) == nav_size(a, n),
        nav_items_text(a + b, n, pad) == nav_items_text(a, n, pad),
        navpoints_text(a + b, n, first, pad) == navpoints_text(a, n, first, pad),
    decreases n,
{
    if n > 0 {
        lemma_nav_take(a, b, (n - 1) as nat, first, pad);
        assert((a + b)[n - 1] == a[n - 1]);
    }
}

/// One item of the EPUB 3 list, and the list below it.
spec fn nav_item_text(e: NavView, pad: Seq<char>) -> Seq<char> {
    let link = pad + "  <li><a href=\""@ + escaped(e.href) + "\">"@ + escaped(e.title) + "</a>"@;
    if e.children.len() == 0 {
        link + "</li>\n"@
    } else {
        link + "\n"@ + nav_list_text(e.children, pad + "    "@) + pad + "  </li>\n"@
    }
}

proof fn lemma_nav_items_step(entries: Seq<NavView>, n: nat, pad: Seq<char>)
    requires
        0 < n <= entries.len(),
    ensures
        nav_items_text(entries, n, pad) == nav_items_text(entries, (n - 1) as nat, pad)
            + nav_item_text(entries[n - 1], pad),
{
    let e = entries[n - 1];
    let before = nav_items_text(entries, (n - 1) as nat, pad);
    let h = pad + "  <li><a href=\""@ + escaped(e.href) + "\">"@;
    let link = h + escaped(e.title) + "</a>"@;
    lemma_cat4(before, pad, "  <li><a href=\""@, escaped(e.href), "\">"@);
    text::lemma_cat_assoc(before, h, escaped(e.title));
    text::lemma_cat_assoc(before, h + escaped(e.title), "</a>"@);
    if e.children.len() == 0 {
        text::lemma_cat_assoc(before, link, "</li>\n"@);
    } else {
        let list = nav_list_text(e.children, pad + "    "@);
        text::lemma_cat_assoc(before, link, "\n"@);
        text::lemma_cat_assoc(before, link + "\n"@, list);
        text::lemma_cat_assoc(before, link + "\n"@ + list, pad);
        text::lemma_cat_assoc(before, link + "\n"@ + list + pad, "  </li>\n"@);
    }
}

proof fn lemma_nav_cat(a: Seq<NavView>, b: Seq<NavView>, n: nat, first: nat, pad: Seq<char>)
    requires
        n <= b.len(),
    ensures
        nav_size(a + b, a.len() + n) == nav_size(a, a.len()) + nav_size(b, n),
        nav_items_text(a + b, a.len() + n, pad) == nav_items_text(a, a.len(), pad)
            + nav_items_text(b, n, pad),
    decreases n,
{
    if n == 0 {
        lemma_nav_take(a, b, a.len(), first, pad);
        assert(nav_items_text(a, a.len(), pad) + nav_items_text(b, 0, pad) =~= nav_items_text(
            a,
            a.len(),
            pad,
        ));
    } else {
        lemma_nav_cat(a, b, (n - 1) as nat, first, pad);
        assert((a + b)[a.len() + n - 1] == b[n - 1]);
        lemma_nav_items_step(a + b, a.len() + n, pad);
        lemma_nav_items_step(b, n, pad);
        text::lemma_cat_assoc(
            nav_items_text(a, a.len(), pad),
            nav_items_text(b, (n - 1) as nat, pad),
            nav_item_text(b[n - 1], pad),
        );
    }
}

proof fn lemma_cat4(h: Seq<char>, a: Seq<char>, b: Seq<char>, c: Seq<char>, d: Seq<char>)
    ensures
        h + a + b + c + d == h + (a + b + c + d),
{
    text::lemma_cat_assoc(h, a, b);
    text::lemma_cat_assoc(h, a + b, c);
    text::lemma_cat_assoc(h, a + b + c, d);
}

proof fn lemma_navpoints_step(entries: Seq<NavView>, n: nat, first: nat, pad: Seq<char>)
    requires
        0 < n <= entries.len(),
    ensures
        navpoints_text(entries, n, first, pad) == navpoints_text(
            entries,
            (n - 1) as nat,
            first,
            pad,
        ) + navpoint_text(entries[n - 1], first + nav_size(entries, (n - 1) as nat) + 1, pad),
{
    let e = entries[n - 1];
    let np = first + nav_size(entries, (n - 1) as nat) + 1;
    let before = navpoints_text(entries, (n - 1) as nat, first, pad);
    let below = navpoints_text(e.children, e.children.len(), np, pad + "  "@);
    lemma_navpoint_grouped(before, e, np, pad, below);
}

proof fn lemma_navpoint_grouped(
    before: Seq<char>,
    e: NavView,
    np: nat,
    pad: Seq<char>,
    below: Seq<char>,
)
    ensures
        before + pad + "<navPoint id=\"np"@ + text::decimal(np) + "\" playOrder=\""@ + text::decimal(
            np,
        ) + "\">\n"@ + pad + "  <navLabel><text>"@ + escaped(e.title) + "</text></navLabel>\n"@
            + pad + "  <content src=\""@ + escaped(e.href) + "\"/>\n"@ + below + pad
            + "</navPoint>\n"@ == before + (navpoint_head(np, pad) + (navpoint_label(e, pad)
            + navpoint_target(e, pad) + below) + (pad + "</navPoint>\n"@)),
{
    let h = navpoint_head(np, pad);
    let l = navpoint_label(e, pad);
    let c = navpoint_target(e, pad);
    let h4 = pad + "<navPoint id=\"np"@ + text::decimal(np) + "\" playOrder=\""@;
    lemma_cat4(before, pad, "<navPoint id=\"np"@, text::decimal(np), "\" playOrder=\""@);
    text::lemma_cat_assoc(before, h4, text::decimal(np));
    text::lemma_cat_assoc(before, h4 + text::decimal(np), "\">\n"@);
    let bh = before + h;
    lemma_cat4(bh, pad, "  <navLabel><text>"@, escaped(e.title), "</text></navLabel>\n"@);
    lemma_cat4(bh + l, pad, "  <content src=\""@, escaped(e.href), "\"/>\n"@);
    let t = pad + "</navPoint>\n"@;
    text::lemma_cat_assoc(bh + l + c + below, pad, "</navPoint>\n"@);
    text::lemma_cat_assoc(bh, l, c);
    text::lemma_cat_assoc(bh, l + c, below);
    text::lemma_cat_assoc(before, h, l + c + below);
    text::lemma_cat_assoc(before, h + (l + c + below), t);
}

proof fn lemma_navpoints_cat(a: Seq<NavView>, b: Seq<NavView>, n: nat, first: nat, pad: Seq<char>)
    requires
        n <= b.len(),
    ensures
        navpoints_text(a + b, a.len() + n, first, pad) == navpoints_text(a, a.len(), first, pad)
            + navpoints_text(b, n, first + nav_size(a, a.len()), pad),
    decreases n,
{
    let start = first + nav_size(a, a.len());
    if n == 0 {
        lemma_nav_take(a, b, a.len(), first, pad);
        assert(navpoints_text(a, a.len(), first, pad) + navpoints_text(b, 0, start, pad)
            =~= navpoints_text(a, a.len(), first, pad));
    } else {
        let k = (n - 1) as nat;
        lemma_navpoints_cat(a, b, k, first, pad);
        lemma_nav_cat(a, b, k, first, pad);
        let e = b[n - 1];
        assert((a + b)[a.len() + n - 1] == e);
        let np = first + nav_size(a + b, a.len() + k) + 1;
        assert(np == start + nav_size(b, k) + 1);
        lemma_navpoints_step(a + b, a.len() + n, first, pad);
        lemma_navpoints_step(b, n, start, pad);
        text::lemma_cat_assoc(
            navpoints_text(a, a.len(), first, pad),
            navpoints_text(b, k, start, pad),
            navpoint_text(e, np, pad),
        );
    }
}

/// How a navigation point opens: with its number.
pub open spec fn navpoint_head(np: nat, pad: Seq<char>) -> Seq<char> {
    pad + "<navPoint id=\"np"@ + text::decimal(np) + "\" playOrder=\""@ + text::decimal(np)
        + "\">\n"@
}

/// The title of a navigation point.
pub open spec fn navpoint_label(e: NavView, pad: Seq<char>) -> Seq<char> {
    pad + "  <navLabel><text>"@ + escaped(e.title) + "</text></navLabel>\n"@
}

/// Where a navigation point leads.
pub open spec fn navpoint_target(e: NavView, pad: Seq<char>) -> Seq<char> {
    pad + "  <content src=\""@ + escaped(e.href) + "\"/>\n"@
}

/// One navigation point with number `np`, and those below it.
spec fn navpoint_text(e: NavView, np: nat, pad: Seq<char>) -> Seq<char> {
    navpoint_head(np, pad) + (navpoint_label(e, pad) + navpoint_target(e, pad) + navpoints_text(
        e.children,
        e.children.len(),
        np,
        pad + "  "@,
    )) + (pad + "</navPoint>\n"@)
}

/// Both tables of contents are in reading order: those of two runs of entries, one after the
/// other, are those of the first followed by those of the second, whose points are numbered on.
pub proof fn law_contents_are_in_order(
    a: Seq<NavView>,
    b: Seq<NavView>,
    first: nat,
    pad: Seq<char>,
)
    ensures
        nav_size(a + b, (a + b).len()) == nav_size(a, a.len()) + nav_size(b, b.len()),
        nav_items_text(a + b, (a + b).len(), pad) == nav_items_text(a, a.len(), pad)
            + nav_items_text(b, b.len(), pad),
        navpoints_text(a + b, (a + b).len(), first, pad) == navpoints_text(a, a.len(), first, pad)
            + navpoints_text(b, b.len(), first + nav_size(a, a.len()), pad),
{
    lemma_nav_cat(a, b, b.len(), first, pad);
    lemma_navpoints_cat(a, b, b.len(), first, pad);
}

/// An entry of the EPUB 3 table of contents leads to its page under its title, and what is below
/// it stands within it.
pub proof fn law_an_entry_leads_to_its_page(e: NavView, pad: Seq<char>)
    ensures
        text::has_prefix(
            nav_items_text(seq![e], 1, pad),
            pad + "  <li><a href=\""@ + escaped(e.href) + "\">"@ + escaped(e.title) + "</a>"@,
        ),
        e.children.len() > 0 ==> text::contains_text(
            nav_items_text(seq![e], 1, pad),
            nav_items_text(e.children, e.children.len(), pad + "    "@),
        ),
{
    let s = seq![e];
    assert(s[0] == e);
    let none = nav_items_text(s, 0, pad);
    assert(none =~= Seq::<char>::empty());
    let link = pad + "  <li><a href=\""@ + escaped(e.href) + "\">"@ + escaped(e.title) + "</a>"@;
    assert(none + pad =~= pad);
    let all = nav_items_text(s, 1, pad);
    if e.children.len() > 0 {
        let inner = pad + "    "@;
        let below = nav_items_text(e.children, e.children.len(), inner);
        let list = nav_list_text(e.children, inner);
        assert(list == inner + "<ol>\n"@ + below + inner + "</ol>\n"@) by {
            reveal_with_fuel(nav_list_text, 2);
        }
        assert(all == link + "\n"@ + list + pad + "  </li>\n"@);
        text::lemma_contains_cat(inner + "<ol>\n"@, below, below);
        text::lemma_contains_cat(inner + "<ol>\n"@ + below, inner, below);
        text::lemma_contains_cat(inner + "<ol>\n"@ + below + inner, "</ol>\n"@, below);
        text::lemma_contains_cat(link + "\n"@, list, below);
        text::lemma_contains_cat(link + "\n"@ + list, pad, below);
        text::lemma_contains_cat(link + "\n"@ + list + pad, "  </li>\n"@, below);
        assert(all.subrange(0, link.len() as int) =~= link);
    } else {
        assert(all == link + "</li>\n"@);
        assert(all.subrange(0, link.len() as int) =~= link);
    }
}

/// An entry of the EPUB 2 table of contents has the next number, leads to its page under its
/// title, and what is below it stands within it and is numbered on.
pub proof fn law_a_point_leads_to_its_page(e: NavView, first: nat, pad: Seq<char>)
    ensures
        nav_size(seq![e], 1) == 1 + nav_size(e.children, e.children.len()),
        text::has_prefix(
            navpoints_text(seq![e], 1, first, pad),
            pad + "<navPoint id=\"np"@ + text::decimal(first + 1) + "\" playOrder=\""@
                + text::decimal(first + 1) + "\">\n"@,
        ),
        text::contains_text(
            navpoints_text(seq![e], 1, first, pad),
            (pad + "  <navLabel><text>"@ + escaped(e.title) + "</text></navLabel>\n"@) + (pad
                + "  <content src=\""@ + escaped(e.href) + "\"/>\n"@) + navpoints_text(
                e.children,
                e.children.len(),
                first + 1,
                pad + "  "@,
            ),
        ),
{
    let s = seq![e];
    assert(s[0] == e);
    assert(nav_size(s, 0) == 0);
    lemma_navpoints_step(s, 1, first, pad);
    let none = navpoints_text(s, 0, first, pad);
    assert(none =~= Seq::<char>::empty());
    let all = navpoint_text(e, first + 1, pad);
    assert(none + all =~= all);
    let h = navpoint_head(first + 1, pad);
    let below = navpoints_text(e.children, e.children.len(), first + 1, pad + "  "@);
    let m = navpoint_label(e, pad) + navpoint_target(e, pad) + below;
    let t = pad + "</navPoint>\n"@;
    assert(all.subrange(0, h.len() as int) =~= h);
    text::lemma_contains_cat(h, m, m);
    text::lemma_contains_cat(h + m, t, m);
}

/// The documents of the tables of contents hold the whole tables, the points numbered from one.
pub proof fn law_contents_documents_hold_the_contents(
    title: Seq<char>,
    identifier: Seq<char>,
    nav: Seq<NavView>,
)
    ensures
        text::contains_text(nav_document_text(title, nav), nav_items_text(nav, nav.len(), "    "@)),
        text::has_prefix(nav_document_text(title, nav), PAGE_OPEN@ + escaped(title)),
        text::contains_text(ncx_text(title, identifier, nav), navpoints_text(nav, nav.len(), 0, "    "@)),
        text::has_prefix(ncx_text(title, identifier, nav), NCX_OPEN@ + escaped(identifier)),
        text::contains_text(
            ncx_text(title, identifier, nav),
            NCX_HEAD_CLOSE@ + escaped(title) + NCX_MAP_OPEN@,
        ),
{
    let a = nav_document_text(title, nav);
    let pa = PAGE_OPEN@ + escaped(title);
    assert(a.subrange(0, pa.len() as int) =~= pa);
    let items = nav_items_text(nav, nav.len(), "    "@);
    if nav.len() == 0 {
        assert(items =~= Seq::<char>::empty());
        assert(a.subrange(0, 0) =~= items);
        assert(text::occurs_at(a, items, 0));
    } else {
        let front = pa + NAV_BODY_OPEN@ + "    "@ + "<ol>\n"@;
        let tail = "    "@ + "</ol>\n"@ + NAV_CLOSE@;
        assert(a =~= front + items + tail);
        text::lemma_contains_cat(front, items, items);
        text::lemma_contains_cat(front + items, tail, items);
    }
    let b = ncx_text(title, identifier, nav);
    let pb = NCX_OPEN@ + escaped(identifier);
    assert(b.subrange(0, pb.len() as int) =~= pb);
    let name = NCX_HEAD_CLOSE@ + escaped(title) + NCX_MAP_OPEN@;
    let points = navpoints_text(nav, nav.len(), 0, "    "@);
    assert(b =~= pb + name + points + NCX_CLOSE@);
    text::lemma_contains_cat(pb, name, name);
    text::lemma_contains_cat(pb + name, points, name);
    text::lemma_contains_cat(pb + name, points, points);
    text::lemma_contains_cat(pb + name + points, NCX_CLOSE@, name);
    text::lemma_contains_cat(pb + name + points, NCX_CLOSE@, points);
}

} // verus!
