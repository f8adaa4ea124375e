//! A self-contained book that exercises every element a book is made of, for checking how a reader
//! renders it: a cover badge, a nested table of contents, headings, lists, a table, a blockquote,
//! a footnote, inline and block code, images and a knowledge check with an answer key. It needs no
//! network.

use crate::archive;
use crate::assemble;
use crate::epub;
use crate::epub::Chapter;
use crate::epub::ChapterView;
use crate::epub::NavEntry;
use crate::epub::NavView;
use crate::epub::Resource;
use crate::epub::ResourceView;
use crate::error::ResolveError;
use crate::markdown;
use crate::pages;
use crate::pages::MSLX_REPO;
use crate::quiz;
use crate::quiz::Choice;
use crate::quiz::ChoiceView;
use crate::quiz::Question;
use crate::quiz::QuestionView;
use crate::quiz::Quiz;
use crate::quiz::QuizView;
use crate::text;
use vstd::prelude::*;
use vstd::string::*;

verus! {

broadcast use vstd::seq_lib::group_seq_properties;

/// An input that asks for the sample book.
pub open spec fn asks_for_sample(input: Seq<char>) -> bool {
    text::ascii_lower(text::trim(input)) == "test-mslx-epub"@
}

/// Whether an input asks for the sample book.
pub fn is_sample_input(input: &str) -> (r: bool)
    ensures
        r == asks_for_sample(input@),
{
    let cs = text::chars_of(input);
    text::same_ignoring_ascii_case(text::trimmed(cs.as_slice()), "test-mslx-epub")
}

// ---------------------------------------------------------------------------
// The quiz
// ---------------------------------------------------------------------------

pub open spec fn choice_view(
    content: Seq<char>,
    is_correct: bool,
    explanation: Seq<char>,
) -> ChoiceView {
    ChoiceView { content, is_correct, explanation }
}

/// The questions of the sample book.
pub open spec fn sample_quiz() -> QuizView {
    QuizView {
        title: ""@,
        questions: seq![
            QuestionView {
                content: "Which command creates a resource group?"@,
                choices: seq![
                    choice_view(
                        "az group create"@,
                        true,
                        "az group create makes a new resource group."@,
                    ),
                    choice_view("az vm create"@, false, ""@),
                    choice_view("az storage account create"@, false, ""@),
                ],
            },
            QuestionView {
                content: "Which of these are Azure compute services? (Choose two.)"@,
                choices: seq![
                    choice_view("Virtual Machines"@, true, ""@),
                    choice_view("Blob Storage"@, false, ""@),
                    choice_view(
                        "Azure Functions"@,
                        true,
                        "Virtual Machines and Functions both run your workloads."@,
                    ),
                ],
            },
        ],
    }
}

fn choice(content: &str, is_correct: bool, explanation: &str) -> (r: Choice)
    ensures
        r.deep_view() == choice_view(content@, is_correct, explanation@),
{
    Choice { content: content.to_owned(), is_correct, explanation: explanation.to_owned() }
}

fn question(content: &str, a: Choice, b: Choice, c: Choice) -> (r: Question)
    ensures
        r.deep_view() == (QuestionView {
            content: content@,
            choices: seq![a.deep_view(), b.deep_view(), c.deep_view()],
        }),
{
    let mut choices: Vec<Choice> = Vec::new();
    choices.push(a);
    choices.push(b);
    choices.push(c);
    assert(choices.deep_view() =~= seq![a.deep_view(), b.deep_view(), c.deep_view()]);
    Question { content: content.to_owned(), choices }
}

fn quiz_of_sample() -> (r: Quiz)
    ensures
        r.deep_view() == sample_quiz(),
{
    let mut questions: Vec<Question> = Vec::new();
    questions.push(
        question(
            "Which command creates a resource group?",
            choice("az group create", true, "az group create makes a new resource group."),
            choice("az vm create", false, ""),
            choice("az storage account create", false, ""),
        ),
    );
    questions.push(
        question(
            "Which of these are Azure compute services? (Choose two.)",
            choice("Virtual Machines", true, ""),
            choice("Blob Storage", false, ""),
            choice(
                "Azure Functions",
                true,
                "Virtual Machines and Functions both run your workloads.",
            ),
        ),
    );
    assert(questions.deep_view() =~= sample_quiz().questions);
    Quiz { title: "".to_owned(), questions }
}

// ---------------------------------------------------------------------------
// The pages
// ---------------------------------------------------------------------------

pub open spec fn sample_cover_text(date_stamp: Seq<char>) -> Seq<char> {
    "<div class=\"badge-wrap\"><img class=\"badge\" src=\"media/badge.png\" alt=\"mslx test badge\"/></div>\n<p class=\"muted\">A fixture that exercises every element mslx emits, so you can see how a reader renders headings, lists, tables, blockquotes, inline and block code, images, an SVG diagram, and a knowledge-check quiz. No Microsoft content. Assembled "@
        + epub::escaped(date_stamp) + ".</p>"@
}

pub open spec fn sample_sources_text() -> Seq<char> {
    "<p>This is a synthetic test book generated by mslx to check element rendering. It contains no Microsoft Learn content.</p>\n<ul>\n<li><a href=\"https://learn.microsoft.com/\">Microsoft Learn</a></li>\n<li><a href=\"https://"@
        + MSLX_REPO@ + "\">mslx on GitHub</a></li>\n</ul>\n"@ + pages::made_with_text()
}

fn sample_cover(date_stamp: &str) -> (r: String)
    ensures
        r@ == sample_cover_text(date_stamp@),
{
    let mut s =
        "<div class=\"badge-wrap\"><img class=\"badge\" src=\"media/badge.png\" alt=\"mslx test badge\"/></div>\n<p class=\"muted\">A fixture that exercises every element mslx emits, so you can see how a reader renders headings, lists, tables, blockquotes, inline and block code, images, an SVG diagram, and a knowledge-check quiz. No Microsoft content. Assembled ".to_owned();
    s.append(epub::esc(date_stamp).as_str());
    s.append(".</p>");
    s
}

fn sample_sources() -> (r: String)
    ensures
        r@ == sample_sources_text(),
{
    let mut s =
        "<p>This is a synthetic test book generated by mslx to check element rendering. It contains no Microsoft Learn content.</p>\n<ul>\n<li><a href=\"https://learn.microsoft.com/\">Microsoft Learn</a></li>\n<li><a href=\"https://".to_owned();
    s.append(MSLX_REPO);
    s.append("\">mslx on GitHub</a></li>\n</ul>\n");
    s.append(pages::made_with().as_str());
    s
}

/// The chapters of the sample book, with those bodies.
pub open spec fn sample_pages(
    cover: Seq<char>,
    structure: Seq<char>,
    code: Seq<char>,
    check: Seq<char>,
    sources: Seq<char>,
) -> Seq<ChapterView> {
    seq![
        sample_chapter("cover"@, "cover.xhtml"@, "mslx rendering test book"@, cover, None),
        sample_chapter(
            "u01"@,
            "u01.xhtml"@,
            "Text and structure"@,
            structure,
            Some("Part 1: Elements"@),
        ),
        sample_chapter("u02"@, "u02.xhtml"@, "Code blocks"@, code, None),
        sample_chapter("u03"@, "u03.xhtml"@, "Images and diagrams"@, TEST_IMAGE_BODY@, None),
        sample_chapter("u04"@, "u04.xhtml"@, "Knowledge check"@, check, None),
        sample_chapter("sources"@, "sources.xhtml"@, "Sources and resources"@, sources, None),
    ]
}

/// The chapters of the sample book.
pub open spec fn sample_chapters(date_stamp: Seq<char>) -> Seq<ChapterView> {
    sample_pages(
        sample_cover_text(date_stamp),
        markdown::xhtml_of(TEST_TEXT_MD@, "media"@, ""@),
        markdown::xhtml_of(TEST_CODE_MD@, "media"@, ""@),
        quiz::quiz_text(sample_quiz()),
        sample_sources_text(),
    )
}

pub open spec fn sample_chapter(
    id: Seq<char>,
    filename: Seq<char>,
    title: Seq<char>,
    body: Seq<char>,
    module_header: Option<Seq<char>>,
) -> ChapterView {
    ChapterView { id, filename, title, body, module_header }
}

fn chapter(id: &str, filename: &str, title: &str, body: String, module_header: Option<String>) -> (r:
    Chapter)
    ensures
        r.deep_view() == sample_chapter(id@, filename@, title@, body@, module_header.deep_view()),
{
    Chapter {
        id: id.to_owned(),
        filename: filename.to_owned(),
        title: title.to_owned(),
        body,
        module_header,
    }
}

fn pages_of_sample(
    cover: String,
    structure: String,
    code: String,
    check: String,
    sources: String,
) -> (r: Vec<Chapter>)
    ensures
        r.deep_view() == sample_pages(cover@, structure@, code@, check@, sources@),
{
    let ghost want = sample_pages(cover@, structure@, code@, check@, sources@);
    let part = Some("Part 1: Elements".to_owned());
    let mut out: Vec<Chapter> = Vec::new();
    out.push(chapter("cover", "cover.xhtml", "mslx rendering test book", cover, None));
    out.push(chapter("u01", "u01.xhtml", "Text and structure", structure, part));
    out.push(chapter("u02", "u02.xhtml", "Code blocks", code, None));
    out.push(
        chapter("u03", "u03.xhtml", "Images and diagrams", TEST_IMAGE_BODY.to_owned(), None),
    );
    out.push(chapter("u04", "u04.xhtml", "Knowledge check", check, None));
    out.push(chapter("sources", "sources.xhtml", "Sources and resources", sources, None));
    assert(out.deep_view() =~= want);
    out
}

fn chapters_of_sample(date_stamp: &str) -> (r: Vec<Chapter>)
    ensures
        r.deep_view() == sample_chapters(date_stamp@),
{
    pages_of_sample(
        sample_cover(date_stamp),
        markdown::markdown_to_xhtml(TEST_TEXT_MD, "media"),
        markdown::markdown_to_xhtml(TEST_CODE_MD, "media"),
        quiz::render_quiz_xhtml(&quiz_of_sample()),
        sample_sources(),
    )
}

// ---------------------------------------------------------------------------
// The table of contents and the images
// ---------------------------------------------------------------------------

/// The table of contents of the sample book.
pub open spec fn sample_nav() -> Seq<NavView> {
    seq![
        epub::leaf_view("cover.xhtml"@, "Title page"@),
        NavView {
            href: "u01.xhtml"@,
            title: "Part 1: Elements"@,
            children: seq![
                epub::leaf_view("u01.xhtml"@, "Text and structure"@),
                epub::leaf_view("u02.xhtml"@, "Code blocks"@),
                epub::leaf_view("u03.xhtml"@, "Images and diagrams"@),
                epub::leaf_view("u04.xhtml"@, "Knowledge check"@),
            ],
        },
        epub::leaf_view("sources.xhtml"@, "Sources and resources"@),
    ]
}

fn nav_of_sample() -> (r: Vec<NavEntry>)
    ensures
        r.deep_view() == sample_nav(),
{
    let mut children: Vec<NavEntry> = Vec::new();
    children.push(NavEntry::leaf("u01.xhtml", "Text and structure"));
    children.push(NavEntry::leaf("u02.xhtml", "Code blocks"));
    children.push(NavEntry::leaf("u03.xhtml", "Images and diagrams"));
    children.push(NavEntry::leaf("u04.xhtml", "Knowledge check"));
    assert(children.deep_view() =~= sample_nav()[1].children);
    let part = NavEntry {
        href: "u01.xhtml".to_owned(),
        title: "Part 1: Elements".to_owned(),
        children,
    };
    proof {
        epub::lemma_nav_children(part);
    }
    let mut out: Vec<NavEntry> = Vec::new();
    out.push(NavEntry::leaf("cover.xhtml", "Title page"));
    out.push(part);
    out.push(NavEntry::leaf("sources.xhtml", "Sources and resources"));
    assert(out.deep_view() =~= sample_nav());
    out
}

/// An image of the sample book, where it could be drawn.
pub open spec fn drawing(filename: Seq<char>, png: Option<Seq<u8>>) -> Seq<ResourceView> {
    match png {
        Some(data) => seq![ResourceView { filename, media_type: "image/png"@, data }],
        None => Seq::empty(),
    }
}

/// The images of the sample book.
pub open spec fn sample_resources(
    badge: Option<Seq<u8>>,
    diagram: Option<Seq<u8>>,
    figure: Option<Seq<u8>>,
) -> Seq<ResourceView> {
    drawing("media/badge.png"@, badge) + drawing("media/diagram.png"@, diagram) + drawing(
        "media/figure.png"@,
        figure,
    )
}

/// A PNG as bytes.
pub open spec fn bytes_of(png: Option<Vec<u8>>) -> Option<Seq<u8>> {
    match png {
        Some(v) => Some(v@),
        None => None,
    }
}

fn push_png(out: &mut Vec<Resource>, filename: &str, png: Option<Vec<u8>>)
    ensures
        final(out).deep_view() == old(out).deep_view() + drawing(filename@, bytes_of(png)),
{
    let ghost before = out.deep_view();
    if let Some(data) = png {
        text::push_item(
            out,
            Resource {
                filename: filename.to_owned(),
                media_type: "image/png".to_owned(),
                data,
            },
        );
    }
    assert(out.deep_view() =~= before + drawing(filename@, bytes_of(png)));
}

// ---------------------------------------------------------------------------
// The book
// ---------------------------------------------------------------------------

/// The files of the EPUB of the sample book.
pub open spec fn sample_package(
    date_stamp: Seq<char>,
    badge: Option<Seq<u8>>,
    diagram: Option<Seq<u8>>,
    figure: Option<Seq<u8>>,
) -> Seq<(Seq<char>, bool, Seq<u8>)> {
    epub::package_view(
        "mslx rendering test book"@,
        "mslx-test-book"@,
        assemble::modified_text(date_stamp),
        "en"@,
        sample_chapters(date_stamp),
        sample_nav(),
        sample_resources(badge, diagram, figure),
    )
}

proof fn lemma_chapter_names_fit(names: Seq<Seq<char>>)
    requires
        names == seq![
            "cover.xhtml"@,
            "u01.xhtml"@,
            "u02.xhtml"@,
            "u03.xhtml"@,
            "u04.xhtml"@,
            "sources.xhtml"@,
        ],
    ensures
        forall|i: int|
            0 <= i < names.len() ==> archive::name_fits(epub::oebps_name(#[trigger] names[i])),
{
    assert(archive::name_fits(epub::oebps_name("cover.xhtml"@))) by {
        reveal_strlit("cover.xhtml");
        lemma_fits("cover.xhtml"@);
    }
    assert(archive::name_fits(epub::oebps_name("u01.xhtml"@))) by {
        reveal_strlit("u01.xhtml");
        lemma_fits("u01.xhtml"@);
    }
    assert(archive::name_fits(epub::oebps_name("u02.xhtml"@))) by {
        reveal_strlit("u02.xhtml");
        lemma_fits("u02.xhtml"@);
    }
    assert(archive::name_fits(epub::oebps_name("u03.xhtml"@))) by {
        reveal_strlit("u03.xhtml");
        lemma_fits("u03.xhtml"@);
    }
    assert(archive::name_fits(epub::oebps_name("u04.xhtml"@))) by {
        reveal_strlit("u04.xhtml");
        lemma_fits("u04.xhtml"@);
    }
    assert(archive::name_fits(epub::oebps_name("sources.xhtml"@))) by {
        reveal_strlit("sources.xhtml");
        lemma_fits("sources.xhtml"@);
    }
}

proof fn lemma_drawing_names_fit(
    badge: Option<Seq<u8>>,
    diagram: Option<Seq<u8>>,
    figure: Option<Seq<u8>>,
)
    ensures
        epub::names_fit(Seq::empty(), sample_resources(badge, diagram, figure)),
{
    assert(archive::name_fits(epub::oebps_name("media/badge.png"@))) by {
        reveal_strlit("media/badge.png");
        lemma_fits("media/badge.png"@);
    }
    assert(archive::name_fits(epub::oebps_name("media/diagram.png"@))) by {
        reveal_strlit("media/diagram.png");
        lemma_fits("media/diagram.png"@);
    }
    assert(archive::name_fits(epub::oebps_name("media/figure.png"@))) by {
        reveal_strlit("media/figure.png");
        lemma_fits("media/figure.png"@);
    }
    let a = drawing("media/badge.png"@, badge);
    let b = drawing("media/diagram.png"@, diagram);
    let c = drawing("media/figure.png"@, figure);
    let all = sample_resources(badge, diagram, figure);
    assert forall|i: int| 0 <= i < all.len() implies archive::name_fits(
        epub::oebps_name(#[trigger] all[i].filename),
    ) by {
        if i < a.len() {
            assert(all[i] == a[i]);
        } else if i < a.len() + b.len() {
            assert(all[i] == b[i - a.len()]);
        } else {
            assert(all[i] == c[i - a.len() - b.len()]);
        }
    }
}

proof fn lemma_sample_pages_fit(
    cover: Seq<char>,
    structure: Seq<char>,
    code: Seq<char>,
    check: Seq<char>,
    sources: Seq<char>,
)
    ensures
        epub::names_fit(sample_pages(cover, structure, code, check, sources), Seq::empty()),
{
    let chapters = sample_pages(cover, structure, code, check, sources);
    let names = Seq::new(6, |i: int| chapters[i].filename);
    assert(names =~= seq![
        "cover.xhtml"@,
        "u01.xhtml"@,
        "u02.xhtml"@,
        "u03.xhtml"@,
        "u04.xhtml"@,
        "sources.xhtml"@,
    ]);
    lemma_chapter_names_fit(names);
    assert forall|i: int| 0 <= i < chapters.len() implies archive::name_fits(
        epub::oebps_name(#[trigger] chapters[i].filename),
    ) by {
        assert(names[i] == chapters[i].filename);
    }
}

proof fn lemma_page_names_fit(date_stamp: Seq<char>)
    ensures
        epub::names_fit(sample_chapters(date_stamp), Seq::empty()),
{
    lemma_sample_pages_fit(
        sample_cover_text(date_stamp),
        markdown::xhtml_of(TEST_TEXT_MD@, "media"@, ""@),
        markdown::xhtml_of(TEST_CODE_MD@, "media"@, ""@),
        quiz::quiz_text(sample_quiz()),
        sample_sources_text(),
    );
}

proof fn lemma_names_fit_apart(chapters: Seq<ChapterView>, resources: Seq<ResourceView>)
    requires
        epub::names_fit(chapters, Seq::empty()),
        epub::names_fit(Seq::empty(), resources),
    ensures
        epub::names_fit(chapters, resources),
{
}

proof fn lemma_sample_names_fit(
    date_stamp: Seq<char>,
    badge: Option<Seq<u8>>,
    diagram: Option<Seq<u8>>,
    figure: Option<Seq<u8>>,
)
    ensures
        epub::names_fit(sample_chapters(date_stamp), sample_resources(badge, diagram, figure)),
{
    lemma_page_names_fit(date_stamp);
    lemma_drawing_names_fit(badge, diagram, figure);
    lemma_names_fit_apart(
        sample_chapters(date_stamp),
        sample_resources(badge, diagram, figure),
    );
}

proof fn lemma_fits(filename: Seq<char>)
    requires
        assemble::short_name(filename),
    ensures
        archive::name_fits(epub::oebps_name(filename)),
{
    reveal_strlit("OEBPS/");
    assemble::lemma_short_cat("OEBPS/"@, filename);
    epub::lemma_ascii_name_fits(epub::oebps_name(filename));
}

proof fn lemma_sample_nav_size()
    ensures
        epub::nav_size(sample_nav(), sample_nav().len()) == 7,
{
    let nav = sample_nav();
    assemble::lemma_nav_size_leaves(nav[1].children, 4);
    assert(epub::nav_size(nav, 0) == 0);
    assert(epub::nav_size(nav[0].children, 0) == 0);
    assert(epub::nav_size(nav[2].children, 0) == 0);
    assert(epub::nav_size(nav, 1) == 1);
    assert(epub::nav_size(nav, 2) == 6);
}

/// Builds the sample book. `badge`, `diagram` and `figure` are the drawings of [`TEST_BADGE_SVG`],
/// [`TEST_DIAGRAM_SVG`] and [`TEST_FIGURE_SVG`] as PNG files; one that could not be drawn is left
/// out.
pub fn build_test_epub(
    date_stamp: &str,
    badge: Option<Vec<u8>>,
    diagram: Option<Vec<u8>>,
    figure: Option<Vec<u8>>,
) -> (r: Result<Vec<u8>, ResolveError>)
    ensures
        r is Ok <==> archive::packs(
            sample_package(date_stamp@, bytes_of(badge), bytes_of(diagram), bytes_of(figure)),
        ),
        r matches Ok(bytes) ==> archive::archive_entries(bytes@) == sample_package(
            date_stamp@,
            bytes_of(badge),
            bytes_of(diagram),
            bytes_of(figure),
        ),
        r matches Err(e) ==> assemble::is_packing_error(e.deep_view()),
{
    let chapters = chapters_of_sample(date_stamp);
    let nav = nav_of_sample();
    let mut resources: Vec<Resource> = Vec::new();
    proof {
        lemma_sample_names_fit(date_stamp@, bytes_of(badge), bytes_of(diagram), bytes_of(figure));
        lemma_sample_nav_size();
    }
    assert(resources.deep_view() =~= Seq::<ResourceView>::empty());
    let ghost all = sample_resources(bytes_of(badge), bytes_of(diagram), bytes_of(figure));
    push_png(&mut resources, "media/badge.png", badge);
    push_png(&mut resources, "media/diagram.png", diagram);
    push_png(&mut resources, "media/figure.png", figure);
    assert(resources.deep_view() =~= all);
    let modified = assemble::modified_of(date_stamp);
    assemble::packed(
        epub::build_epub(
            "mslx rendering test book",
            "mslx-test-book",
            modified.as_str(),
            "en",
            chapters.as_slice(),
            &nav,
            resources.as_slice(),
        ),
    )
}

// ---------------------------------------------------------------------------
// Drawings and texts
// ---------------------------------------------------------------------------

/// The badge on the cover.
pub const TEST_BADGE_SVG: &'static str = r##"<svg xmlns="http://www.w3.org/2000/svg" width="220" height="220" viewBox="0 0 220 220">
<path d="M110 12 L196 44 L196 120 Q196 184 110 208 Q24 184 24 120 L24 44 Z" fill="#0b3d5c"/>
<text x="110" y="100" font-family="sans-serif" font-size="30" font-weight="bold" fill="#ffffff" text-anchor="middle">mslx</text>
<text x="110" y="138" font-family="sans-serif" font-size="18" fill="#bcd6ea" text-anchor="middle">TEST</text>
</svg>"##;

/// A diagram with labels.
pub const TEST_DIAGRAM_SVG: &'static str = r##"<svg xmlns="http://www.w3.org/2000/svg" width="520" height="180" viewBox="0 0 520 180">
<rect x="20" y="60" width="150" height="60" rx="8" fill="#e8f0f7" stroke="#0b3d5c" stroke-width="2"/>
<text x="95" y="96" font-family="sans-serif" font-size="18" fill="#0b3d5c" text-anchor="middle">Client</text>
<rect x="350" y="60" width="150" height="60" rx="8" fill="#e8f0f7" stroke="#0b3d5c" stroke-width="2"/>
<text x="425" y="96" font-family="sans-serif" font-size="18" fill="#0b3d5c" text-anchor="middle">Server</text>
<line x1="170" y1="90" x2="345" y2="90" stroke="#0b3d5c" stroke-width="2"/>
<polygon points="345,90 333,84 333,96" fill="#0b3d5c"/>
<text x="258" y="78" font-family="sans-serif" font-size="14" fill="#33526a" text-anchor="middle">HTTPS request</text>
</svg>"##;

/// A figure with a gradient, shapes and a label.
pub const TEST_FIGURE_SVG: &'static str = r##"<svg xmlns="http://www.w3.org/2000/svg" width="440" height="220" viewBox="0 0 440 220">
<defs><linearGradient id="g" x1="0" y1="0" x2="1" y2="1"><stop offset="0" stop-color="#4f8cc9"/><stop offset="1" stop-color="#0b3d5c"/></linearGradient></defs>
<rect width="440" height="220" fill="url(#g)"/>
<circle cx="130" cy="110" r="56" fill="#ffd24d"/>
<rect x="220" y="70" width="170" height="80" rx="10" fill="#ffffff" opacity="0.92"/>
<text x="305" y="118" font-family="sans-serif" font-size="22" fill="#0b3d5c" text-anchor="middle">Sample figure</text>
</svg>"##;

/// The page that shows the diagram and the figure.
pub const TEST_IMAGE_BODY: &'static str = r##"<p>A rasterized SVG diagram. This tests inline SVG text rendering, which many EPUB readers cannot do natively but mslx bakes in:</p>
<img class="content-img" src="media/diagram.png" alt="Client to server request diagram"/>
<p>A figure with a gradient, shapes, and a label:</p>
<img class="content-img" src="media/figure.png" alt="Sample figure"/>
"##;

/// The page of text and structural elements.
pub const TEST_TEXT_MD: &'static str = r##"This unit shows the text and structural elements. This paragraph mixes **bold**, *italic*, ~~strikethrough~~, and `inline code` such as `az group list`, plus a [link to Microsoft Learn](https://learn.microsoft.com/).

### Unordered and nested lists

- First item
- Second item
  - Nested item A
  - Nested item B
- Third item

### Ordered list

1. Create a resource group.
2. Deploy the template.
3. Verify the deployment.

### Table

| Resource | SKU | Region |
| --- | --- | --- |
| Storage account | Standard_LRS | westus2 |
| Virtual machine | Standard_DS1_v2 | eastus |
| Key vault | Standard | westeurope |

### Blockquote

> **Note** Blockquotes are used for notes, tips, and warnings throughout Microsoft Learn content.

A footnote reference sits here.[^1]

[^1]: This is the footnote text, rendered at the end of the section.
"##;

/// The page of code.
pub const TEST_CODE_MD: &'static str = r##"This unit shows code rendering. Inline commands like `az login` and parameters like `--resource-group` appear in prose.

### Long single-line command

```bash
RGROUP=$(az group create --name vmbackups --location westus2 --output tsv --query name)
```

### Multi-line command

```bash
az vm create \
    --resource-group $RGROUP \
    --name NW-APP01 \
    --image Win2025Datacenter \
    --admin-username azureuser \
    --generate-ssh-keys
```

### JSON

```json
{
  "parameters": {
    "storageName": { "type": "string", "minLength": 3, "maxLength": 24 }
  }
}
```

### PowerShell

```powershell
New-AzResourceGroup -Name "vmbackups" -Location "westus2"
```
"##;

} // verus!
