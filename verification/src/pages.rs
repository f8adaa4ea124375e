//! The pages of a book that are not units: covers, part openings, source lists, and the report on
//! what could not be had.

use crate::epub;
use crate::outline;
use crate::text;
use crate::tree;
use crate::tree::Book;
use crate::tree::BookView;
use crate::tree::ModuleNode;
use crate::tree::ModuleView;
use crate::tree::Part;
use crate::tree::PartView;
use vstd::prelude::*;
use vstd::string::*;

verus! {

broadcast use vstd::seq_lib::group_seq_properties;

/// The mslx project repo, linked from each book's provenance line.
pub const MSLX_REPO: &'static str = "github.com/ashirokikh/mslx";

// ---------------------------------------------------------------------------
// What a unit's page holds
// ---------------------------------------------------------------------------

/// A unit's page: its XHTML body, its Learn page and the raw URL of its source (empty where it has
/// none).
#[derive(Debug)]
pub struct UnitContent {
    pub body: String,
    pub learn_url: String,
    pub raw_url: String,
    /// The page stands in for content that was not matched to a file or could not be fetched.
    pub placeholder: bool,
}

/// What a [`UnitContent`] holds.
pub struct UnitContentView {
    pub body: Seq<char>,
    pub learn_url: Seq<char>,
    pub raw_url: Seq<char>,
    pub placeholder: bool,
}

impl DeepView for UnitContent {
    type V = UnitContentView;

    open spec fn deep_view(&self) -> UnitContentView {
        UnitContentView {
            body: self.body@,
            learn_url: self.learn_url@,
            raw_url: self.raw_url@,
            placeholder: self.placeholder,
        }
    }
}

/// A unit's place in the sources appendix: its number in the book, counted from one, and the
/// titles of its module and of itself.
#[derive(Debug)]
pub struct SourceSlot {
    pub gidx: usize,
    pub module_title: String,
    pub unit_title: String,
}

/// What a [`SourceSlot`] holds.
pub struct SourceSlotView {
    pub gidx: nat,
    pub module_title: Seq<char>,
    pub unit_title: Seq<char>,
}

impl DeepView for SourceSlot {
    type V = SourceSlotView;

    open spec fn deep_view(&self) -> SourceSlotView {
        SourceSlotView {
            gidx: self.gidx as nat,
            module_title: self.module_title@,
            unit_title: self.unit_title@,
        }
    }
}

// ---------------------------------------------------------------------------
// Covers and openings
// ---------------------------------------------------------------------------

/// A badge, where its URL can be fetched.
pub open spec fn badge_text(icon_url: Option<Seq<char>>) -> Seq<char> {
    match icon_url {
        Some(u) if text::has_prefix(u, "http"@) =>
            "<p class=\"badge-wrap\"><img class=\"badge\" src=\""@ + epub::escaped(u)
            + "\" alt=\"badge\"/></p>\n"@,
        _ => Seq::empty(),
    }
}

/// A centered badge `<img>`. It shows the SVG's URL; embedding the images makes it a PNG so that
/// it renders in every reader.
pub fn badge_img(icon_url: &Option<String>) -> (r: String)
    ensures
        r@ == badge_text(icon_url.deep_view()),
{
    if let Some(u) = icon_url {
        if text::starts_with(text::chars_of(u.as_str()).as_slice(), "http") {
            let mut s = "<p class=\"badge-wrap\"><img class=\"badge\" src=\"".to_owned();
            s.append(epub::esc(u.as_str()).as_str());
            s.append("\" alt=\"badge\"/></p>\n");
            return s;
        }
    }
    String::new()
}

/// The line that says what the book is.
pub open spec fn provenance_text(date_stamp: Seq<char>) -> Seq<char> {
    "<p class=\"muted\">Microsoft Learn study export, assembled "@ + epub::escaped(date_stamp)
        + " for personal study. Content is Microsoft's; original sources are listed at the end.</p>\n"@
}

fn provenance(date_stamp: &str) -> (r: String)
    ensures
        r@ == provenance_text(date_stamp@),
{
    let mut s = "<p class=\"muted\">Microsoft Learn study export, assembled ".to_owned();
    s.append(epub::esc(date_stamp).as_str());
    s.append(
        " for personal study. Content is Microsoft's; original sources are listed at the end.</p>\n",
    );
    s
}

/// The cover of a certification's book.
pub open spec fn cover_text(book: BookView, date_stamp: Seq<char>) -> Seq<char> {
    badge_text(book.icon_url) + provenance_text(date_stamp)
        + "<p><strong>Certification:</strong> "@ + epub::escaped(book.title)
        + "</p>\n<p><strong>"@ + text::decimal(book.parts.len()) + " parts &#183; "@
        + text::decimal(book.module_count()) + " modules &#183; "@ + text::decimal(
        book.unit_count(),
    ) + " units &#183; about "@ + text::decimal(outline::whole_hours(book.total_minutes()))
        + " hours</strong></p>\n"@
}

/// The cover of a certification's book.
pub fn cover_body(book: &Book, date_stamp: &str) -> (r: String)
    requires
        book.deep_view().countable(),
    ensures
        r@ == cover_text(book.deep_view(), date_stamp@),
{
    let mut s = badge_img(&book.icon_url);
    s.append(provenance(date_stamp).as_str());
    s.append("<p><strong>Certification:</strong> ");
    s.append(epub::esc(book.title.as_str()).as_str());
    s.append("</p>\n<p><strong>");
    s.append(text::decimal_text(book.parts.len() as u64).as_str());
    s.append(" parts &#183; ");
    s.append(text::decimal_text(book.module_count() as u64).as_str());
    s.append(" modules &#183; ");
    s.append(text::decimal_text(book.unit_count() as u64).as_str());
    s.append(" units &#183; about ");
    s.append(text::decimal_text(outline::hours_rounded(book.total_minutes()) as u64).as_str());
    s.append(" hours</strong></p>\n");
    s
}

/// The modules that a part's opening lists.
pub open spec fn module_items(modules: Seq<ModuleView>, n: nat) -> Seq<char>
    decreases n,
{
    if n == 0 {
        Seq::empty()
    } else {
        let m = modules[n - 1];
        module_items(modules, (n - 1) as nat) + ("  <li>"@ + epub::escaped(m.title)
            + " <span class=\"muted\">(about "@ + text::decimal(
            tree::minutes_or_zero(m.duration_in_minutes),
        ) + " min)</span></li>\n"@)
    }
}

/// The opening of a part.
pub open spec fn part_intro_text(n: nat, part: PartView) -> Seq<char> {
    badge_text(part.icon_url) + "<p class=\"muted\">Part "@ + text::decimal(n)
        + "</p>\n<p><strong>Modules in this part:</strong></p>\n<ul>\n"@ + module_items(
        part.modules,
        part.modules.len(),
    ) + "</ul>\n"@
}

/// The opening of the `n`th part.
pub fn part_intro_body(n: usize, part: &Part) -> (r: String)
    ensures
        r@ == part_intro_text(n as nat, part.deep_view()),
{
    let ghost all = part.modules.deep_view();
    let k: usize = part.modules.len();
    let mut items = String::new();
    for i in 0..k
        invariant
            k == part.modules@.len(),
            all == part.modules.deep_view(),
            items@ == module_items(all, i as nat),
    {
        let m = &part.modules[i];
        assert(all[i as int] == m.deep_view());
        let mut item = "  <li>".to_owned();
        item.append(epub::esc(m.title.as_str()).as_str());
        item.append(" <span class=\"muted\">(about ");
        item.append(
            text::decimal_text(tree::known_minutes(m.duration_in_minutes) as u64).as_str(),
        );
        item.append(" min)</span></li>\n");
        items.append(item.as_str());
    }
    let mut s = badge_img(&part.icon_url);
    s.append("<p class=\"muted\">Part ");
    s.append(text::decimal_text(n as u64).as_str());
    s.append("</p>\n<p><strong>Modules in this part:</strong></p>\n<ul>\n");
    s.append(items.as_str());
    s.append("</ul>\n");
    s
}

/// A link that shows its own target.
pub open spec fn plain_link(url: Seq<char>) -> Seq<char> {
    "<a href=\""@ + epub::escaped(url) + "\">"@ + epub::escaped(url) + "</a>"@
}

fn link(url: &str) -> (r: String)
    ensures
        r@ == plain_link(url@),
{
    let e = epub::esc(url);
    let mut s = "<a href=\"".to_owned();
    s.append(e.as_str());
    s.append("\">");
    s.append(e.as_str());
    s.append("</a>");
    s
}

/// The title page of a single module's book.
pub open spec fn title_page_text(
    title: Seq<char>,
    module_url: Seq<char>,
    module: ModuleView,
    date_stamp: Seq<char>,
) -> Seq<char> {
    provenance_text(date_stamp) + "<p><strong>Module:</strong> "@ + epub::escaped(title)
        + "</p>\n<p><strong>Source:</strong> "@ + plain_link(module_url)
        + "</p>\n<p><strong>Units:</strong> "@ + text::decimal(module.units.len())
        + " &#183; about "@ + text::decimal(tree::minutes_or_zero(module.duration_in_minutes))
        + " min</p>\n"@
}

/// The title page of a single module's book.
pub fn title_page_body(title: &str, module_url: &str, module: &ModuleNode, date_stamp: &str) -> (r:
    String)
    ensures
        r@ == title_page_text(title@, module_url@, module.deep_view(), date_stamp@),
{
    let mut s = provenance(date_stamp);
    s.append("<p><strong>Module:</strong> ");
    s.append(epub::esc(title).as_str());
    s.append("</p>\n<p><strong>Source:</strong> ");
    s.append(link(module_url).as_str());
    s.append("</p>\n<p><strong>Units:</strong> ");
    s.append(text::decimal_text(module.units.len() as u64).as_str());
    s.append(" &#183; about ");
    s.append(text::decimal_text(tree::known_minutes(module.duration_in_minutes) as u64).as_str());
    s.append(" min</p>\n");
    s
}

// ---------------------------------------------------------------------------
// Sources
// ---------------------------------------------------------------------------

/// A unit in a list of sources: its title, its Learn page and, where it has one, its source.
pub open spec fn source_item(title: Seq<char>, learn_url: Seq<char>, raw_url: Seq<char>) -> Seq<
    char,
> {
    "  <li>"@ + epub::escaped(title) + "<br/>\n    "@ + plain_link(learn_url) + (if raw_url.len()
        > 0 {
        "<br/>\n    <span class=\"muted\">source: "@ + plain_link(raw_url) + "</span>"@
    } else {
        Seq::empty()
    }) + "</li>\n"@
}

fn source_entry(title: &str, learn_url: &str, raw_url: &str) -> (r: String)
    ensures
        r@ == source_item(title@, learn_url@, raw_url@),
{
    let mut s = "  <li>".to_owned();
    s.append(epub::esc(title).as_str());
    s.append("<br/>\n    ");
    s.append(link(learn_url).as_str());
    let mut source = String::new();
    if !raw_url.is_empty() {
        source = "<br/>\n    <span class=\"muted\">source: ".to_owned();
        source.append(link(raw_url).as_str());
        source.append("</span>");
    }
    s.append(source.as_str());
    s.append("</li>\n");
    s
}

/// The sources of the first `n` units of a module.
pub open spec fn source_items(
    titles: Seq<Seq<char>>,
    contents: Seq<UnitContentView>,
    n: nat,
) -> Seq<char>
    decreases n,
{
    if n == 0 {
        Seq::empty()
    } else {
        source_items(titles, contents, (n - 1) as nat) + source_item(
            titles[n - 1],
            contents[n - 1].learn_url,
            contents[n - 1].raw_url,
        )
    }
}

/// The sources appendix of a single module's book.
pub open spec fn sources_text(
    title: Seq<char>,
    module_url: Seq<char>,
    titles: Seq<Seq<char>>,
    contents: Seq<UnitContentView>,
    date_stamp: Seq<char>,
) -> Seq<char> {
    "<p>Assembled from <a href=\""@ + epub::escaped(module_url) + "\">"@ + epub::escaped(title)
        + "</a> on "@ + epub::escaped(date_stamp)
        + ". Each unit's original Learn page and content source:</p>\n<ol>\n"@ + source_items(
        titles,
        contents,
        titles.len(),
    ) + "</ol>\n"@
}

/// The sources appendix of a single module's book: `titles` are those of its units, `contents`
/// their pages.
pub fn sources_body(
    title: &str,
    module_url: &str,
    titles: &Vec<String>,
    contents: &Vec<UnitContent>,
    date_stamp: &str,
) -> (r: String)
    requires
        contents@.len() == titles@.len(),
    ensures
        r@ == sources_text(
            title@,
            module_url@,
            titles.deep_view(),
            contents.deep_view(),
            date_stamp@,
        ),
{
    let ghost names = titles.deep_view();
    let ghost all = contents.deep_view();
    let n: usize = titles.len();
    let mut items = String::new();
    for i in 0..n
        invariant
            n == titles@.len(),
            n == contents@.len(),
            names == titles.deep_view(),
            all == contents.deep_view(),
            items@ == source_items(names, all, i as nat),
    {
        assert(names[i as int] == titles@[i as int]@);
        assert(all[i as int] == contents@[i as int].deep_view());
        items.append(
            source_entry(
                titles[i].as_str(),
                contents[i].learn_url.as_str(),
                contents[i].raw_url.as_str(),
            ).as_str(),
        );
    }
    let mut s = "<p>Assembled from <a href=\"".to_owned();
    s.append(epub::esc(module_url).as_str());
    s.append("\">");
    s.append(epub::esc(title).as_str());
    s.append("</a> on ");
    s.append(epub::esc(date_stamp).as_str());
    s.append(". Each unit's original Learn page and content source:</p>\n<ol>\n");
    s.append(items.as_str());
    s.append("</ol>\n");
    s
}

/// The URLs of a unit's page, by its number: empty where there is no page of that number.
pub open spec fn urls_of(contents: Seq<UnitContentView>, gidx: nat) -> (Seq<char>, Seq<char>) {
    if 1 <= gidx <= contents.len() {
        (contents[gidx - 1].learn_url, contents[gidx - 1].raw_url)
    } else {
        (Seq::empty(), Seq::empty())
    }
}

/// What stands before the `i`th slot: a module's heading where the module changes.
pub open spec fn slot_heading(slots: Seq<SourceSlotView>, i: int) -> Seq<char> {
    if i == 0 || slots[i - 1].module_title != slots[i].module_title {
        (if i == 0 {
            Seq::empty()
        } else {
            "</ol>\n"@
        }) + ("<h3>"@ + epub::escaped(slots[i].module_title) + "</h3>\n<ol>\n"@)
    } else {
        Seq::empty()
    }
}

/// The first `n` slots with their headings.
pub open spec fn slot_items(
    slots: Seq<SourceSlotView>,
    contents: Seq<UnitContentView>,
    n: nat,
) -> Seq<char>
    decreases n,
{
    if n == 0 {
        Seq::empty()
    } else {
        let (learn_url, raw_url) = urls_of(contents, slots[n - 1].gidx);
        slot_items(slots, contents, (n - 1) as nat) + slot_heading(slots, n - 1) + source_item(
            slots[n - 1].unit_title,
            learn_url,
            raw_url,
        )
    }
}

/// The sources appendix of a certification's book, grouped by module in reading order.
pub open spec fn flat_sources_text(
    book_title: Seq<char>,
    slots: Seq<SourceSlotView>,
    contents: Seq<UnitContentView>,
    date_stamp: Seq<char>,
) -> Seq<char> {
    "<p>Assembled from <a href=\"https://learn.microsoft.com/credentials/certifications/\">"@
        + epub::escaped(book_title) + "</a> on "@ + epub::escaped(date_stamp)
        + ". Original Learn pages and content sources, by module:</p>\n"@ + slot_items(
        slots,
        contents,
        slots.len(),
    ) + (if slots.len() > 0 {
        "</ol>\n"@
    } else {
        Seq::empty()
    })
}

fn heading_of(slots: &Vec<SourceSlot>, i: usize) -> (r: String)
    requires
        i < slots@.len(),
    ensures
        r@ == slot_heading(slots.deep_view(), i as int),
{
    let ghost all = slots.deep_view();
    assert(all[i as int] == slots@[i as int].deep_view());
    let mut changed = true;
    if i > 0 {
        assert(all[i - 1] == slots@[i - 1].deep_view());
        changed = !text::same_text(
            slots[i - 1].module_title.as_str(),
            slots[i].module_title.as_str(),
        );
    }
    if !changed {
        return String::new();
    }
    let mut head = "<h3>".to_owned();
    head.append(epub::esc(slots[i].module_title.as_str()).as_str());
    head.append("</h3>\n<ol>\n");
    let mut s = if i == 0 {
        String::new()
    } else {
        "</ol>\n".to_owned()
    };
    s.append(head.as_str());
    s
}

/// Builds the sources appendix from the flat, ordered unit slots and the units' pages, with a
/// module heading whenever the module changes.
pub fn cert_sources_body_flat(
    book_title: &str,
    slots: &Vec<SourceSlot>,
    contents: &Vec<UnitContent>,
    date_stamp: &str,
) -> (r: String)
    ensures
        r@ == flat_sources_text(
            book_title@,
            slots.deep_view(),
            contents.deep_view(),
            date_stamp@,
        ),
{
    let ghost all = slots.deep_view();
    let ghost pages = contents.deep_view();
    let n: usize = slots.len();
    let count: usize = contents.len();
    let mut items = String::new();
    for i in 0..n
        invariant
            n == slots@.len(),
            count == contents@.len(),
            all == slots.deep_view(),
            pages == contents.deep_view(),
            items@ == slot_items(all, pages, i as nat),
    {
        let slot = &slots[i];
        assert(all[i as int] == slot.deep_view());
        let entry = if 1 <= slot.gidx && slot.gidx <= count {
            let c = &contents[slot.gidx - 1];
            assert(pages[slot.gidx - 1] == c.deep_view());
            source_entry(slot.unit_title.as_str(), c.learn_url.as_str(), c.raw_url.as_str())
        } else {
            let none = String::new();
            source_entry(slot.unit_title.as_str(), none.as_str(), none.as_str())
        };
        items.append(heading_of(slots, i).as_str());
        items.append(entry.as_str());
    }
    let mut s =
        "<p>Assembled from <a href=\"https://learn.microsoft.com/credentials/certifications/\">".to_owned();
    s.append(epub::esc(book_title).as_str());
    s.append("</a> on ");
    s.append(epub::esc(date_stamp).as_str());
    s.append(". Original Learn pages and content sources, by module:</p>\n");
    s.append(items.as_str());
    if n > 0 {
        s.append("</ol>\n");
    } else {
        assert(s@ =~= s@ + Seq::<char>::empty());
    }
    s
}

/// The line at the very end of a book, so that a reader can find the project.
pub open spec fn made_with_text() -> Seq<char> {
    "<hr/>\n<p class=\"muted\">Made with mslx. Source and issues at <a href=\"https://"@
        + MSLX_REPO@ + "\">"@ + MSLX_REPO@ + "</a>.</p>\n"@
}

pub fn made_with() -> (r: String)
    ensures
        r@ == made_with_text(),
{
    let mut s =
        "<hr/>\n<p class=\"muted\">Made with mslx. Source and issues at <a href=\"https://".to_owned();
    s.append(MSLX_REPO);
    s.append("\">");
    s.append(MSLX_REPO);
    s.append("</a>.</p>\n");
    s
}

// ---------------------------------------------------------------------------
// The report
// ---------------------------------------------------------------------------

/// A text inside a JSON string of the report.
pub open spec fn json_escaped(s: Seq<char>) -> Seq<char> {
    text::replaced(
        text::replaced(
            text::replaced(
                text::replaced(text::replaced(s, "\\"@, "\\\\"@), "\""@, "\\\""@),
                "\n"@,
                " "@,
            ),
            "\r"@,
            " "@,
        ),
        "\t"@,
        " "@,
    )
}

fn replaced_in(s: &str, needle: &str, by: &str) -> (r: String)
    requires
        needle@.len() > 0,
    ensures
        r@ == text::replaced(s@, needle@, by@),
{
    text::replace_all(text::chars_of(s).as_slice(), needle, by)
}

/// Minimal JSON string escaping for the progress report payload.
pub fn json_escape(s: &str) -> (r: String)
    ensures
        r@ == json_escaped(s@),
{
    proof {
        reveal_strlit("\\");
        reveal_strlit("\"");
        reveal_strlit("\n");
        reveal_strlit("\r");
        reveal_strlit("\t");
    }
    let a = replaced_in(s, "\\", "\\\\");
    let b = replaced_in(a.as_str(), "\"", "\\\"");
    let c = replaced_in(b.as_str(), "\n", " ");
    let d = replaced_in(c.as_str(), "\r", " ");
    replaced_in(d.as_str(), "\t", " ")
}

/// A list of texts as the items of a JSON list.
pub open spec fn json_items(texts: Seq<Seq<char>>) -> Seq<char> {
    text::join(texts.map_values(|t: Seq<char>| "\""@ + json_escaped(t) + "\""@), ","@)
}

fn items_of(texts: &Vec<String>) -> (r: String)
    ensures
        r@ == json_items(texts.deep_view()),
{
    let ghost all = texts.deep_view();
    let ghost want = all.map_values(|t: Seq<char>| "\""@ + json_escaped(t) + "\""@);
    let n: usize = texts.len();
    let mut items: Vec<String> = Vec::new();
    for i in 0..n
        invariant
            n == texts@.len(),
            all == texts.deep_view(),
            want == all.map_values(|t: Seq<char>| "\""@ + json_escaped(t) + "\""@),
            items.deep_view() =~= want.take(i as int),
    {
        assert(all[i as int] == texts@[i as int]@);
        let mut item = "\"".to_owned();
        item.append(json_escape(texts[i].as_str()).as_str());
        item.append("\"");
        text::push_item(&mut items, item);
    }
    assert(items.deep_view() =~= want);
    text::join_texts(&items, ",")
}

/// The units among the first `n` slots whose pages are placeholders.
pub open spec fn placeholders_first(
    slots: Seq<SourceSlotView>,
    contents: Seq<UnitContentView>,
    n: nat,
) -> Seq<Seq<char>>
    decreases n,
{
    if n == 0 {
        Seq::empty()
    } else {
        let before = placeholders_first(slots, contents, (n - 1) as nat);
        let s = slots[n - 1];
        if 1 <= s.gidx <= contents.len() && contents[s.gidx - 1].placeholder {
            before.push(s.module_title + " / "@ + s.unit_title)
        } else {
            before
        }
    }
}

/// The report on a book: which modules had no content, and which units are placeholders.
pub open spec fn report_text(
    book_title: Seq<char>,
    missing: Seq<Seq<char>>,
    slots: Seq<SourceSlotView>,
    contents: Seq<UnitContentView>,
) -> Seq<char> {
    "__MSLX_REPORT__{\"resolved\":\""@ + json_escaped(book_title) + "\",\"missing\":["@
        + json_items(missing) + "],\"unitPlaceholders\":["@ + json_items(
        placeholders_first(slots, contents, slots.len()),
    ) + "]}"@
}

fn placeholders(slots: &Vec<SourceSlot>, contents: &Vec<UnitContent>) -> (r: Vec<String>)
    ensures
        r.deep_view() == placeholders_first(
            slots.deep_view(),
            contents.deep_view(),
            slots@.len(),
        ),
{
    let ghost all = slots.deep_view();
    let ghost pages = contents.deep_view();
    let n: usize = slots.len();
    let count: usize = contents.len();
    let mut r: Vec<String> = Vec::new();
    for i in 0..n
        invariant
            n == slots@.len(),
            count == contents@.len(),
            all == slots.deep_view(),
            pages == contents.deep_view(),
            r.deep_view() =~= placeholders_first(all, pages, i as nat),
    {
        let slot = &slots[i];
        assert(all[i as int] == slot.deep_view());
        if 1 <= slot.gidx && slot.gidx <= count {
            assert(pages[slot.gidx - 1] == contents@[slot.gidx - 1].deep_view());
            if contents[slot.gidx - 1].placeholder {
                let mut name = slot.module_title.clone();
                name.append(" / ");
                name.append(slot.unit_title.as_str());
                text::push_item(&mut r, name);
            }
        }
    }
    r
}

/// Reports which modules had no content and which individual units rendered a placeholder,
/// marker-prefixed so that a page can intercept it from the progress stream rather than display
/// it.
pub fn report(
    book_title: &str,
    missing: &Vec<String>,
    slots: &Vec<SourceSlot>,
    contents: &Vec<UnitContent>,
) -> (r: String)
    ensures
        r@ == report_text(
            book_title@,
            missing.deep_view(),
            slots.deep_view(),
            contents.deep_view(),
        ),
{
    let mut s = "__MSLX_REPORT__{\"resolved\":\"".to_owned();
    s.append(json_escape(book_title).as_str());
    s.append("\",\"missing\":[");
    s.append(items_of(missing).as_str());
    s.append("],\"unitPlaceholders\":[");
    s.append(items_of(&placeholders(slots, contents)).as_str());
    s.append("]}");
    s
}

// ---------------------------------------------------------------------------
// Laws
// ---------------------------------------------------------------------------

/// A text as the report names it.
pub open spec fn json_item(t: Seq<char>) -> Seq<char> {
    "\""@ + json_escaped(t) + "\""@
}

proof fn lemma_items_have(texts: Seq<Seq<char>>, i: int)
    requires
        0 <= i < texts.len(),
    ensures
        text::contains_text(json_items(texts), json_item(texts[i])),
{
    let items = texts.map_values(|t: Seq<char>| "\""@ + json_escaped(t) + "\""@);
    text::lemma_join_has(items, ","@, i);
}

proof fn lemma_report_keeps(
    book_title: Seq<char>,
    missing: Seq<Seq<char>>,
    slots: Seq<SourceSlotView>,
    contents: Seq<UnitContentView>,
    item: Seq<char>,
)
    requires
        text::contains_text(json_items(missing), item) || text::contains_text(
            json_items(placeholders_first(slots, contents, slots.len())),
            item,
        ),
    ensures
        text::contains_text(report_text(book_title, missing, slots, contents), item),
{
    let head = "__MSLX_REPORT__{\"resolved\":\""@ + json_escaped(book_title)
        + "\",\"missing\":["@;
    let a = json_items(missing);
    let mid = "],\"unitPlaceholders\":["@;
    let b = json_items(placeholders_first(slots, contents, slots.len()));
    text::lemma_contains_cat(head, a, item);
    text::lemma_contains_cat(head + a, mid, item);
    text::lemma_contains_cat(head + a + mid, b, item);
    text::lemma_contains_cat(head + a + mid + b, "]}"@, item);
}

proof fn lemma_placeholder_listed(
    slots: Seq<SourceSlotView>,
    contents: Seq<UnitContentView>,
    n: nat,
    i: int,
)
    requires
        0 <= i < n <= slots.len(),
        1 <= slots[i].gidx <= contents.len(),
        contents[slots[i].gidx - 1].placeholder,
    ensures
        placeholders_first(slots, contents, n).contains(
            slots[i].module_title + " / "@ + slots[i].unit_title,
        ),
    decreases n,
{
    let name = slots[i].module_title + " / "@ + slots[i].unit_title;
    let now = placeholders_first(slots, contents, n);
    if i < n - 1 {
        lemma_placeholder_listed(slots, contents, (n - 1) as nat, i);
        let before = placeholders_first(slots, contents, (n - 1) as nat);
        let k = choose|k: int| 0 <= k < before.len() && before[k] == name;
        assert(now[k] == name);
    } else {
        assert(now[now.len() - 1] == name);
    }
}

/// The report names every module that had no content.
pub proof fn law_missing_modules_are_reported(
    book_title: Seq<char>,
    missing: Seq<Seq<char>>,
    slots: Seq<SourceSlotView>,
    contents: Seq<UnitContentView>,
    i: int,
)
    requires
        0 <= i < missing.len(),
    ensures
        text::contains_text(
            report_text(book_title, missing, slots, contents),
            json_item(missing[i]),
        ),
{
    lemma_items_have(missing, i);
    lemma_report_keeps(book_title, missing, slots, contents, json_item(missing[i]));
}

/// The report names every unit whose page is a placeholder.
pub proof fn law_placeholders_are_reported(
    book_title: Seq<char>,
    missing: Seq<Seq<char>>,
    slots: Seq<SourceSlotView>,
    contents: Seq<UnitContentView>,
    i: int,
)
    requires
        0 <= i < slots.len(),
        1 <= slots[i].gidx <= contents.len(),
        contents[slots[i].gidx - 1].placeholder,
    ensures
        text::contains_text(
            report_text(book_title, missing, slots, contents),
            json_item(slots[i].module_title + " / "@ + slots[i].unit_title),
        ),
{
    let name = slots[i].module_title + " / "@ + slots[i].unit_title;
    let all = placeholders_first(slots, contents, slots.len());
    lemma_placeholder_listed(slots, contents, slots.len(), i);
    let k = choose|k: int| 0 <= k < all.len() && all[k] == name;
    lemma_items_have(all, k);
    lemma_report_keeps(book_title, missing, slots, contents, json_item(name));
}

/// The report names no unit but those whose pages are placeholders.
pub proof fn law_only_placeholders_are_reported(
    slots: Seq<SourceSlotView>,
    contents: Seq<UnitContentView>,
    n: nat,
    k: int,
) -> (i: int)
    requires
        n <= slots.len(),
        0 <= k < placeholders_first(slots, contents, n).len(),
    ensures
        0 <= i < n,
        1 <= slots[i].gidx <= contents.len(),
        contents[slots[i].gidx - 1].placeholder,
        placeholders_first(slots, contents, n)[k] == slots[i].module_title + " / "@
            + slots[i].unit_title,
    decreases n,
{
    let before = placeholders_first(slots, contents, (n - 1) as nat);
    if k < before.len() {
        law_only_placeholders_are_reported(slots, contents, (n - 1) as nat, k)
    } else {
        n - 1
    }
}

/// A badge is shown from its address where that can be fetched, and nothing is shown otherwise.
pub proof fn law_badge_is_shown(url: Seq<char>)
    ensures
        text::has_prefix(url, "http"@) ==> text::contains_text(
            badge_text(Some(url)),
            "src=\""@ + epub::escaped(url) + "\""@,
        ),
        !text::has_prefix(url, "http"@) ==> badge_text(Some(url)) == Seq::<char>::empty(),
        badge_text(None) == Seq::<char>::empty(),
{
    if text::has_prefix(url, "http"@) {
        reveal_strlit("<p class=\"badge-wrap\"><img class=\"badge\" src=\"");
        reveal_strlit("<p class=\"badge-wrap\"><img class=\"badge\" ");
        reveal_strlit("src=\"");
        reveal_strlit("\" alt=\"badge\"/></p>\n");
        reveal_strlit("\"");
        reveal_strlit(" alt=\"badge\"/></p>\n");
        let a = "<p class=\"badge-wrap\"><img class=\"badge\" "@;
        let w = "src=\""@ + epub::escaped(url) + "\""@;
        let c = " alt=\"badge\"/></p>\n"@;
        assert("<p class=\"badge-wrap\"><img class=\"badge\" src=\""@ =~= a + "src=\""@);
        assert("\" alt=\"badge\"/></p>\n"@ =~= "\""@ + c);
        assert(badge_text(Some(url)) =~= a + w + c);
        text::lemma_contains_cat(a, w, w);
        text::lemma_contains_cat(a + w, c, w);
    }
}

/// The cover shows the book's badge, its title and how much it holds.
pub proof fn law_cover_counts_the_book(book: BookView, date_stamp: Seq<char>)
    ensures
        text::has_prefix(cover_text(book, date_stamp), badge_text(book.icon_url)),
        text::contains_text(
            cover_text(book, date_stamp),
            "<p><strong>Certification:</strong> "@ + epub::escaped(book.title)
                + "</p>\n<p><strong>"@ + text::decimal(book.parts.len()) + " parts &#183; "@
                + text::decimal(book.module_count()) + " modules &#183; "@ + text::decimal(
                book.unit_count(),
            ) + " units &#183; about "@ + text::decimal(
                outline::whole_hours(book.total_minutes()),
            ) + " hours</strong></p>\n"@,
        ),
        text::contains_text(cover_text(book, date_stamp), epub::escaped(date_stamp)),
{
    let f = badge_text(book.icon_url) + provenance_text(date_stamp);
    let a = "<p><strong>Certification:</strong> "@;
    let b = epub::escaped(book.title);
    let c = "</p>\n<p><strong>"@;
    let d = text::decimal(book.parts.len());
    let e = " parts &#183; "@;
    let g = text::decimal(book.module_count());
    let h = " modules &#183; "@;
    let i = text::decimal(book.unit_count());
    let j = " units &#183; about "@;
    let k = text::decimal(outline::whole_hours(book.total_minutes()));
    let l = " hours</strong></p>\n"@;
    let w = a + b + c + d + e + g + h + i + j + k + l;
    text::lemma_cat_assoc(f, a, b);
    text::lemma_cat_assoc(f, a + b, c);
    text::lemma_cat_assoc(f, a + b + c, d);
    text::lemma_cat_assoc(f, a + b + c + d, e);
    text::lemma_cat_assoc(f, a + b + c + d + e, g);
    text::lemma_cat_assoc(f, a + b + c + d + e + g, h);
    text::lemma_cat_assoc(f, a + b + c + d + e + g + h, i);
    text::lemma_cat_assoc(f, a + b + c + d + e + g + h + i, j);
    text::lemma_cat_assoc(f, a + b + c + d + e + g + h + i + j, k);
    text::lemma_cat_assoc(f, a + b + c + d + e + g + h + i + j + k, l);
    text::lemma_contains_cat(f, w, w);
    text::lemma_ends(badge_text(book.icon_url), provenance_text(date_stamp));
    text::lemma_prefix_cat(badge_text(book.icon_url), f, w);
    lemma_provenance_dated(date_stamp);
    text::lemma_contains_cat(
        badge_text(book.icon_url),
        provenance_text(date_stamp),
        epub::escaped(date_stamp),
    );
    text::lemma_contains_cat(f, w, epub::escaped(date_stamp));
}

proof fn lemma_provenance_dated(date_stamp: Seq<char>)
    ensures
        text::contains_text(provenance_text(date_stamp), epub::escaped(date_stamp)),
{
    let d = epub::escaped(date_stamp);
    let a = "<p class=\"muted\">Microsoft Learn study export, assembled "@;
    text::lemma_contains_cat(a, d, d);
    text::lemma_contains_cat(
        a + d,
        " for personal study. Content is Microsoft's; original sources are listed at the end.</p>\n"@,
        d,
    );
}

proof fn lemma_module_items_begin(modules: Seq<ModuleView>, n: nat, i: nat)
    requires
        i <= n <= modules.len(),
    ensures
        text::has_prefix(module_items(modules, n), module_items(modules, i)),
    decreases n,
{
    text::lemma_ends(module_items(modules, n), Seq::empty());
    if i < n {
        lemma_module_items_begin(modules, (n - 1) as nat, i);
        let m = modules[n - 1];
        text::lemma_prefix_cat(
            module_items(modules, i),
            module_items(modules, (n - 1) as nat),
            "  <li>"@ + epub::escaped(m.title) + " <span class=\"muted\">(about "@ + text::decimal(
                tree::minutes_or_zero(m.duration_in_minutes),
            ) + " min)</span></li>\n"@,
        );
    }
}

/// The opening of a part says its number and lists all its modules in its order, with their
/// minutes: the list up to a module ends with that module, and is the beginning of the whole list.
pub proof fn law_part_opens_with_its_modules(n: nat, part: PartView, i: int)
    requires
        0 <= i < part.modules.len(),
    ensures
        text::has_prefix(part_intro_text(n, part), badge_text(part.icon_url)),
        text::contains_text(part_intro_text(n, part), "Part "@ + text::decimal(n) + "</p>\n"@),
        text::has_suffix(
            part_intro_text(n, part),
            "<ul>\n"@ + module_items(part.modules, part.modules.len()) + "</ul>\n"@,
        ),
        text::has_prefix(
            module_items(part.modules, part.modules.len()),
            module_items(part.modules, (i + 1) as nat),
        ),
        text::has_suffix(
            module_items(part.modules, (i + 1) as nat),
            "  <li>"@ + epub::escaped(part.modules[i].title) + " <span class=\"muted\">(about "@
                + text::decimal(tree::minutes_or_zero(part.modules[i].duration_in_minutes))
                + " min)</span></li>\n"@,
        ),
{
    let m = part.modules[i];
    let item = "  <li>"@ + epub::escaped(m.title) + " <span class=\"muted\">(about "@
        + text::decimal(tree::minutes_or_zero(m.duration_in_minutes)) + " min)</span></li>\n"@;
    lemma_module_items_begin(part.modules, part.modules.len(), (i + 1) as nat);
    text::lemma_ends(module_items(part.modules, i as nat), item);
    let badge = badge_text(part.icon_url);
    let items = module_items(part.modules, part.modules.len());
    let d = text::decimal(n);
    let x = "</p>\n<p><strong>Modules in this part:</strong></p>\n<ul>\n"@;
    let x1 = "</p>\n"@;
    let x2 = "<p><strong>Modules in this part:</strong></p>\n"@;
    let u = "<ul>\n"@;
    let p = "<p class=\"muted\">Part "@;
    assert(x =~= x1 + x2 + u) by {
        reveal_strlit("</p>\n<p><strong>Modules in this part:</strong></p>\n<ul>\n");
        reveal_strlit("</p>\n");
        reveal_strlit("<p><strong>Modules in this part:</strong></p>\n");
        reveal_strlit("<ul>\n");
    }
    assert(p =~= "<p class=\"muted\">"@ + "Part "@) by {
        reveal_strlit("<p class=\"muted\">Part ");
        reveal_strlit("<p class=\"muted\">");
        reveal_strlit("Part ");
    }
    let w = "Part "@ + d + x1;
    let f = badge + "<p class=\"muted\">"@;
    let all = part_intro_text(n, part);
    let tail = u + items + "</ul>\n"@;
    lemma_intro_parts(badge, "<p class=\"muted\">"@, "Part "@, d, x1, x2, u, items, "</ul>\n"@);
    assert(all == f + w + x2 + tail);
    text::lemma_contains_cat(f, w, w);
    text::lemma_contains_cat(f + w, x2, w);
    text::lemma_contains_cat(f + w + x2, tail, w);
    text::lemma_ends(f + w + x2, tail);
    text::lemma_ends(badge, "<p class=\"muted\">"@);
    text::lemma_prefix_cat(badge, f, w);
    text::lemma_prefix_cat(badge, f + w, x2);
    text::lemma_prefix_cat(badge, f + w + x2, tail);
}

proof fn lemma_intro_parts(
    badge: Seq<char>,
    p: Seq<char>,
    q: Seq<char>,
    d: Seq<char>,
    x: Seq<char>,
    y: Seq<char>,
    u: Seq<char>,
    items: Seq<char>,
    e: Seq<char>,
)
    ensures
        badge + (p + q) + d + (x + y + u) + items + e == (badge + p) + (q + d + x) + y + (u + items
            + e),
{
    assert(badge + (p + q) + d + (x + y + u) + items + e =~= (badge + p) + (q + d + x) + y + (u
        + items + e));
}

/// A unit in a list of sources is cited with its title, a link to its page on Learn and, where it
/// has one, a link to its source.
pub proof fn law_a_source_is_cited(title: Seq<char>, learn_url: Seq<char>, raw_url: Seq<char>)
    ensures
        text::has_prefix(source_item(title, learn_url, raw_url), "  <li>"@ + epub::escaped(title)),
        text::contains_text(
            source_item(title, learn_url, raw_url),
            "<a href=\""@ + epub::escaped(learn_url) + "\">"@,
        ),
        raw_url.len() > 0 ==> text::contains_text(
            source_item(title, learn_url, raw_url),
            "source: <a href=\""@ + epub::escaped(raw_url) + "\">"@,
        ),
{
    let t = "  <li>"@ + epub::escaped(title);
    let br = "<br/>\n    "@;
    let l = plain_link(learn_url);
    let raw = if raw_url.len() > 0 {
        "<br/>\n    <span class=\"muted\">source: "@ + plain_link(raw_url) + "</span>"@
    } else {
        Seq::empty()
    };
    let li = "</li>\n"@;
    text::lemma_ends(t, br);
    text::lemma_prefix_cat(t, t + br, l);
    text::lemma_prefix_cat(t, t + br + l, raw);
    text::lemma_prefix_cat(t, t + br + l + raw, li);
    let w = "<a href=\""@ + epub::escaped(learn_url) + "\">"@;
    lemma_link_has(learn_url);
    text::lemma_contains_cat(t + br, l, w);
    text::lemma_contains_cat(t + br + l, raw, w);
    text::lemma_contains_cat(t + br + l + raw, li, w);
    if raw_url.len() > 0 {
        let v = "source: <a href=\""@ + epub::escaped(raw_url) + "\">"@;
        let s = "<br/>\n    <span class=\"muted\">source: "@;
        let s1 = "<br/>\n    <span class=\"muted\">"@;
        assert(s + "<a href=\""@ =~= s1 + "source: <a href=\""@) by {
            reveal_strlit("<br/>\n    <span class=\"muted\">source: ");
            reveal_strlit("<br/>\n    <span class=\"muted\">");
            reveal_strlit("<a href=\"");
            reveal_strlit("source: <a href=\"");
        }
        let e = epub::escaped(raw_url);
        let rest = e + "</a>"@ + "</span>"@;
        assert(raw =~= (s + "<a href=\""@) + e + "\">"@ + rest);
        assert(raw =~= s1 + v + rest);
        text::lemma_contains_cat(s1, v, v);
        text::lemma_contains_cat(s1 + v, rest, v);
        text::lemma_contains_cat(t + br + l, raw, v);
        text::lemma_contains_cat(t + br + l + raw, li, v);
    }
}

proof fn lemma_link_has(url: Seq<char>)
    ensures
        text::contains_text(plain_link(url), "<a href=\""@ + epub::escaped(url) + "\">"@),
{
    let w = "<a href=\""@ + epub::escaped(url) + "\">"@;
    text::lemma_contains_cat(w, epub::escaped(url), w);
    text::lemma_contains_cat(w + epub::escaped(url), "</a>"@, w);
    text::lemma_contains_cat(w, w, w);
}

proof fn lemma_slot_items_begin(
    slots: Seq<SourceSlotView>,
    contents: Seq<UnitContentView>,
    n: nat,
    i: nat,
)
    requires
        i <= n <= slots.len(),
    ensures
        text::has_prefix(slot_items(slots, contents, n), slot_items(slots, contents, i)),
    decreases n,
{
    text::lemma_ends(slot_items(slots, contents, n), Seq::empty());
    if i < n {
        lemma_slot_items_begin(slots, contents, (n - 1) as nat, i);
        let (learn_url, raw_url) = urls_of(contents, slots[n - 1].gidx);
        let p = slot_items(slots, contents, i);
        let before = slot_items(slots, contents, (n - 1) as nat);
        let h = slot_heading(slots, n - 1);
        text::lemma_prefix_cat(p, before, h);
        text::lemma_prefix_cat(
            p,
            before + h,
            source_item(slots[n - 1].unit_title, learn_url, raw_url),
        );
    }
}

/// The sources appendix cites the units in reading order, each behind the heading of its module:
/// the list up to a unit ends with that unit, and is the beginning of the whole list.
pub proof fn law_sources_are_in_order(
    slots: Seq<SourceSlotView>,
    contents: Seq<UnitContentView>,
    i: int,
)
    requires
        0 <= i < slots.len(),
        1 <= slots[i].gidx <= contents.len(),
    ensures
        text::has_prefix(
            slot_items(slots, contents, slots.len()),
            slot_items(slots, contents, (i + 1) as nat),
        ),
        text::has_suffix(
            slot_items(slots, contents, (i + 1) as nat),
            source_item(
                slots[i].unit_title,
                contents[slots[i].gidx - 1].learn_url,
                contents[slots[i].gidx - 1].raw_url,
            ),
        ),
        i == 0 || slots[i - 1].module_title != slots[i].module_title ==> text::contains_text(
            slot_items(slots, contents, (i + 1) as nat),
            "<h3>"@ + epub::escaped(slots[i].module_title) + "</h3>\n<ol>\n"@ + source_item(
                slots[i].unit_title,
                contents[slots[i].gidx - 1].learn_url,
                contents[slots[i].gidx - 1].raw_url,
            ),
        ),
{
    lemma_slot_items_begin(slots, contents, slots.len(), (i + 1) as nat);
    let before = slot_items(slots, contents, i as nat);
    let h = slot_heading(slots, i);
    let c = contents[slots[i].gidx - 1];
    let item = source_item(slots[i].unit_title, c.learn_url, c.raw_url);
    text::lemma_ends(before + h, item);
    if i == 0 || slots[i - 1].module_title != slots[i].module_title {
        let o = if i == 0 {
            Seq::<char>::empty()
        } else {
            "</ol>\n"@
        };
        let t = "<h3>"@ + epub::escaped(slots[i].module_title) + "</h3>\n<ol>\n"@;
        text::lemma_cat_assoc(before, o, t);
        text::lemma_cat_assoc(before + o, t, item);
        text::lemma_contains_cat(before + o, t + item, t + item);
    }
}

/// The title page of a module says what it is, where it comes from and how much it holds.
pub proof fn law_title_page_names_the_module(
    title: Seq<char>,
    module_url: Seq<char>,
    module: ModuleView,
    date_stamp: Seq<char>,
)
    ensures
        text::has_prefix(
            title_page_text(title, module_url, module, date_stamp),
            provenance_text(date_stamp) + "<p><strong>Module:</strong> "@ + epub::escaped(title)
                + "</p>\n<p><strong>Source:</strong> "@ + plain_link(module_url),
        ),
        text::has_suffix(
            title_page_text(title, module_url, module, date_stamp),
            "<strong>Units:</strong> "@ + text::decimal(module.units.len()) + " &#183; about "@
                + text::decimal(tree::minutes_or_zero(module.duration_in_minutes)) + " min</p>\n"@,
        ),
{
    let p = provenance_text(date_stamp) + "<p><strong>Module:</strong> "@ + epub::escaped(title)
        + "</p>\n<p><strong>Source:</strong> "@ + plain_link(module_url);
    let x = "</p>\n<p><strong>Units:</strong> "@;
    let x1 = "</p>\n<p>"@;
    let x2 = "<strong>Units:</strong> "@;
    assert(x =~= x1 + x2) by {
        reveal_strlit("</p>\n<p><strong>Units:</strong> ");
        reveal_strlit("</p>\n<p>");
        reveal_strlit("<strong>Units:</strong> ");
    }
    let a = text::decimal(module.units.len());
    let b = " &#183; about "@;
    let c = text::decimal(tree::minutes_or_zero(module.duration_in_minutes));
    let d = " min</p>\n"@;
    text::lemma_cat_assoc(p, x1, x2);
    let f = p + x1;
    text::lemma_cat_assoc(f, x2, a);
    text::lemma_cat_assoc(f, x2 + a, b);
    text::lemma_cat_assoc(f, x2 + a + b, c);
    text::lemma_cat_assoc(f, x2 + a + b + c, d);
    text::lemma_ends(f, x2 + a + b + c + d);
    text::lemma_ends(p, x1);
    text::lemma_prefix_cat(p, f, x2 + a + b + c + d);
}

proof fn lemma_source_items_begin(
    titles: Seq<Seq<char>>,
    contents: Seq<UnitContentView>,
    n: nat,
    i: nat,
)
    requires
        i <= n,
    ensures
        text::has_prefix(source_items(titles, contents, n), source_items(titles, contents, i)),
    decreases n,
{
    text::lemma_ends(source_items(titles, contents, n), Seq::empty());
    if i < n {
        lemma_source_items_begin(titles, contents, (n - 1) as nat, i);
        text::lemma_prefix_cat(
            source_items(titles, contents, i),
            source_items(titles, contents, (n - 1) as nat),
            source_item(titles[n - 1], contents[n - 1].learn_url, contents[n - 1].raw_url),
        );
    }
}

/// The sources appendix of a module's book cites the units in their order: the list up to a unit
/// ends with that unit, and is the beginning of the whole list.
pub proof fn law_a_modules_sources_are_in_order(
    titles: Seq<Seq<char>>,
    contents: Seq<UnitContentView>,
    i: int,
)
    requires
        0 <= i < titles.len(),
        contents.len() == titles.len(),
    ensures
        text::has_prefix(
            source_items(titles, contents, titles.len()),
            source_items(titles, contents, (i + 1) as nat),
        ),
        text::has_suffix(
            source_items(titles, contents, (i + 1) as nat),
            source_item(titles[i], contents[i].learn_url, contents[i].raw_url),
        ),
{
    lemma_source_items_begin(titles, contents, titles.len(), (i + 1) as nat);
    text::lemma_ends(
        source_items(titles, contents, i as nat),
        source_item(titles[i], contents[i].learn_url, contents[i].raw_url),
    );
}

/// A text in the report keeps its order: what stands for two texts together is what stands for the
/// one and then for the other. Quotes and backslashes stand behind a backslash, line ends and tabs
/// are spaces, and every other character is as it is.
pub proof fn law_report_keeps_the_text(a: Seq<char>, b: Seq<char>, c: char)
    ensures
        json_escaped(a + b) == json_escaped(a) + json_escaped(b),
        json_escaped(seq![c]) == (if c == '\\' {
            seq!['\\', '\\']
        } else if c == '"' {
            seq!['\\', '"']
        } else if c == '\n' || c == '\r' || c == '\t' {
            seq![' ']
        } else {
            seq![c]
        }),
{
    lemma_json_texts();
    let (p, q) = ("\\\\"@, "\\\""@);
    text::lemma_replaced_splits(a, b, '\\', p);
    let (a1, b1) = (text::replaced(a, "\\"@, p), text::replaced(b, "\\"@, p));
    text::lemma_replaced_splits(a1, b1, '"', q);
    let (a2, b2) = (text::replaced(a1, "\""@, q), text::replaced(b1, "\""@, q));
    text::lemma_replaced_splits(a2, b2, '\n', " "@);
    let (a3, b3) = (text::replaced(a2, "\n"@, " "@), text::replaced(b2, "\n"@, " "@));
    text::lemma_replaced_splits(a3, b3, '\r', " "@);
    let (a4, b4) = (text::replaced(a3, "\r"@, " "@), text::replaced(b3, "\r"@, " "@));
    text::lemma_replaced_splits(a4, b4, '\t', " "@);
    text::lemma_replaced_char(c, '\\', p);
    if c == '\\' {
        lemma_plain_pair('\\', '\\');
        text::lemma_replaced_splits(seq!['\\'], seq!['\\'], '"', q);
        text::lemma_replaced_char('\\', '"', q);
    } else {
        text::lemma_replaced_char(c, '"', q);
        if c == '"' {
            lemma_plain_pair('\\', '"');
        } else {
            text::lemma_replaced_char(c, '\n', " "@);
            text::lemma_replaced_char(c, '\r', " "@);
            text::lemma_replaced_char(c, '\t', " "@);
            text::lemma_replaced_char(' ', '\r', " "@);
            text::lemma_replaced_char(' ', '\t', " "@);
        }
    }
}

proof fn lemma_plain_pair(c: char, d: char)
    requires
        c != '\n' && c != '\r' && c != '\t',
        d != '\n' && d != '\r' && d != '\t',
    ensures
        text::replaced(
            text::replaced(text::replaced(seq![c] + seq![d], "\n"@, " "@), "\r"@, " "@),
            "\t"@,
            " "@,
        ) == seq![c] + seq![d],
{
    lemma_json_texts();
    text::lemma_replaced_splits(seq![c], seq![d], '\n', " "@);
    text::lemma_replaced_splits(seq![c], seq![d], '\r', " "@);
    text::lemma_replaced_splits(seq![c], seq![d], '\t', " "@);
    text::lemma_replaced_char(c, '\n', " "@);
    text::lemma_replaced_char(c, '\r', " "@);
    text::lemma_replaced_char(c, '\t', " "@);
    text::lemma_replaced_char(d, '\n', " "@);
    text::lemma_replaced_char(d, '\r', " "@);
    text::lemma_replaced_char(d, '\t', " "@);
}

proof fn lemma_json_texts()
    ensures
        "\\"@ == seq!['\\'],
        "\""@ == seq!['"'],
        "\n"@ == seq!['\n'],
        "\r"@ == seq!['\r'],
        "\t"@ == seq!['\t'],
        " "@ == seq![' '],
        "\\\\"@ == seq!['\\'] + seq!['\\'],
        "\\\""@ == seq!['\\'] + seq!['"'],
{
    reveal_strlit("\\");
    reveal_strlit("\"");
    reveal_strlit("\n");
    reveal_strlit("\r");
    reveal_strlit("\t");
    reveal_strlit(" ");
    reveal_strlit("\\\\");
    reveal_strlit("\\\"");
}

} // verus!
