//! High-level assembly: a resolved module, or a whole certification, becomes a complete EPUB.
//!
//! A book is planned from its tree and the content index: which page every unit has and where its
//! source is. A module that the index does not have is asked of Learn itself, unit by unit. The
//! sources are fetched outside; each makes a unit's page. From the pages the chapters, the nested table of contents and the sources appendix are made, and last the images
//! that the chapters show are embedded and everything is packed.

use crate::archive;
use crate::content;
use crate::content::ContentIndex;
use crate::content::ModuleFilesView;
use crate::epub;
use crate::epub::Chapter;
use crate::epub::ChapterView;
use crate::epub::NavEntry;
use crate::epub::NavView;
use crate::epub::ResourceView;
use crate::error;
use crate::error::ResolveError;
use crate::error::ResolveErrorView;
use crate::images;
use crate::markdown;
use crate::pages;
use crate::pages::SourceSlot;
use crate::pages::SourceSlotView;
use crate::pages::UnitContent;
use crate::pages::UnitContentView;
use crate::quiz;
use crate::quiz::Quiz;
use crate::quiz::QuizView;
use crate::scrape;
use crate::text;
use crate::tree;
use crate::tree::Book;
use crate::tree::BookView;
use crate::tree::ModuleNode;
use crate::tree::ModuleView;
use crate::tree::Part;
use crate::tree::PartView;
use crate::tree::UnitNode;
use crate::tree::UnitView;
use vstd::prelude::*;
use vstd::string::*;

verus! {

broadcast use vstd::seq_lib::group_seq_properties;

// ---------------------------------------------------------------------------
// Where a unit's page comes from
// ---------------------------------------------------------------------------

/// Where a unit's page comes from.
#[derive(Debug)]
pub enum UnitSource {
    /// A markdown file at `url`; media paths in it are relative to `base`.
    Markdown { url: String, base: String, learn_url: String },
    /// A knowledge-check file at `url`.
    Quiz { url: String, learn_url: String },
    /// The markdown that Learn serves at `url` for the unit's page, `learn_url`.
    Rendered { url: String, learn_url: String },
    /// Nowhere: the page is already known.
    Known(UnitContent),
}

/// What a [`UnitSource`] holds.
pub enum UnitSourceView {
    Markdown { url: Seq<char>, base: Seq<char>, learn_url: Seq<char> },
    Quiz { url: Seq<char>, learn_url: Seq<char> },
    Rendered { url: Seq<char>, learn_url: Seq<char> },
    Known(UnitContentView),
}

impl DeepView for UnitSource {
    type V = UnitSourceView;

    open spec fn deep_view(&self) -> UnitSourceView {
        match self {
            UnitSource::Markdown { url, base, learn_url } => UnitSourceView::Markdown {
                url: url@,
                base: base@,
                learn_url: learn_url@,
            },
            UnitSource::Quiz { url, learn_url } => UnitSourceView::Quiz {
                url: url@,
                learn_url: learn_url@,
            },
            UnitSource::Rendered { url, learn_url } => UnitSourceView::Rendered {
                url: url@,
                learn_url: learn_url@,
            },
            UnitSource::Known(c) => UnitSourceView::Known(c.deep_view()),
        }
    }
}

/// A page that says only that there is nothing, and leads to the module. It may stand in for
/// content that should be there.
pub open spec fn notice(
    message: Seq<char>,
    module_url: Seq<char>,
    placeholder: bool,
) -> UnitContentView {
    UnitContentView {
        body: "<p class=\"muted\">"@ + message + "</p>"@,
        learn_url: module_url,
        raw_url: Seq::empty(),
        placeholder,
    }
}

fn notice_page(message: &str, module_url: &str, placeholder: bool) -> (r: UnitContent)
    ensures
        r.deep_view() == notice(message@, module_url@, placeholder),
{
    let mut body = "<p class=\"muted\">".to_owned();
    body.append(message);
    body.append("</p>");
    UnitContent { body, learn_url: module_url.to_owned(), raw_url: String::new(), placeholder }
}

/// A unit's Learn page: the module's page and the stem of the unit's file.
pub open spec fn unit_page_url(module_url: Seq<char>, stem: Seq<char>) -> Seq<char> {
    text::trim_end_of(module_url, '/') + "/"@ + stem
}

fn page_url(module_url: &str, stem: &[char]) -> (r: String)
    ensures
        r@ == unit_page_url(module_url@, stem@),
{
    let cs = text::chars_of(module_url);
    let mut s = text::text_of(text::trimmed_end_of(cs.as_slice(), '/'));
    s.append("/");
    text::push_chars(&mut s, stem);
    s
}

/// The markdown file of a unit: the one named after its slug, else the one numbered by its
/// position, else the one at its place among the content files.
pub open spec fn unit_file(
    m: Map<Seq<char>, ModuleFilesView>,
    slug: Seq<char>,
    unit_uid: Seq<char>,
    position: nat,
    content_ordinal: nat,
    non_kc_count: nat,
) -> Option<Seq<char>> {
    match content::include_such(m, slug, content::names_unit(text::after_last(unit_uid, '.'))) {
        Some(file) => Some(file),
        None => match content::include_such(m, slug, content::numbered(position)) {
            Some(file) => Some(file),
            None => if m.dom().contains(slug) {
                content::ordinal_file(m[slug].includes, content_ordinal, non_kc_count)
            } else {
                None
            },
        },
    }
}

/// Where the page of a content unit comes from.
pub open spec fn markdown_source(
    base: Seq<char>,
    module_url: Seq<char>,
    file: Option<Seq<char>>,
) -> UnitSourceView {
    match file {
        Some(file) => UnitSourceView::Markdown {
            url: base + "/includes/"@ + file,
            base,
            learn_url: unit_page_url(module_url, text::trim_end_text(file, ".md"@)),
        },
        None => UnitSourceView::Known(
            notice("Content not available for this unit."@, module_url, true),
        ),
    }
}

/// Where the page of a knowledge check comes from.
pub open spec fn quiz_source(
    base: Seq<char>,
    module_url: Seq<char>,
    file: Option<Seq<char>>,
) -> UnitSourceView {
    match file {
        Some(file) => UnitSourceView::Quiz {
            url: base + "/"@ + file,
            learn_url: unit_page_url(module_url, text::trim_end_text(file, ".yml"@)),
        },
        None => UnitSourceView::Known(
            notice("No knowledge check found for this module."@, module_url, false),
        ),
    }
}

/// Where the page of a content unit comes from. The file is matched by the uid's slug. A unit
/// whose slug differs from its file's is found by the file's number, or by the unit's place among
/// the module's content units, which also survives numbering gaps and generic file names.
pub fn assemble_unit(
    index: &ContentIndex,
    slug: &str,
    base: &str,
    module_url: &str,
    unit_uid: &str,
    position: usize,
    content_ordinal: usize,
    non_kc_count: usize,
) -> (r: UnitSource)
    ensures
        r.deep_view() == markdown_source(
            base@,
            module_url@,
            unit_file(
                index.modules@,
                slug@,
                unit_uid@,
                position as nat,
                content_ordinal as nat,
                non_kc_count as nat,
            ),
        ),
{
    let unit_slug = content::unit_slug_from_uid(unit_uid);
    let file = match index.unit_include_file(slug, unit_slug.as_str()) {
        Some(file) => Some(file),
        None => match index.unit_include_file_by_number(slug, position) {
            Some(file) => Some(file),
            None => index.unit_include_file_by_ordinal(slug, content_ordinal, non_kc_count),
        },
    };
    match file {
        Some(file) => {
            let mut url = base.to_owned();
            url.append("/includes/");
            url.append(file);
            let cs = text::chars_of(file);
            let stem = text::trimmed_end_text(cs.as_slice(), ".md");
            UnitSource::Markdown {
                url,
                base: base.to_owned(),
                learn_url: page_url(module_url, stem),
            }
        },
        None => UnitSource::Known(
            notice_page("Content not available for this unit.", module_url, true),
        ),
    }
}

/// Where the page of a knowledge check comes from.
pub fn assemble_quiz(index: &ContentIndex, slug: &str, base: &str, module_url: &str) -> (r:
    UnitSource)
    ensures
        r.deep_view() == quiz_source(
            base@,
            module_url@,
            content::check_file(index.modules@, slug@),
        ),
{
    match index.knowledge_check_yml(slug) {
        Some(file) => {
            let mut url = base.to_owned();
            url.append("/");
            url.append(file);
            let cs = text::chars_of(file);
            let stem = text::trimmed_end_text(cs.as_slice(), ".yml");
            UnitSource::Quiz { url, learn_url: page_url(module_url, stem) }
        },
        None => UnitSource::Known(
            notice_page("No knowledge check found for this module.", module_url, false),
        ),
    }
}

/// The stem of a content unit's page: its place in the module and its slug.
pub open spec fn unit_stem(unit_uid: Seq<char>, position: nat) -> Seq<char> {
    text::decimal(position) + "-"@ + text::after_last(unit_uid, '.')
}

/// Where the page of a content unit comes from that has no public source: from Learn's rendered
/// markdown.
pub open spec fn rendered_source(
    module_url: Seq<char>,
    unit_uid: Seq<char>,
    position: nat,
) -> UnitSourceView {
    let page = unit_page_url(module_url, unit_stem(unit_uid, position));
    UnitSourceView::Rendered { url: scrape::markdown_url(page), learn_url: page }
}

/// Where the page of a content unit comes from whose module is not in the public repository: from
/// the markdown that Learn serves for the unit's page. Learn numbers a unit's page by its place in
/// the module and names it after the unit's slug, as the repository does its files.
pub fn render_unit(module_url: &str, unit_uid: &str, position: usize) -> (r: UnitSource)
    ensures
        r.deep_view() == rendered_source(module_url@, unit_uid@, position as nat),
{
    let mut stem = text::decimal_text(position as u64);
    stem.append("-");
    stem.append(content::unit_slug_from_uid(unit_uid).as_str());
    let learn_url = page_url(module_url, text::chars_of(stem.as_str()).as_slice());
    UnitSource::Rendered { url: scrape::unit_markdown_endpoint(learn_url.as_str()), learn_url }
}

/// The page of a content unit, made from its markdown.
pub open spec fn unit_page(
    md: Seq<char>,
    url: Seq<char>,
    base: Seq<char>,
    learn_url: Seq<char>,
) -> UnitContentView {
    UnitContentView {
        body: markdown::xhtml_of(md, base, learn_url),
        learn_url,
        raw_url: url,
        placeholder: false,
    }
}

/// The page of a knowledge check, made from its quiz.
pub open spec fn quiz_page(quiz: Option<QuizView>, url: Seq<char>, learn_url: Seq<char>) ->
    UnitContentView {
    UnitContentView {
        body: match quiz {
            Some(q) => quiz::quiz_text(q),
            None => "<p class=\"muted\">Knowledge check could not be parsed.</p>"@,
        },
        learn_url,
        raw_url: url,
        placeholder: false,
    }
}

/// The page of a content unit, made from its markdown.
pub fn unit_content(md: &str, url: &str, base: &str, learn_url: &str) -> (r: UnitContent)
    ensures
        r.deep_view() == unit_page(md@, url@, base@, learn_url@),
{
    UnitContent {
        body: markdown::markdown_to_xhtml_with_unit(md, base, learn_url),
        learn_url: learn_url.to_owned(),
        raw_url: url.to_owned(),
        placeholder: false,
    }
}

/// The page of a knowledge check, made from its quiz: nothing where the file holds none or could
/// not be parsed.
pub fn quiz_content(quiz: &Option<Quiz>, url: &str, learn_url: &str) -> (r: UnitContent)
    ensures
        r.deep_view() == quiz_page(quiz.deep_view(), url@, learn_url@),
{
    let body = match quiz {
        Some(q) => quiz::render_quiz_xhtml(q),
        None => "<p class=\"muted\">Knowledge check could not be parsed.</p>".to_owned(),
    };
    UnitContent {
        body,
        learn_url: learn_url.to_owned(),
        raw_url: url.to_owned(),
        placeholder: false,
    }
}

/// The page of a content unit, made from the markdown that Learn serves for it: none where that
/// holds nothing. Its source is the Learn page itself.
pub open spec fn rendered_page(raw_md: Seq<char>, learn_url: Seq<char>) -> Option<
    UnitContentView,
> {
    match scrape::unit_xhtml(raw_md, learn_url) {
        Some(body) => Some(
            UnitContentView { body, learn_url, raw_url: Seq::empty(), placeholder: false },
        ),
        None => None,
    }
}

/// The page of a content unit, made from the markdown that Learn serves for it: none where that
/// holds nothing (e.g. an error page).
pub fn rendered_content(raw_md: &str, learn_url: &str) -> (r: Option<UnitContent>)
    ensures
        r.deep_view() == rendered_page(raw_md@, learn_url@),
{
    match scrape::unit_markdown_to_xhtml(raw_md, learn_url) {
        Some(body) => Some(
            UnitContent {
                body,
                learn_url: learn_url.to_owned(),
                raw_url: String::new(),
                placeholder: false,
            },
        ),
        None => None,
    }
}

/// The page of a unit whose source could not be fetched.
pub open spec fn unfetched(module_url: Seq<char>) -> UnitContentView {
    notice("Content could not be fetched."@, module_url, true)
}

/// The page of a unit whose source could not be fetched.
pub fn unfetched_content(module_url: &str) -> (r: UnitContent)
    ensures
        r.deep_view() == unfetched(module_url@),
{
    notice_page("Content could not be fetched.", module_url, true)
}

/// The page of a unit whose module has no source anywhere.
pub open spec fn unsourced(module_url: Seq<char>) -> UnitContentView {
    notice("Content source not found for this module."@, module_url, false)
}

/// The page of a content unit that was asked of Learn, and whether Learn had it: the page made
/// from what Learn served, or the notice that the module has no source.
pub open spec fn rendered_page_or_notice(
    md: Option<Seq<char>>,
    learn_url: Seq<char>,
    module_url: Seq<char>,
) -> (UnitContentView, bool) {
    match md {
        Some(raw_md) => match rendered_page(raw_md, learn_url) {
            Some(page) => (page, true),
            None => (unsourced(module_url), false),
        },
        None => (unsourced(module_url), false),
    }
}

/// The page of a content unit that was asked of Learn, and whether Learn had it. `md` is what
/// Learn served, or nothing where it could not be fetched. Where Learn has no content of the unit
/// either, the page says that the module has no source.
pub fn rendered_or_notice(md: Option<String>, learn_url: &str, module_url: &str) -> (r: (
    UnitContent,
    bool,
))
    ensures
        (r.0.deep_view(), r.1) == rendered_page_or_notice(md.deep_view(), learn_url@, module_url@),
{
    if let Some(raw_md) = md {
        if let Some(page) = rendered_content(raw_md.as_str(), learn_url) {
            return (page, true);
        }
    }
    (notice_page("Content source not found for this module.", module_url, false), false)
}

/// What came back of a unit's source.
#[derive(Debug)]
pub enum Reply {
    /// The markdown of a content unit.
    Text(String),
    /// A knowledge-check file: its quiz, or nothing where it holds none or could not be parsed.
    Check(Option<Quiz>),
    /// Nothing: there was nothing to ask for, or the fetch failed.
    Nothing,
}

/// What a [`Reply`] holds.
pub enum ReplyView {
    Text(Seq<char>),
    Check(Option<QuizView>),
    Nothing,
}

impl DeepView for Reply {
    type V = ReplyView;

    open spec fn deep_view(&self) -> ReplyView {
        match self {
            Reply::Text(md) => ReplyView::Text(md@),
            Reply::Check(quiz) => ReplyView::Check(quiz.deep_view()),
            Reply::Nothing => ReplyView::Nothing,
        }
    }
}

/// The markdown of a reply.
pub open spec fn reply_text(reply: ReplyView) -> Option<Seq<char>> {
    match reply {
        ReplyView::Text(md) => Some(md),
        _ => None,
    }
}

/// The page that a unit gets of what came back of its source, and whether it was made from
/// Learn's rendered markdown.
pub open spec fn settled(
    source: UnitSourceView,
    reply: ReplyView,
    module_url: Seq<char>,
) -> (UnitContentView, bool) {
    match source {
        UnitSourceView::Known(page) => (page, false),
        UnitSourceView::Markdown { url, base, learn_url } => match reply {
            ReplyView::Text(md) => (unit_page(md, url, base, learn_url), false),
            _ => (unfetched(module_url), false),
        },
        UnitSourceView::Quiz { url, learn_url } => match reply {
            ReplyView::Check(quiz) => (quiz_page(quiz, url, learn_url), false),
            _ => (unfetched(module_url), false),
        },
        UnitSourceView::Rendered { learn_url, .. } => rendered_page_or_notice(
            reply_text(reply),
            learn_url,
            module_url,
        ),
    }
}

/// The page that a unit gets of what came back of its source, and whether it was made from
/// Learn's rendered markdown.
pub fn settle(source: UnitSource, reply: Reply, module_url: &str) -> (r: (UnitContent, bool))
    ensures
        (r.0.deep_view(), r.1) == settled(source.deep_view(), reply.deep_view(), module_url@),
{
    match source {
        UnitSource::Known(page) => (page, false),
        UnitSource::Markdown { url, base, learn_url } => match reply {
            Reply::Text(md) => (
                unit_content(md.as_str(), url.as_str(), base.as_str(), learn_url.as_str()),
                false,
            ),
            _ => (unfetched_content(module_url), false),
        },
        UnitSource::Quiz { url, learn_url } => match reply {
            Reply::Check(quiz) => (quiz_content(&quiz, url.as_str(), learn_url.as_str()), false),
            _ => (unfetched_content(module_url), false),
        },
        UnitSource::Rendered { url: _, learn_url } => {
            let md = match reply {
                Reply::Text(md) => Some(md),
                _ => None,
            };
            rendered_or_notice(md, learn_url.as_str(), module_url)
        },
    }
}

/// Whether a fetch that has failed so many times is tried again: a source is asked for three
/// times in all, because the host occasionally drops a request under load.
pub fn fetch_again(failures: u32) -> (r: bool)
    ensures
        r == (failures < 3),
{
    failures < 3
}

// ---------------------------------------------------------------------------
// Planning
// ---------------------------------------------------------------------------

/// A single unit's fetch parameters, collected up front so that all units can be fetched
/// concurrently rather than one at a time.
#[derive(Debug)]
pub struct UnitTask {
    /// The unit's number in the book, counted from one.
    pub gidx: usize,
    pub is_kc: bool,
    pub unit_uid: String,
    pub slug: Option<String>,
    pub base: Option<String>,
    pub module_url: String,
    /// The unit's place in its module, counted from one.
    pub position: usize,
    /// The unit's place among its module's units that are no knowledge check, counted from one,
    /// and how many there are.
    pub content_ordinal: usize,
    pub non_kc_count: usize,
}

/// What a [`UnitTask`] holds.
pub struct UnitTaskView {
    pub gidx: nat,
    pub is_kc: bool,
    pub unit_uid: Seq<char>,
    pub slug: Option<Seq<char>>,
    pub base: Option<Seq<char>>,
    pub module_url: Seq<char>,
    pub position: nat,
    pub content_ordinal: nat,
    pub non_kc_count: nat,
}

impl DeepView for UnitTask {
    type V = UnitTaskView;

    open spec fn deep_view(&self) -> UnitTaskView {
        UnitTaskView {
            gidx: self.gidx as nat,
            is_kc: self.is_kc,
            unit_uid: self.unit_uid@,
            slug: self.slug.deep_view(),
            base: self.base.deep_view(),
            module_url: self.module_url@,
            position: self.position as nat,
            content_ordinal: self.content_ordinal as nat,
            non_kc_count: self.non_kc_count as nat,
        }
    }
}

/// Where the page of a task's unit comes from.
pub open spec fn task_source(
    m: Map<Seq<char>, ModuleFilesView>,
    t: UnitTaskView,
) -> UnitSourceView {
    match (t.slug, t.base) {
        (Some(slug), Some(base)) => if t.is_kc {
            quiz_source(base, t.module_url, content::check_file(m, slug))
        } else {
            markdown_source(
                base,
                t.module_url,
                unit_file(
                    m,
                    slug,
                    t.unit_uid,
                    t.position,
                    t.content_ordinal,
                    t.non_kc_count,
                ),
            )
        },
        (Some(_), None) if !t.is_kc => rendered_source(t.module_url, t.unit_uid, t.position),
        _ => UnitSourceView::Known(unsourced(t.module_url)),
    }
}

impl UnitTask {
    /// Where the page of the unit comes from.
    pub fn source(&self, index: &ContentIndex) -> (r: UnitSource)
        ensures
            r.deep_view() == task_source(index.modules@, self.deep_view()),
    {
        if let Some(slug) = &self.slug {
            if let Some(base) = &self.base {
                if self.is_kc {
                    return assemble_quiz(
                        index,
                        slug.as_str(),
                        base.as_str(),
                        self.module_url.as_str(),
                    );
                }
                return assemble_unit(
                    index,
                    slug.as_str(),
                    base.as_str(),
                    self.module_url.as_str(),
                    self.unit_uid.as_str(),
                    self.position,
                    self.content_ordinal,
                    self.non_kc_count,
                );
            }
            if !self.is_kc {
                return render_unit(
                    self.module_url.as_str(),
                    self.unit_uid.as_str(),
                    self.position,
                );
            }
        }
        UnitSource::Known(
            notice_page(
                "Content source not found for this module.",
                self.module_url.as_str(),
                false,
            ),
        )
    }
}

/// A module's page, or nothing.
pub open spec fn module_page(module: ModuleView) -> Seq<char> {
    match module.url {
        Some(url) => url,
        None => Seq::empty(),
    }
}

fn page_of_module(module: &ModuleNode) -> (r: String)
    ensures
        r@ == module_page(module.deep_view()),
{
    match &module.url {
        Some(url) => url.clone(),
        None => String::new(),
    }
}

/// The raw URL of a module's folder, where the index has the module.
pub open spec fn module_base(
    m: Map<Seq<char>, ModuleFilesView>,
    module: ModuleView,
) -> Option<Seq<char>> {
    match content::module_slug(module_page(module)) {
        Some(slug) => content::raw_base(m, slug),
        None => None,
    }
}

fn base_of_module(index: &ContentIndex, slug: &Option<String>) -> (r: Option<String>)
    ensures
        r.deep_view() == (match slug.deep_view() {
            Some(s) => content::raw_base(index.modules@, s),
            None => None,
        }),
{
    match slug {
        Some(s) => index.module_raw_base(s.as_str()),
        None => None,
    }
}

/// How many of the first `n` units are no knowledge check.
pub open spec fn content_units(units: Seq<UnitView>, n: nat) -> nat
    decreases n,
{
    if n == 0 {
        0
    } else {
        content_units(units, (n - 1) as nat) + (if units[n - 1].is_knowledge_check {
            0nat
        } else {
            1
        })
    }
}

fn count_content_units(units: &Vec<UnitNode>) -> (r: usize)
    ensures
        r == content_units(units.deep_view(), units@.len()),
{
    let ghost all = units.deep_view();
    let n: usize = units.len();
    let mut count: usize = 0;
    for i in 0..n
        invariant
            n == units@.len(),
            all == units.deep_view(),
            count <= i,
            count == content_units(all, i as nat),
    {
        assert(all[i as int] == units@[i as int].deep_view());
        if !units[i].is_knowledge_check {
            count = count + 1;
        }
    }
    count
}

/// The task of a module's `n`th unit, where `before` units stand before the module.
pub open spec fn unit_task(
    m: Map<Seq<char>, ModuleFilesView>,
    module: ModuleView,
    before: nat,
    n: nat,
) -> UnitTaskView {
    let u = module.units[n - 1];
    UnitTaskView {
        gidx: before + n,
        is_kc: u.is_knowledge_check,
        unit_uid: u.uid,
        slug: content::module_slug(module_page(module)),
        base: module_base(m, module),
        module_url: module_page(module),
        position: n,
        content_ordinal: content_units(module.units, n),
        non_kc_count: content_units(module.units, module.units.len()),
    }
}

/// The tasks of a module's units.
pub open spec fn module_tasks(
    m: Map<Seq<char>, ModuleFilesView>,
    module: ModuleView,
    before: nat,
) -> Seq<UnitTaskView> {
    Seq::new(module.units.len(), |i: int| unit_task(m, module, before, (i + 1) as nat))
}

/// The tasks of the units of the first `n` modules.
pub open spec fn modules_tasks(
    m: Map<Seq<char>, ModuleFilesView>,
    modules: Seq<ModuleView>,
    before: nat,
    n: nat,
) -> Seq<UnitTaskView>
    decreases n,
{
    if n == 0 {
        Seq::empty()
    } else {
        modules_tasks(m, modules, before, (n - 1) as nat) + module_tasks(
            m,
            modules[n - 1],
            before + tree::units_in_modules(modules, (n - 1) as nat),
        )
    }
}

/// The tasks of the units of the first `n` parts.
pub open spec fn parts_tasks(
    m: Map<Seq<char>, ModuleFilesView>,
    parts: Seq<PartView>,
    n: nat,
) -> Seq<UnitTaskView>
    decreases n,
{
    if n == 0 {
        Seq::empty()
    } else {
        let p = parts[n - 1];
        parts_tasks(m, parts, (n - 1) as nat) + modules_tasks(
            m,
            p.modules,
            tree::units_in(parts, (n - 1) as nat),
            p.modules.len(),
        )
    }
}

/// The plan of a book: the fetch tasks of its units.
pub open spec fn planned(m: Map<Seq<char>, ModuleFilesView>, book: BookView) -> Seq<UnitTaskView> {
    parts_tasks(m, book.parts, book.parts.len())
}

fn push_module_tasks(
    tasks: &mut Vec<UnitTask>,
    index: &ContentIndex,
    module: &ModuleNode,
    before: usize,
)
    requires
        before + module.units@.len() <= usize::MAX,
    ensures
        final(tasks).deep_view() == old(tasks).deep_view() + module_tasks(
            index.modules@,
            module.deep_view(),
            before as nat,
        ),
{
    let ghost start = tasks.deep_view();
    let ghost units = module.units.deep_view();
    let ghost mv = module.deep_view();
    let ghost want = module_tasks(index.modules@, mv, before as nat);
    let module_url = page_of_module(module);
    let slug = content::module_slug_from_url(module_url.as_str());
    let base = base_of_module(index, &slug);
    let non_kc_count: usize = count_content_units(&module.units);
    let n: usize = module.units.len();
    let mut content_ordinal: usize = 0;
    for i in 0..n
        invariant
            n == module.units@.len(),
            before + n <= usize::MAX,
            units == module.units.deep_view(),
            mv == module.deep_view(),
            want == module_tasks(index.modules@, mv, before as nat),
            module_url@ == module_page(mv),
            slug.deep_view() == content::module_slug(module_page(mv)),
            base.deep_view() == module_base(index.modules@, mv),
            non_kc_count == content_units(units, n as nat),
            content_ordinal <= i,
            content_ordinal == content_units(units, i as nat),
            tasks.deep_view() =~= start + want.take(i as int),
    {
        let u = &module.units[i];
        assert(units[i as int] == u.deep_view());
        if !u.is_knowledge_check {
            content_ordinal = content_ordinal + 1;
        }
        let t = UnitTask {
            gidx: before + i + 1,
            is_kc: u.is_knowledge_check,
            unit_uid: u.uid.clone(),
            slug: text::copy_opt_text(&slug),
            base: text::copy_opt_text(&base),
            module_url: module_url.clone(),
            position: i + 1,
            content_ordinal,
            non_kc_count,
        };
        assert(t.deep_view() == want[i as int]);
        text::push_item(tasks, t);
    }
    assert(want.take(n as int) =~= want);
}

/// Plans a book: walks the tree and collects the fetch task of every unit.
pub fn plan_book(index: &ContentIndex, book: &Book) -> (r: Vec<UnitTask>)
    requires
        book.deep_view().unit_count() <= usize::MAX,
    ensures
        r.deep_view() == planned(index.modules@, book.deep_view()),
{
    let ghost m = index.modules@;
    let ghost parts = book.parts.deep_view();
    let np: usize = book.parts.len();
    let mut tasks: Vec<UnitTask> = Vec::new();
    let mut units: usize = 0;
    for i in 0..np
        invariant
            np == book.parts@.len(),
            m == index.modules@,
            parts == book.parts.deep_view(),
            tree::units_in(parts, np as nat) <= usize::MAX,
            units == tree::units_in(parts, i as nat),
            tasks.deep_view() =~= parts_tasks(m, parts, i as nat),
    {
        let p = &book.parts[i];
        assert(parts[i as int] == p.deep_view());
        let ghost modules = p.modules.deep_view();
        let ghost tasks0 = tasks.deep_view();
        let nm: usize = p.modules.len();
        proof {
            tree::lemma_units_in_mono(parts, (i + 1) as nat, np as nat);
        }
        let start: usize = units;
        for j in 0..nm
            invariant
                nm == p.modules@.len(),
                m == index.modules@,
                modules == p.modules.deep_view(),
                start + tree::units_in_modules(modules, nm as nat) <= usize::MAX,
                units == start + tree::units_in_modules(modules, j as nat),
                tasks.deep_view() =~= tasks0 + modules_tasks(
                    m,
                    modules,
                    start as nat,
                    j as nat,
                ),
        {
            let module = &p.modules[j];
            assert(modules[j as int] == module.deep_view());
            proof {
                tree::lemma_units_in_modules_mono(modules, (j + 1) as nat, nm as nat);
            }
            push_module_tasks(&mut tasks, index, module, units);
            units = units + module.units.len();
        }
    }
    tasks
}

// ---------------------------------------------------------------------------
// What was found
// ---------------------------------------------------------------------------

/// One of the places from `from` up to `to` is marked.
pub open spec fn any_in(marks: Seq<bool>, from: int, to: int) -> bool {
    exists|i: int| from <= i < to && #[trigger] marks[i]
}

fn any_marked(marks: &Vec<bool>, from: usize, to: usize) -> (r: bool)
    requires
        from <= to <= marks@.len(),
    ensures
        r == any_in(marks@, from as int, to as int),
{
    for i in from..to
        invariant
            to <= marks@.len(),
            forall|j: int| from <= j < i ==> !#[trigger] marks@[j],
    {
        if marks[i] {
            assert(marks@[i as int]);
            return true;
        }
    }
    false
}

/// A module has content: the public repository has it, or the page of one of its units was had
/// from Learn. `rendered` says of every unit of the book whether its page was; `before` units stand
/// before the module.
pub open spec fn module_has_content(
    m: Map<Seq<char>, ModuleFilesView>,
    module: ModuleView,
    rendered: Seq<bool>,
    before: nat,
) -> bool {
    ||| module_base(m, module) is Some
    ||| any_in(rendered, before as int, (before + module.units.len()) as int)
}

/// Which of the first `n` modules have content.
pub open spec fn modules_found(
    m: Map<Seq<char>, ModuleFilesView>,
    modules: Seq<ModuleView>,
    rendered: Seq<bool>,
    before: nat,
    n: nat,
) -> Seq<bool>
    decreases n,
{
    if n == 0 {
        Seq::empty()
    } else {
        modules_found(m, modules, rendered, before, (n - 1) as nat).push(
            module_has_content(
                m,
                modules[n - 1],
                rendered,
                before + tree::units_in_modules(modules, (n - 1) as nat),
            ),
        )
    }
}

/// Which modules of the first `n` parts have content.
pub open spec fn parts_found(
    m: Map<Seq<char>, ModuleFilesView>,
    parts: Seq<PartView>,
    rendered: Seq<bool>,
    n: nat,
) -> Seq<bool>
    decreases n,
{
    if n == 0 {
        Seq::empty()
    } else {
        let p = parts[n - 1];
        parts_found(m, parts, rendered, (n - 1) as nat) + modules_found(
            m,
            p.modules,
            rendered,
            tree::units_in(parts, (n - 1) as nat),
            p.modules.len(),
        )
    }
}

/// Which modules of a book have content, in reading order.
pub open spec fn found_of(
    m: Map<Seq<char>, ModuleFilesView>,
    book: BookView,
    rendered: Seq<bool>,
) -> Seq<bool> {
    parts_found(m, book.parts, rendered, book.parts.len())
}

/// Tells which modules of a book have content, in reading order: those that the public repository
/// has, and those of which Learn served the page of some unit. `rendered` says of every unit, in
/// reading order, whether its page came from Learn's rendered markdown.
pub fn found_modules(index: &ContentIndex, book: &Book, rendered: &Vec<bool>) -> (r: Vec<bool>)
    requires
        rendered@.len() == book.deep_view().unit_count(),
    ensures
        r@ == found_of(index.modules@, book.deep_view(), rendered@),
{
    let ghost m = index.modules@;
    let ghost parts = book.parts.deep_view();
    assert(rendered.len() == rendered@.len());
    let np: usize = book.parts.len();
    let mut found: Vec<bool> = Vec::new();
    let mut units: usize = 0;
    for i in 0..np
        invariant
            np == book.parts@.len(),
            m == index.modules@,
            parts == book.parts.deep_view(),
            tree::units_in(parts, np as nat) == rendered@.len(),
            rendered@.len() <= usize::MAX,
            units == tree::units_in(parts, i as nat),
            found@ == parts_found(m, parts, rendered@, i as nat),
    {
        let p = &book.parts[i];
        assert(parts[i as int] == p.deep_view());
        let ghost modules = p.modules.deep_view();
        let ghost found0 = found@;
        let nm: usize = p.modules.len();
        proof {
            tree::lemma_units_in_mono(parts, (i + 1) as nat, np as nat);
        }
        let start: usize = units;
        for j in 0..nm
            invariant
                nm == p.modules@.len(),
                m == index.modules@,
                modules == p.modules.deep_view(),
                start + tree::units_in_modules(modules, nm as nat) <= rendered@.len(),
                rendered@.len() <= usize::MAX,
                units == start + tree::units_in_modules(modules, j as nat),
                found@ =~= found0 + modules_found(
                    m,
                    modules,
                    rendered@,
                    start as nat,
                    j as nat,
                ),
        {
            let module = &p.modules[j];
            assert(modules[j as int] == module.deep_view());
            proof {
                tree::lemma_units_in_modules_mono(modules, (j + 1) as nat, nm as nat);
            }
            let slug = content::module_slug_from_url(page_of_module(module).as_str());
            let end: usize = units + module.units.len();
            let has = base_of_module(index, &slug).is_some() || any_marked(rendered, units, end);
            found.push(has);
            units = end;
        }
    }
    found
}

/// The titles of those among the first `n` modules without content, where `before` modules stand
/// before them.
pub open spec fn modules_missing(
    modules: Seq<ModuleView>,
    found: Seq<bool>,
    before: nat,
    n: nat,
) -> Seq<Seq<char>>
    decreases n,
{
    if n == 0 {
        Seq::empty()
    } else {
        let titles = modules_missing(modules, found, before, (n - 1) as nat);
        if found[before + n - 1] {
            titles
        } else {
            titles.push(modules[n - 1].title)
        }
    }
}

/// The titles of the modules of the first `n` parts without content.
pub open spec fn parts_missing(parts: Seq<PartView>, found: Seq<bool>, n: nat) -> Seq<Seq<char>>
    decreases n,
{
    if n == 0 {
        Seq::empty()
    } else {
        let p = parts[n - 1];
        parts_missing(parts, found, (n - 1) as nat) + modules_missing(
            p.modules,
            found,
            tree::modules_in(parts, (n - 1) as nat),
            p.modules.len(),
        )
    }
}

/// The titles of a book's modules without content, in reading order.
pub open spec fn missing_of(book: BookView, found: Seq<bool>) -> Seq<Seq<char>> {
    parts_missing(book.parts, found, book.parts.len())
}

/// Lists the titles of the modules without content. `found` says of every module, in reading
/// order, whether it has content.
pub fn missing_modules(book: &Book, found: &Vec<bool>) -> (r: Vec<String>)
    requires
        found@.len() == book.deep_view().module_count(),
    ensures
        r.deep_view() == missing_of(book.deep_view(), found@),
{
    let ghost parts = book.parts.deep_view();
    assert(found.len() == found@.len());
    let np: usize = book.parts.len();
    let mut missing: Vec<String> = Vec::new();
    let mut count: usize = 0;
    for i in 0..np
        invariant
            np == book.parts@.len(),
            parts == book.parts.deep_view(),
            tree::modules_in(parts, np as nat) == found@.len(),
            found@.len() <= usize::MAX,
            count == tree::modules_in(parts, i as nat),
            missing.deep_view() =~= parts_missing(parts, found@, i as nat),
    {
        let p = &book.parts[i];
        assert(parts[i as int] == p.deep_view());
        let ghost modules = p.modules.deep_view();
        let ghost missing0 = missing.deep_view();
        let nm: usize = p.modules.len();
        proof {
            tree::lemma_modules_in_mono(parts, (i + 1) as nat, np as nat);
        }
        let start: usize = count;
        for j in 0..nm
            invariant
                nm == p.modules@.len(),
                modules == p.modules.deep_view(),
                start + nm <= found@.len(),
                found@.len() <= usize::MAX,
                count == start + j,
                missing.deep_view() =~= missing0 + modules_missing(
                    modules,
                    found@,
                    start as nat,
                    j as nat,
                ),
        {
            assert(modules[j as int] == p.modules@[j as int].deep_view());
            if !found[count] {
                text::push_item(&mut missing, p.modules[j].title.clone());
            }
            count = count + 1;
        }
    }
    missing
}

/// A book is refused that has modules, none of which has content: it would be hollow.
pub open spec fn is_hollow(book: BookView, found: Seq<bool>) -> bool {
    book.module_count() > 0 && !any_in(found, 0, found.len() as int)
}

/// Whether a book is worth assembling once everything was fetched. If no module has any content,
/// neither in the public repository nor on Learn, says so instead of handing back a hollow book.
/// `found` says of every module, in reading order, whether it has content.
pub fn book_outcome(book: &Book, found: &Vec<bool>) -> (r: Result<(), ResolveError>)
    requires
        found@.len() == book.deep_view().module_count(),
    ensures
        r is Err <==> is_hollow(book.deep_view(), found@),
        r matches Err(e) ==> e.deep_view() == ResolveErrorView::ContentUnavailable(book.title@),
{
    if found.len() > 0 && !any_marked(found, 0, found.len()) {
        return Err(ResolveError::ContentUnavailable(book.title.clone()));
    }
    Ok(())
}

// ---------------------------------------------------------------------------
// The chapters of a certification's book
// ---------------------------------------------------------------------------

/// The name of a unit's page.
pub open spec fn unit_id(gidx: nat) -> Seq<char> {
    "u"@ + text::zero_padded(text::decimal(gidx), 4)
}

/// The name of a part's opening.
pub open spec fn part_id(n: nat) -> Seq<char> {
    "part"@ + text::zero_padded(text::decimal(n), 2)
}

/// The file of a page.
pub open spec fn page_file(id: Seq<char>) -> Seq<char> {
    id + ".xhtml"@
}

/// The title of a part.
pub open spec fn part_label(n: nat, title: Seq<char>) -> Seq<char> {
    "Part "@ + text::decimal(n) + ": "@ + title
}

fn id_of_unit(gidx: usize) -> (r: String)
    ensures
        r@ == unit_id(gidx as nat),
{
    let mut s = "u".to_owned();
    s.append(text::padded_decimal(gidx as u64, 4).as_str());
    s
}

fn id_of_part(n: usize) -> (r: String)
    ensures
        r@ == part_id(n as nat),
{
    let mut s = "part".to_owned();
    s.append(text::padded_decimal(n as u64, 2).as_str());
    s
}

fn file_of_page(id: &str) -> (r: String)
    ensures
        r@ == page_file(id@),
{
    let mut s = id.to_owned();
    s.append(".xhtml");
    s
}

fn label_of_part(n: usize, title: &str) -> (r: String)
    ensures
        r@ == part_label(n as nat, title@),
{
    let mut s = "Part ".to_owned();
    s.append(text::decimal_text(n as u64).as_str());
    s.append(": ");
    s.append(title);
    s
}

/// The chapters of a module's units, where `before` units stand before the module. The first one
/// shows the module's name above the unit's.
pub open spec fn unit_chapters(
    module: ModuleView,
    contents: Seq<UnitContentView>,
    before: nat,
) -> Seq<ChapterView> {
    Seq::new(
        module.units.len(),
        |i: int|
            ChapterView {
                id: unit_id((before + i + 1) as nat),
                filename: page_file(unit_id((before + i + 1) as nat)),
                title: module.units[i].title,
                body: contents[before + i].body,
                module_header: if i == 0 {
                    Some(module.title)
                } else {
                    None
                },
            },
    )
}

/// The chapters of the units of the first `n` modules.
pub open spec fn module_chapters(
    modules: Seq<ModuleView>,
    contents: Seq<UnitContentView>,
    before: nat,
    n: nat,
) -> Seq<ChapterView>
    decreases n,
{
    if n == 0 {
        Seq::empty()
    } else {
        module_chapters(modules, contents, before, (n - 1) as nat) + unit_chapters(
            modules[n - 1],
            contents,
            before + tree::units_in_modules(modules, (n - 1) as nat),
        )
    }
}

/// The opening of the `n`th part.
pub open spec fn part_chapter(part: PartView, n: nat) -> ChapterView {
    ChapterView {
        id: part_id(n),
        filename: page_file(part_id(n)),
        title: part_label(n, part.title),
        body: pages::part_intro_text(n, part),
        module_header: None,
    }
}

/// The chapters of the first `n` parts: each part's opening, then its units.
pub open spec fn part_chapters(
    parts: Seq<PartView>,
    contents: Seq<UnitContentView>,
    n: nat,
) -> Seq<ChapterView>
    decreases n,
{
    if n == 0 {
        Seq::empty()
    } else {
        let p = parts[n - 1];
        part_chapters(parts, contents, (n - 1) as nat).push(part_chapter(p, n)) + module_chapters(
            p.modules,
            contents,
            tree::units_in(parts, (n - 1) as nat),
            p.modules.len(),
        )
    }
}

/// The places of a module's units in the sources appendix.
pub open spec fn module_slots(module: ModuleView, before: nat) -> Seq<SourceSlotView> {
    Seq::new(
        module.units.len(),
        |i: int|
            SourceSlotView {
                gidx: (before + i + 1) as nat,
                module_title: module.title,
                unit_title: module.units[i].title,
            },
    )
}

/// The places of the units of the first `n` modules.
pub open spec fn modules_slots(modules: Seq<ModuleView>, before: nat, n: nat) -> Seq<
    SourceSlotView,
>
    decreases n,
{
    if n == 0 {
        Seq::empty()
    } else {
        modules_slots(modules, before, (n - 1) as nat) + module_slots(
            modules[n - 1],
            before + tree::units_in_modules(modules, (n - 1) as nat),
        )
    }
}

/// The places of the units of the first `n` parts.
pub open spec fn parts_slots(parts: Seq<PartView>, n: nat) -> Seq<SourceSlotView>
    decreases n,
{
    if n == 0 {
        Seq::empty()
    } else {
        let p = parts[n - 1];
        parts_slots(parts, (n - 1) as nat) + modules_slots(
            p.modules,
            tree::units_in(parts, (n - 1) as nat),
            p.modules.len(),
        )
    }
}

/// The places of a book's units in its sources appendix.
pub open spec fn book_slots(book: BookView) -> Seq<SourceSlotView> {
    parts_slots(book.parts, book.parts.len())
}

/// The chapter of a page with that name and title.
pub open spec fn plain_chapter(id: Seq<char>, title: Seq<char>, body: Seq<char>) -> ChapterView {
    ChapterView { id, filename: page_file(id), title, body, module_header: None }
}

/// The chapters of a certification's book: the cover, the parts and the sources appendix.
pub open spec fn book_chapters(
    book: BookView,
    contents: Seq<UnitContentView>,
    date_stamp: Seq<char>,
) -> Seq<ChapterView> {
    seq![plain_chapter("cover"@, book.title, pages::cover_text(book, date_stamp))]
        + part_chapters(book.parts, contents, book.parts.len()) + seq![
        plain_chapter(
            "sources"@,
            "Sources and resources"@,
            pages::flat_sources_text(book.title, book_slots(book), contents, date_stamp)
                + pages::made_with_text(),
        ),
    ]
}

fn new_chapter(id: &str, title: &str, body: String) -> (r: Chapter)
    ensures
        r.deep_view() == plain_chapter(id@, title@, body@),
{
    Chapter {
        id: id.to_owned(),
        filename: file_of_page(id),
        title: title.to_owned(),
        body,
        module_header: None,
    }
}

fn push_unit_chapters(
    out: &mut Vec<Chapter>,
    module: &ModuleNode,
    contents: &Vec<UnitContent>,
    before: usize,
)
    requires
        before + module.units@.len() <= contents@.len(),
    ensures
        final(out).deep_view() == old(out).deep_view() + unit_chapters(
            module.deep_view(),
            contents.deep_view(),
            before as nat,
        ),
{
    let ghost start = out.deep_view();
    let ghost mv = module.deep_view();
    let ghost cv = contents.deep_view();
    let ghost want = unit_chapters(mv, cv, before as nat);
    let count: usize = contents.len();
    let n: usize = module.units.len();
    for i in 0..n
        invariant
            n == module.units@.len(),
            count == contents@.len(),
            before + n <= count,
            mv == module.deep_view(),
            cv == contents.deep_view(),
            want == unit_chapters(mv, cv, before as nat),
            out.deep_view() =~= start + want.take(i as int),
    {
        assert(mv.units[i as int] == module.units@[i as int].deep_view());
        assert(cv[before + i] == contents@[before + i].deep_view());
        let id = id_of_unit(before + i + 1);
        let filename = file_of_page(id.as_str());
        let module_header = if i == 0 {
            Some(module.title.clone())
        } else {
            None
        };
        let c = Chapter {
            id,
            filename,
            title: module.units[i].title.clone(),
            body: contents[before + i].body.clone(),
            module_header,
        };
        assert(c.deep_view() == want[i as int]);
        text::push_item(out, c);
    }
    assert(want.take(n as int) =~= want);
}

fn push_module_slots(out: &mut Vec<SourceSlot>, module: &ModuleNode, before: usize)
    requires
        before + module.units@.len() <= usize::MAX,
    ensures
        final(out).deep_view() == old(out).deep_view() + module_slots(
            module.deep_view(),
            before as nat,
        ),
{
    let ghost start = out.deep_view();
    let ghost mv = module.deep_view();
    let ghost want = module_slots(mv, before as nat);
    let n: usize = module.units.len();
    for i in 0..n
        invariant
            n == module.units@.len(),
            before + n <= usize::MAX,
            mv == module.deep_view(),
            want == module_slots(mv, before as nat),
            out.deep_view() =~= start + want.take(i as int),
    {
        assert(mv.units[i as int] == module.units@[i as int].deep_view());
        let slot = SourceSlot {
            gidx: before + i + 1,
            module_title: module.title.clone(),
            unit_title: module.units[i].title.clone(),
        };
        assert(slot.deep_view() == want[i as int]);
        text::push_item(out, slot);
    }
    assert(want.take(n as int) =~= want);
}

/// The places of a book's units in its sources appendix: flat and in reading order.
pub fn source_slots(book: &Book) -> (r: Vec<SourceSlot>)
    requires
        book.deep_view().unit_count() <= usize::MAX,
    ensures
        r.deep_view() == book_slots(book.deep_view()),
{
    let ghost parts = book.parts.deep_view();
    let np: usize = book.parts.len();
    let mut out: Vec<SourceSlot> = Vec::new();
    let mut units: usize = 0;
    assert(out.deep_view() =~= Seq::<SourceSlotView>::empty());
    for i in 0..np
        invariant
            np == book.parts@.len(),
            parts == book.parts.deep_view(),
            tree::units_in(parts, np as nat) <= usize::MAX,
            units == tree::units_in(parts, i as nat),
            out.deep_view() =~= parts_slots(parts, i as nat),
    {
        let p = &book.parts[i];
        assert(parts[i as int] == p.deep_view());
        let ghost modules = p.modules.deep_view();
        let ghost out0 = out.deep_view();
        let nm: usize = p.modules.len();
        proof {
            tree::lemma_units_in_mono(parts, (i + 1) as nat, np as nat);
        }
        let start: usize = units;
        for j in 0..nm
            invariant
                nm == p.modules@.len(),
                modules == p.modules.deep_view(),
                start + tree::units_in_modules(modules, nm as nat) <= usize::MAX,
                units == start + tree::units_in_modules(modules, j as nat),
                out.deep_view() =~= out0 + modules_slots(modules, start as nat, j as nat),
        {
            let module = &p.modules[j];
            assert(modules[j as int] == module.deep_view());
            proof {
                tree::lemma_units_in_modules_mono(modules, (j + 1) as nat, nm as nat);
            }
            push_module_slots(&mut out, module, units);
            units = units + module.units.len();
        }
    }
    out
}

/// The chapters of a certification's book, made of its units' pages.
pub fn certification_chapters(book: &Book, contents: &Vec<UnitContent>, date_stamp: &str) -> (r:
    Vec<Chapter>)
    requires
        book.deep_view().countable(),
        contents@.len() == book.deep_view().unit_count(),
    ensures
        r.deep_view() == book_chapters(book.deep_view(), contents.deep_view(), date_stamp@),
{
    let ghost b = book.deep_view();
    let ghost parts = book.parts.deep_view();
    let ghost cv = contents.deep_view();
    let np: usize = book.parts.len();
    let count: usize = contents.len();
    let mut out: Vec<Chapter> = Vec::new();
    text::push_item(
        &mut out,
        new_chapter("cover", book.title.as_str(), pages::cover_body(book, date_stamp)),
    );
    let ghost front = seq![plain_chapter("cover"@, b.title, pages::cover_text(b, date_stamp@))];
    let mut units: usize = 0;
    assert(out.deep_view() =~= front + part_chapters(parts, cv, 0));
    for i in 0..np
        invariant
            np == book.parts@.len(),
            count == contents@.len(),
            parts == book.parts.deep_view(),
            cv == contents.deep_view(),
            tree::units_in(parts, np as nat) == count,
            units == tree::units_in(parts, i as nat),
            out.deep_view() =~= front + part_chapters(parts, cv, i as nat),
    {
        let p = &book.parts[i];
        assert(parts[i as int] == p.deep_view());
        let ghost modules = p.modules.deep_view();
        proof {
            tree::lemma_units_in_mono(parts, (i + 1) as nat, np as nat);
        }
        let c = new_chapter(
            id_of_part(i + 1).as_str(),
            label_of_part(i + 1, p.title.as_str()).as_str(),
            pages::part_intro_body(i + 1, p),
        );
        text::push_item(&mut out, c);
        let ghost out0 = out.deep_view();
        let nm: usize = p.modules.len();
        let start: usize = units;
        assert(out0 + module_chapters(modules, cv, start as nat, 0) =~= out0);
        for j in 0..nm
            invariant
                nm == p.modules@.len(),
                count == contents@.len(),
                modules == p.modules.deep_view(),
                cv == contents.deep_view(),
                start + tree::units_in_modules(modules, nm as nat) <= count,
                units == start + tree::units_in_modules(modules, j as nat),
                out.deep_view() =~= out0 + module_chapters(
                    modules,
                    cv,
                    start as nat,
                    j as nat,
                ),
        {
            let module = &p.modules[j];
            assert(modules[j as int] == module.deep_view());
            proof {
                tree::lemma_units_in_modules_mono(modules, (j + 1) as nat, nm as nat);
            }
            push_unit_chapters(&mut out, module, contents, units);
            units = units + module.units.len();
        }
        assert(out.deep_view() =~= front + part_chapters(parts, cv, (i + 1) as nat));
    }
    let mut sources = pages::cert_sources_body_flat(
        book.title.as_str(),
        &source_slots(book),
        contents,
        date_stamp,
    );
    sources.append(pages::made_with().as_str());
    text::push_item(&mut out, new_chapter("sources", "Sources and resources", sources));
    assert(out.deep_view() =~= book_chapters(b, cv, date_stamp@));
    out
}

// ---------------------------------------------------------------------------
// The table of contents of a certification's book
// ---------------------------------------------------------------------------

/// The entries of a module's units.
pub open spec fn unit_navs(module: ModuleView, before: nat) -> Seq<NavView> {
    Seq::new(
        module.units.len(),
        |i: int|
            epub::leaf_view(
                page_file(unit_id((before + i + 1) as nat)),
                module.units[i].title,
            ),
    )
}

/// The entry of a module: it leads to its first unit, or to the part's opening where it has none.
pub open spec fn module_nav(module: ModuleView, part_file: Seq<char>, before: nat) -> NavView {
    NavView {
        href: if module.units.len() > 0 {
            page_file(unit_id(before + 1))
        } else {
            part_file
        },
        title: module.title,
        children: unit_navs(module, before),
    }
}

/// The entries of the first `n` modules of a part.
pub open spec fn module_navs(
    modules: Seq<ModuleView>,
    part_file: Seq<char>,
    before: nat,
    n: nat,
) -> Seq<NavView>
    decreases n,
{
    if n == 0 {
        Seq::empty()
    } else {
        module_navs(modules, part_file, before, (n - 1) as nat).push(
            module_nav(
                modules[n - 1],
                part_file,
                before + tree::units_in_modules(modules, (n - 1) as nat),
            ),
        )
    }
}

/// The entry of the `n`th part.
pub open spec fn part_nav(part: PartView, n: nat, before: nat) -> NavView {
    NavView {
        href: page_file(part_id(n)),
        title: part_label(n, part.title),
        children: module_navs(part.modules, page_file(part_id(n)), before, part.modules.len()),
    }
}

/// The entries of the first `n` parts.
pub open spec fn part_navs(parts: Seq<PartView>, n: nat) -> Seq<NavView>
    decreases n,
{
    if n == 0 {
        Seq::empty()
    } else {
        part_navs(parts, (n - 1) as nat).push(
            part_nav(parts[n - 1], n, tree::units_in(parts, (n - 1) as nat)),
        )
    }
}

/// The table of contents of a certification's book: the title page, the parts with their modules
/// and units, and the sources appendix.
pub open spec fn book_nav(book: BookView) -> Seq<NavView> {
    seq![epub::leaf_view("cover.xhtml"@, "Title page"@)] + part_navs(
        book.parts,
        book.parts.len(),
    ) + seq![epub::leaf_view("sources.xhtml"@, "Sources and resources"@)]
}

fn navs_of_units(module: &ModuleNode, before: usize) -> (r: Vec<NavEntry>)
    requires
        before + module.units@.len() <= usize::MAX,
    ensures
        r.deep_view() == unit_navs(module.deep_view(), before as nat),
{
    let ghost mv = module.deep_view();
    let ghost want = unit_navs(mv, before as nat);
    let n: usize = module.units.len();
    let mut out: Vec<NavEntry> = Vec::new();
    for i in 0..n
        invariant
            n == module.units@.len(),
            before + n <= usize::MAX,
            mv == module.deep_view(),
            want == unit_navs(mv, before as nat),
            out.deep_view() =~= want.take(i as int),
    {
        assert(mv.units[i as int] == module.units@[i as int].deep_view());
        let file = file_of_page(id_of_unit(before + i + 1).as_str());
        text::push_item(&mut out, NavEntry::leaf(file.as_str(), module.units[i].title.as_str()));
    }
    assert(want.take(n as int) =~= want);
    out
}

fn new_nav(href: String, title: String, children: Vec<NavEntry>) -> (r: NavEntry)
    ensures
        r.deep_view() == (NavView { href: href@, title: title@, children: children.deep_view() }),
{
    let r = NavEntry { href, title, children };
    proof {
        epub::lemma_nav_children(r);
    }
    r
}

fn nav_of_module(module: &ModuleNode, part_file: &str, before: usize) -> (r: NavEntry)
    requires
        before + module.units@.len() <= usize::MAX,
    ensures
        r.deep_view() == module_nav(module.deep_view(), part_file@, before as nat),
{
    let href = if module.units.len() > 0 {
        file_of_page(id_of_unit(before + 1).as_str())
    } else {
        part_file.to_owned()
    };
    new_nav(href, module.title.clone(), navs_of_units(module, before))
}

fn nav_of_part(part: &Part, n: usize, before: usize) -> (r: NavEntry)
    requires
        before + tree::units_in_modules(part.modules.deep_view(), part.modules@.len())
            <= usize::MAX,
    ensures
        r.deep_view() == part_nav(part.deep_view(), n as nat, before as nat),
{
    let ghost modules = part.modules.deep_view();
    let part_file = file_of_page(id_of_part(n).as_str());
    let nm: usize = part.modules.len();
    let mut out: Vec<NavEntry> = Vec::new();
    let mut units: usize = before;
    for j in 0..nm
        invariant
            nm == part.modules@.len(),
            modules == part.modules.deep_view(),
            part_file@ == page_file(part_id(n as nat)),
            before + tree::units_in_modules(modules, nm as nat) <= usize::MAX,
            units == before + tree::units_in_modules(modules, j as nat),
            out.deep_view() =~= module_navs(modules, part_file@, before as nat, j as nat),
    {
        let module = &part.modules[j];
        assert(modules[j as int] == module.deep_view());
        proof {
            tree::lemma_units_in_modules_mono(modules, (j + 1) as nat, nm as nat);
        }
        text::push_item(&mut out, nav_of_module(module, part_file.as_str(), units));
        units = units + module.units.len();
    }
    let label = label_of_part(n, part.title.as_str());
    new_nav(part_file, label, out)
}

/// The table of contents of a certification's book.
pub fn certification_nav(book: &Book) -> (r: Vec<NavEntry>)
    requires
        book.deep_view().unit_count() <= usize::MAX,
    ensures
        r.deep_view() == book_nav(book.deep_view()),
{
    let ghost parts = book.parts.deep_view();
    let ghost front = seq![epub::leaf_view("cover.xhtml"@, "Title page"@)];
    let np: usize = book.parts.len();
    let mut out: Vec<NavEntry> = Vec::new();
    text::push_item(&mut out, NavEntry::leaf("cover.xhtml", "Title page"));
    let mut units: usize = 0;
    assert(out.deep_view() =~= front + part_navs(parts, 0));
    for i in 0..np
        invariant
            np == book.parts@.len(),
            parts == book.parts.deep_view(),
            tree::units_in(parts, np as nat) <= usize::MAX,
            units == tree::units_in(parts, i as nat),
            out.deep_view() =~= front + part_navs(parts, i as nat),
    {
        let p = &book.parts[i];
        assert(parts[i as int] == p.deep_view());
        proof {
            tree::lemma_units_in_mono(parts, (i + 1) as nat, np as nat);
        }
        text::push_item(&mut out, nav_of_part(p, i + 1, units));
        units = units + units_of_part(p);
    }
    text::push_item(&mut out, NavEntry::leaf("sources.xhtml", "Sources and resources"));
    assert(out.deep_view() =~= book_nav(book.deep_view()));
    out
}

fn units_of_part(part: &Part) -> (r: usize)
    requires
        tree::units_in_modules(part.modules.deep_view(), part.modules@.len()) <= usize::MAX,
    ensures
        r == tree::units_in_modules(part.modules.deep_view(), part.modules@.len()),
{
    let ghost modules = part.modules.deep_view();
    let nm: usize = part.modules.len();
    let mut sum: usize = 0;
    for j in 0..nm
        invariant
            nm == part.modules@.len(),
            modules == part.modules.deep_view(),
            tree::units_in_modules(modules, nm as nat) <= usize::MAX,
            sum == tree::units_in_modules(modules, j as nat),
    {
        assert(modules[j as int] == part.modules@[j as int].deep_view());
        proof {
            tree::lemma_units_in_modules_mono(modules, (j + 1) as nat, nm as nat);
        }
        sum = sum + part.modules[j].units.len();
    }
    sum
}

// ---------------------------------------------------------------------------
// Packing a certification's book
// ---------------------------------------------------------------------------

/// How many entries the table of contents of a book has.
pub open spec fn nav_points(book: BookView) -> nat {
    2 + book.parts.len() + book.module_count() + book.unit_count()
}

/// A book's identifier.
pub open spec fn identifier_text(uid: Seq<char>, date_stamp: Seq<char>) -> Seq<char> {
    "urn:mslx:"@ + uid + ":"@ + date_stamp
}

/// The moment at which a book was made.
pub open spec fn modified_text(date_stamp: Seq<char>) -> Seq<char> {
    date_stamp + "T00:00:00Z"@
}

fn identifier_of(uid: &str, date_stamp: &str) -> (r: String)
    ensures
        r@ == identifier_text(uid@, date_stamp@),
{
    let mut s = "urn:mslx:".to_owned();
    s.append(uid);
    s.append(":");
    s.append(date_stamp);
    s
}

pub(crate) fn modified_of(date_stamp: &str) -> (r: String)
    ensures
        r@ == modified_text(date_stamp@),
{
    let mut s = date_stamp.to_owned();
    s.append("T00:00:00Z");
    s
}

/// Chapters that show the fetched images from their files.
pub open spec fn illustrated(
    chapters: Seq<ChapterView>,
    images: Seq<Option<Seq<u8>>>,
) -> Seq<ChapterView> {
    let urls = images::image_urls(chapters);
    chapters.map_values(|c: ChapterView| images::localised_chapter(c, urls, images))
}

/// The images that are embedded with the chapters.
pub open spec fn illustrations(
    chapters: Seq<ChapterView>,
    images: Seq<Option<Seq<u8>>>,
) -> Seq<ResourceView> {
    let urls = images::image_urls(chapters);
    images::embedded_first(urls, images, urls.len())
}

/// The files of the EPUB of a certification's book.
pub open spec fn certification_package(
    book: BookView,
    contents: Seq<UnitContentView>,
    images: Seq<Option<Seq<u8>>>,
    date_stamp: Seq<char>,
) -> Seq<(Seq<char>, bool, Seq<u8>)> {
    let chapters = book_chapters(book, contents, date_stamp);
    epub::package_view(
        book.title,
        identifier_text(book.cert_uid, date_stamp),
        modified_text(date_stamp),
        "en"@,
        illustrated(chapters, images),
        book_nav(book),
        illustrations(chapters, images),
    )
}

/// What went wrong while packing.
pub open spec fn is_packing_error(e: ResolveErrorView) -> bool {
    e matches ResolveErrorView::BadInput(m) && text::has_prefix(m, "epub packaging failed: "@)
}

/// A short name in ASCII.
pub open spec fn short_name(name: Seq<char>) -> bool {
    text::all_ascii(name) && name.len() <= 100
}

/// All chapters are in files with short names.
pub open spec fn short_names(chapters: Seq<ChapterView>) -> bool {
    forall|i: int| 0 <= i < chapters.len() ==> short_name(#[trigger] chapters[i].filename)
}

pub proof fn lemma_short_cat(a: Seq<char>, b: Seq<char>)
    requires
        text::all_ascii(a),
        text::all_ascii(b),
    ensures
        text::all_ascii(a + b),
{
    assert forall|i: int| 0 <= i < (a + b).len() implies (#[trigger] (a + b)[i]) as nat <= 127 by {
        if i < a.len() {
            assert((a + b)[i] == a[i]);
        } else {
            assert((a + b)[i] == b[i - a.len()]);
        }
    }
}

proof fn lemma_numbered_file(prefix: Seq<char>, n: nat, width: nat)
    requires
        short_name(prefix),
        prefix.len() <= 10,
        n <= u64::MAX,
        width <= 20,
    ensures
        short_name(page_file(prefix + text::zero_padded(text::decimal(n), width))),
{
    let d = text::zero_padded(text::decimal(n), width);
    text::lemma_padded(n, width);
    assert forall|i: int| 0 <= i < d.len() implies (#[trigger] d[i]) as nat <= 127 by {
        assert(text::is_digit(d[i]));
    }
    reveal_strlit(".xhtml");
    lemma_short_cat(prefix, d);
    lemma_short_cat(prefix + d, ".xhtml"@);
}

proof fn lemma_unit_chapters_short(module: ModuleView, contents: Seq<UnitContentView>, before: nat)
    requires
        before + module.units.len() <= u64::MAX,
    ensures
        short_names(unit_chapters(module, contents, before)),
{
    reveal_strlit("u");
    let cs = unit_chapters(module, contents, before);
    assert forall|i: int| 0 <= i < cs.len() implies short_name(#[trigger] cs[i].filename) by {
        lemma_numbered_file("u"@, (before + i + 1) as nat, 4);
    }
}

proof fn lemma_short_names_cat(a: Seq<ChapterView>, b: Seq<ChapterView>)
    requires
        short_names(a),
        short_names(b),
    ensures
        short_names(a + b),
{
    assert forall|i: int| 0 <= i < (a + b).len() implies short_name(#[trigger] (a + b)[i].filename) by {
        if i < a.len() {
            assert((a + b)[i].filename == a[i].filename);
        } else {
            assert((a + b)[i].filename == b[i - a.len()].filename);
        }
    }
}

proof fn lemma_module_chapters_short(
    modules: Seq<ModuleView>,
    contents: Seq<UnitContentView>,
    before: nat,
    n: nat,
)
    requires
        n <= modules.len(),
        before + tree::units_in_modules(modules, n) <= u64::MAX,
    ensures
        short_names(module_chapters(modules, contents, before, n)),
    decreases n,
{
    if n > 0 {
        lemma_module_chapters_short(modules, contents, before, (n - 1) as nat);
        let b = before + tree::units_in_modules(modules, (n - 1) as nat);
        lemma_unit_chapters_short(modules[n - 1], contents, b);
        lemma_short_names_cat(
            module_chapters(modules, contents, before, (n - 1) as nat),
            unit_chapters(modules[n - 1], contents, b),
        );
    }
}

proof fn lemma_part_chapters_short(parts: Seq<PartView>, contents: Seq<UnitContentView>, n: nat)
    requires
        n <= parts.len() <= u64::MAX,
        tree::units_in(parts, n) <= u64::MAX,
    ensures
        short_names(part_chapters(parts, contents, n)),
    decreases n,
{
    if n > 0 {
        let p = parts[n - 1];
        let before = tree::units_in(parts, (n - 1) as nat);
        lemma_part_chapters_short(parts, contents, (n - 1) as nat);
        lemma_module_chapters_short(p.modules, contents, before, p.modules.len());
        reveal_strlit("part");
        lemma_numbered_file("part"@, n, 2);
        let front = part_chapters(parts, contents, (n - 1) as nat);
        let opening = seq![part_chapter(p, n)];
        assert(short_names(opening));
        lemma_short_names_cat(front, opening);
        assert(front.push(part_chapter(p, n)) =~= front + opening);
        lemma_short_names_cat(
            front.push(part_chapter(p, n)),
            module_chapters(p.modules, contents, before, p.modules.len()),
        );
    }
}

#[verifier::rlimit(20)]
proof fn lemma_book_chapters_short(
    book: BookView,
    contents: Seq<UnitContentView>,
    date_stamp: Seq<char>,
)
    requires
        book.parts.len() <= u64::MAX,
        book.unit_count() <= u64::MAX,
    ensures
        short_names(book_chapters(book, contents, date_stamp)),
{
    lemma_part_chapters_short(book.parts, contents, book.parts.len());
    let parts = part_chapters(book.parts, contents, book.parts.len());
    let cover = seq![plain_chapter("cover"@, book.title, pages::cover_text(book, date_stamp))];
    let sources = seq![
        plain_chapter(
            "sources"@,
            "Sources and resources"@,
            pages::flat_sources_text(book.title, book_slots(book), contents, date_stamp)
                + pages::made_with_text(),
        ),
    ];
    reveal_strlit("cover");
    reveal_strlit("sources");
    reveal_strlit(".xhtml");
    lemma_short_cat("cover"@, ".xhtml"@);
    lemma_short_cat("sources"@, ".xhtml"@);
    assert(short_names(cover));
    assert(short_names(sources));
    lemma_short_names_cat(cover, parts);
    lemma_short_names_cat(cover + parts, sources);
}

/// Chapters in files with short names and their images fit an archive.
proof fn lemma_illustrated_names_fit(chapters: Seq<ChapterView>, images: Seq<Option<Seq<u8>>>)
    requires
        short_names(chapters),
        images.len() == images::image_urls(chapters).len(),
        images.len() <= u64::MAX,
    ensures
        epub::names_fit(illustrated(chapters, images), illustrations(chapters, images)),
{
    let shown = illustrated(chapters, images);
    images::lemma_embedded_names_fit(
        images::image_urls(chapters),
        images,
        images::image_urls(chapters).len(),
    );
    reveal_strlit("OEBPS/");
    assert forall|i: int| 0 <= i < shown.len() implies archive::name_fits(
        epub::oebps_name(#[trigger] shown[i].filename),
    ) by {
        assert(shown[i].filename == chapters[i].filename);
        assert(short_name(chapters[i].filename));
        lemma_short_cat("OEBPS/"@, chapters[i].filename);
        epub::lemma_ascii_name_fits(epub::oebps_name(chapters[i].filename));
    }
}

proof fn lemma_nav_size_prefix(a: Seq<NavView>, b: Seq<NavView>, n: nat)
    requires
        n <= a.len(),
        n <= b.len(),
        forall|i: int| 0 <= i < n ==> #[trigger] a[i] == b[i],
    ensures
        epub::nav_size(a, n) == epub::nav_size(b, n),
    decreases n,
{
    if n > 0 {
        lemma_nav_size_prefix(a, b, (n - 1) as nat);
        assert(a[n - 1] == b[n - 1]);
    }
}

proof fn lemma_nav_size_push(a: Seq<NavView>, e: NavView)
    ensures
        epub::nav_size(a.push(e), a.push(e).len()) == epub::nav_size(a, a.len()) + 1
            + epub::nav_size(e.children, e.children.len()),
{
    lemma_nav_size_prefix(a.push(e), a, a.len());
}

pub proof fn lemma_nav_size_leaves(navs: Seq<NavView>, n: nat)
    requires
        n <= navs.len(),
        forall|i: int| 0 <= i < navs.len() ==> (#[trigger] navs[i]).children.len() == 0,
    ensures
        epub::nav_size(navs, n) == n,
    decreases n,
{
    if n > 0 {
        lemma_nav_size_leaves(navs, (n - 1) as nat);
        assert(navs[n - 1].children.len() == 0);
        assert(epub::nav_size(navs[n - 1].children, 0) == 0);
    }
}

proof fn lemma_nav_size_modules(
    modules: Seq<ModuleView>,
    part_file: Seq<char>,
    before: nat,
    n: nat,
)
    requires
        n <= modules.len(),
    ensures
        module_navs(modules, part_file, before, n).len() == n,
        epub::nav_size(module_navs(modules, part_file, before, n), n) == n
            + tree::units_in_modules(modules, n),
    decreases n,
{
    if n > 0 {
        lemma_nav_size_modules(modules, part_file, before, (n - 1) as nat);
        let e = module_nav(
            modules[n - 1],
            part_file,
            before + tree::units_in_modules(modules, (n - 1) as nat),
        );
        lemma_nav_size_push(module_navs(modules, part_file, before, (n - 1) as nat), e);
        lemma_nav_size_leaves(e.children, e.children.len());
    }
}

proof fn lemma_nav_size_parts(parts: Seq<PartView>, n: nat)
    requires
        n <= parts.len(),
    ensures
        part_navs(parts, n).len() == n,
        epub::nav_size(part_navs(parts, n), n) == n + tree::modules_in(parts, n) + tree::units_in(
            parts,
            n,
        ),
    decreases n,
{
    if n > 0 {
        lemma_nav_size_parts(parts, (n - 1) as nat);
        let p = parts[n - 1];
        let before = tree::units_in(parts, (n - 1) as nat);
        lemma_nav_size_push(part_navs(parts, (n - 1) as nat), part_nav(p, n, before));
        lemma_nav_size_modules(
            p.modules,
            page_file(part_id(n)),
            before,
            p.modules.len(),
        );
    }
}

proof fn lemma_nav_size_cat(a: Seq<NavView>, b: Seq<NavView>)
    ensures
        epub::nav_size(a + b, (a + b).len()) == epub::nav_size(a, a.len()) + epub::nav_size(
            b,
            b.len(),
        ),
    decreases b.len(),
{
    if b.len() == 0 {
        assert(a + b =~= a);
    } else {
        lemma_nav_size_cat(a, b.drop_last());
        assert(a + b =~= (a + b.drop_last()).push(b.last()));
        assert(b =~= b.drop_last().push(b.last()));
        lemma_nav_size_push(a + b.drop_last(), b.last());
        lemma_nav_size_push(b.drop_last(), b.last());
    }
}

/// The table of contents has an entry for every part, every module and every unit, and two more:
/// the title page and the sources appendix.
pub proof fn law_everything_is_in_the_contents(book: BookView)
    ensures
        epub::nav_size(book_nav(book), book_nav(book).len()) == nav_points(book),
{
    let cover = seq![epub::leaf_view("cover.xhtml"@, "Title page"@)];
    let parts = part_navs(book.parts, book.parts.len());
    let sources = seq![epub::leaf_view("sources.xhtml"@, "Sources and resources"@)];
    lemma_nav_size_parts(book.parts, book.parts.len());
    lemma_nav_size_leaves(cover, 1);
    lemma_nav_size_leaves(sources, 1);
    lemma_nav_size_cat(cover, parts);
    lemma_nav_size_cat(cover + parts, sources);
}

/// What is returned for each outcome of the packing: the archive, or an error that says why there
/// is none.
pub fn packed(r: Result<Vec<u8>, epub::PackError>) -> (p: Result<Vec<u8>, ResolveError>)
    ensures
        r matches Ok(bytes) ==> p == Ok::<Vec<u8>, ResolveError>(bytes),
        r matches Err(e) ==> p is Err && p->Err_0.deep_view() == ResolveErrorView::BadInput(
            "epub packaging failed: "@ + e.message@,
        ),
        r is Err ==> is_packing_error(p->Err_0.deep_view()),
{
    match r {
        Ok(bytes) => Ok(bytes),
        Err(e) => {
            let mut m = "epub packaging failed: ".to_owned();
            m.append(e.message.as_str());
            assert(m@.subrange(0, "epub packaging failed: "@.len() as int)
                =~= "epub packaging failed: "@);
            Err(ResolveError::BadInput(m))
        },
    }
}

/// The URLs of the remote images that a certification's book shows.
pub fn certification_images(book: &Book, contents: &Vec<UnitContent>, date_stamp: &str) -> (r: Vec<
    String,
>)
    requires
        book.deep_view().countable(),
        contents@.len() == book.deep_view().unit_count(),
    ensures
        r.deep_view() == images::image_urls(
            book_chapters(book.deep_view(), contents.deep_view(), date_stamp@),
        ),
{
    images::remote_images(&certification_chapters(book, contents, date_stamp))
}

/// Builds the EPUB of a whole certification: parts, modules and units with a nested table of
/// contents and a sources appendix. `contents` holds the pages of the units in reading order;
/// `images` holds what was fetched of each image that [`certification_images`] lists.
pub fn build_certification_epub(
    book: &Book,
    contents: &Vec<UnitContent>,
    images: Vec<Option<Vec<u8>>>,
    date_stamp: &str,
) -> (r: Result<Vec<u8>, ResolveError>)
    requires
        book.deep_view().countable(),
        nav_points(book.deep_view()) <= u32::MAX,
        contents@.len() == book.deep_view().unit_count(),
        images@.len() == images::image_urls(
            book_chapters(book.deep_view(), contents.deep_view(), date_stamp@),
        ).len(),
    ensures
        r is Ok <==> archive::packs(
            certification_package(
                book.deep_view(),
                contents.deep_view(),
                images.deep_view(),
                date_stamp@,
            ),
        ),
        r matches Ok(bytes) ==> archive::archive_entries(bytes@) == certification_package(
            book.deep_view(),
            contents.deep_view(),
            images.deep_view(),
            date_stamp@,
        ),
        r matches Err(e) ==> is_packing_error(e.deep_view()),
{
    let chapters = certification_chapters(book, contents, date_stamp);
    let ghost cv = chapters.deep_view();
    let ghost data = images.deep_view();
    let urls = images::remote_images(&chapters);
    assert(images.len() == data.len());
    let (shown, resources) = images::embed_images(chapters, &urls, images);
    let nav = certification_nav(book);
    let identifier = identifier_of(book.cert_uid.as_str(), date_stamp);
    let modified = modified_of(date_stamp);
    proof {
        lemma_book_chapters_short(book.deep_view(), contents.deep_view(), date_stamp@);
        lemma_illustrated_names_fit(cv, data);
        law_everything_is_in_the_contents(book.deep_view());
        assert(shown.deep_view() =~= illustrated(cv, data));
    }
    packed(
        epub::build_epub(
            book.title.as_str(),
            identifier.as_str(),
            modified.as_str(),
            "en",
            shown.as_slice(),
            &nav,
            resources.as_slice(),
        ),
    )
}

// ---------------------------------------------------------------------------
// A single module's book
// ---------------------------------------------------------------------------

/// The tasks of a single module's units. A module without a usable page cannot be exported.
pub open spec fn module_planned(
    m: Map<Seq<char>, ModuleFilesView>,
    module_uid: Seq<char>,
    module: ModuleView,
) -> Result<Seq<UnitTaskView>, ResolveErrorView> {
    match content::module_slug(module_page(module)) {
        None => Err(
            ResolveErrorView::BadInput(
                "module "@ + module_uid + " has no usable training URL"@,
            ),
        ),
        Some(_) => Ok(module_tasks(m, module, 0)),
    }
}

/// Plans a single module's book: the fetch task of every unit.
pub fn plan_module(index: &ContentIndex, module_uid: &str, module: &ModuleNode) -> (r: Result<
    Vec<UnitTask>,
    ResolveError,
>)
    ensures
        error::outcome(r) == module_planned(index.modules@, module_uid@, module.deep_view()),
{
    match content::module_slug_from_url(page_of_module(module).as_str()) {
        None => {
            let mut m = "module ".to_owned();
            m.append(module_uid);
            m.append(" has no usable training URL");
            Err(ResolveError::BadInput(m))
        },
        Some(_) => {
            assert(module.units.len() == module.units@.len());
            let mut tasks: Vec<UnitTask> = Vec::new();
            push_module_tasks(&mut tasks, index, module, 0);
            assert(tasks.deep_view() =~= module_tasks(index.modules@, module.deep_view(), 0));
            Ok(tasks)
        },
    }
}

/// Why a single module cannot be exported: neither the public repository nor Learn has content of
/// it.
pub open spec fn module_refused(
    m: Map<Seq<char>, ModuleFilesView>,
    module: ModuleView,
    rendered: Seq<bool>,
) -> Option<ResolveErrorView> {
    match content::module_slug(module_page(module)) {
        Some(slug) if !module_has_content(m, module, rendered, 0) => Some(
            ResolveErrorView::BadInput(
                "module '"@ + slug + "' not found in the content index (rebuild the index?)"@,
            ),
        ),
        _ => None,
    }
}

/// Whether a single module is worth assembling once everything was fetched. `rendered` says of
/// every unit whether its page came from Learn's rendered markdown.
pub fn module_outcome(index: &ContentIndex, module: &ModuleNode, rendered: &Vec<bool>) -> (r:
    Result<(), ResolveError>)
    requires
        rendered@.len() == module.units@.len(),
    ensures
        r is Err <==> module_refused(index.modules@, module.deep_view(), rendered@) is Some,
        r matches Err(e) ==> Some(e.deep_view()) == module_refused(
            index.modules@,
            module.deep_view(),
            rendered@,
        ),
{
    match content::module_slug_from_url(page_of_module(module).as_str()) {
        None => Ok(()),
        Some(slug) => {
            if index.module_raw_base(slug.as_str()).is_some() || any_marked(
                rendered,
                0,
                rendered.len(),
            ) {
                return Ok(());
            }
            let mut m = "module '".to_owned();
            m.append(slug.as_str());
            m.append("' not found in the content index (rebuild the index?)");
            Err(ResolveError::BadInput(m))
        },
    }
}

/// The name of a page of a single module's book.
pub open spec fn chapter_id(n: nat) -> Seq<char> {
    "ch"@ + text::zero_padded(text::decimal(n), 3)
}

/// The titles of a module's units.
pub open spec fn unit_titles(module: ModuleView) -> Seq<Seq<char>> {
    Seq::new(module.units.len(), |i: int| module.units[i].title)
}

/// The chapters of a single module's units.
pub open spec fn module_unit_chapters(
    module: ModuleView,
    contents: Seq<UnitContentView>,
) -> Seq<ChapterView> {
    Seq::new(
        module.units.len(),
        |i: int|
            plain_chapter(
                chapter_id((i + 1) as nat),
                module.units[i].title,
                contents[i].body,
            ),
    )
}

/// The chapters of a single module's book: the title page, the units and the sources appendix.
pub open spec fn module_book_chapters(
    module: ModuleView,
    contents: Seq<UnitContentView>,
    date_stamp: Seq<char>,
) -> Seq<ChapterView> {
    seq![
        plain_chapter(
            "ch000"@,
            module.title,
            pages::title_page_text(module.title, module_page(module), module, date_stamp),
        ),
    ] + module_unit_chapters(module, contents) + seq![
        plain_chapter(
            "ch999"@,
            "Sources and resources"@,
            pages::sources_text(
                module.title,
                module_page(module),
                unit_titles(module),
                contents,
                date_stamp,
            ),
        ),
    ]
}

/// A table of contents with one entry for each chapter.
pub open spec fn chapter_navs(chapters: Seq<ChapterView>) -> Seq<NavView> {
    Seq::new(chapters.len(), |i: int| epub::leaf_view(chapters[i].filename, chapters[i].title))
}

/// The files of the EPUB of a single module's book.
pub open spec fn module_package(
    module: ModuleView,
    contents: Seq<UnitContentView>,
    images: Seq<Option<Seq<u8>>>,
    date_stamp: Seq<char>,
) -> Seq<(Seq<char>, bool, Seq<u8>)> {
    let chapters = module_book_chapters(module, contents, date_stamp);
    epub::package_view(
        module.title,
        identifier_text(module.uid, date_stamp),
        modified_text(date_stamp),
        "en"@,
        illustrated(chapters, images),
        chapter_navs(chapters),
        illustrations(chapters, images),
    )
}

fn id_of_chapter(n: usize) -> (r: String)
    ensures
        r@ == chapter_id(n as nat),
{
    let mut s = "ch".to_owned();
    s.append(text::padded_decimal(n as u64, 3).as_str());
    s
}

/// The chapters of a single module's book, made of its units' pages.
pub fn module_chapters_of(module: &ModuleNode, contents: &Vec<UnitContent>, date_stamp: &str) -> (r:
    Vec<Chapter>)
    requires
        contents@.len() == module.units@.len(),
    ensures
        r.deep_view() == module_book_chapters(
            module.deep_view(),
            contents.deep_view(),
            date_stamp@,
        ),
{
    let ghost mv = module.deep_view();
    let ghost cv = contents.deep_view();
    let ghost want = module_unit_chapters(mv, cv);
    let module_url = page_of_module(module);
    let n: usize = module.units.len();
    let mut out: Vec<Chapter> = Vec::new();
    let mut titles: Vec<String> = Vec::new();
    text::push_item(
        &mut out,
        new_chapter(
            "ch000",
            module.title.as_str(),
            pages::title_page_body(
                module.title.as_str(),
                module_url.as_str(),
                module,
                date_stamp,
            ),
        ),
    );
    let ghost front = out.deep_view();
    for i in 0..n
        invariant
            n == module.units@.len(),
            n == contents@.len(),
            mv == module.deep_view(),
            cv == contents.deep_view(),
            want == module_unit_chapters(mv, cv),
            titles.deep_view() =~= unit_titles(mv).take(i as int),
            out.deep_view() =~= front + want.take(i as int),
    {
        assert(mv.units[i as int] == module.units@[i as int].deep_view());
        assert(cv[i as int] == contents@[i as int].deep_view());
        text::push_item(&mut titles, module.units[i].title.clone());
        let c = new_chapter(
            id_of_chapter(i + 1).as_str(),
            module.units[i].title.as_str(),
            contents[i].body.clone(),
        );
        assert(c.deep_view() == want[i as int]);
        text::push_item(&mut out, c);
    }
    assert(want.take(n as int) =~= want);
    assert(titles.deep_view() =~= unit_titles(mv));
    let sources = pages::sources_body(
        module.title.as_str(),
        module_url.as_str(),
        &titles,
        contents,
        date_stamp,
    );
    text::push_item(&mut out, new_chapter("ch999", "Sources and resources", sources));
    assert(out.deep_view() =~= module_book_chapters(mv, cv, date_stamp@));
    out
}

fn navs_of_chapters(chapters: &Vec<Chapter>) -> (r: Vec<NavEntry>)
    ensures
        r.deep_view() == chapter_navs(chapters.deep_view()),
{
    let ghost all = chapters.deep_view();
    let n: usize = chapters.len();
    let mut out: Vec<NavEntry> = Vec::new();
    for i in 0..n
        invariant
            n == chapters@.len(),
            all == chapters.deep_view(),
            out.deep_view() =~= chapter_navs(all).take(i as int),
    {
        assert(all[i as int] == chapters@[i as int].deep_view());
        text::push_item(
            &mut out,
            NavEntry::leaf(chapters[i].filename.as_str(), chapters[i].title.as_str()),
        );
    }
    out
}

proof fn lemma_module_book_short(
    module: ModuleView,
    contents: Seq<UnitContentView>,
    date_stamp: Seq<char>,
)
    requires
        module.units.len() <= u64::MAX,
    ensures
        short_names(module_book_chapters(module, contents, date_stamp)),
{
    let units = module_unit_chapters(module, contents);
    let all = module_book_chapters(module, contents, date_stamp);
    reveal_strlit("ch");
    reveal_strlit("ch000");
    reveal_strlit("ch999");
    reveal_strlit(".xhtml");
    lemma_short_cat("ch000"@, ".xhtml"@);
    lemma_short_cat("ch999"@, ".xhtml"@);
    assert forall|i: int| 0 <= i < all.len() implies short_name(#[trigger] all[i].filename) by {
        if 0 < i <= units.len() {
            assert(all[i] == units[i - 1]);
            lemma_numbered_file("ch"@, i as nat, 3);
        }
    }
}

/// The URLs of the remote images that a single module's book shows.
pub fn module_images(module: &ModuleNode, contents: &Vec<UnitContent>, date_stamp: &str) -> (r: Vec<
    String,
>)
    requires
        contents@.len() == module.units@.len(),
    ensures
        r.deep_view() == images::image_urls(
            module_book_chapters(module.deep_view(), contents.deep_view(), date_stamp@),
        ),
{
    images::remote_images(&module_chapters_of(module, contents, date_stamp))
}

/// Builds the EPUB of a single module. `contents` holds the pages of its units in order; `images`
/// holds what was fetched of each image that [`module_images`] lists.
///
/// `date_stamp` is `YYYY-MM-DD`; the caller supplies it so that this stays free of any clock.
pub fn build_module_epub(
    module: &ModuleNode,
    contents: &Vec<UnitContent>,
    images: Vec<Option<Vec<u8>>>,
    date_stamp: &str,
) -> (r: Result<Vec<u8>, ResolveError>)
    requires
        module.units@.len() + 2 <= u32::MAX,
        contents@.len() == module.units@.len(),
        images@.len() == images::image_urls(
            module_book_chapters(module.deep_view(), contents.deep_view(), date_stamp@),
        ).len(),
    ensures
        r is Ok <==> archive::packs(
            module_package(
                module.deep_view(),
                contents.deep_view(),
                images.deep_view(),
                date_stamp@,
            ),
        ),
        r matches Ok(bytes) ==> archive::archive_entries(bytes@) == module_package(
            module.deep_view(),
            contents.deep_view(),
            images.deep_view(),
            date_stamp@,
        ),
        r matches Err(e) ==> is_packing_error(e.deep_view()),
{
    let chapters = module_chapters_of(module, contents, date_stamp);
    let ghost cv = chapters.deep_view();
    let ghost data = images.deep_view();
    let nav = navs_of_chapters(&chapters);
    let urls = images::remote_images(&chapters);
    assert(images.len() == data.len());
    let (shown, resources) = images::embed_images(chapters, &urls, images);
    let identifier = identifier_of(module.uid.as_str(), date_stamp);
    let modified = modified_of(date_stamp);
    proof {
        lemma_module_book_short(module.deep_view(), contents.deep_view(), date_stamp@);
        lemma_illustrated_names_fit(cv, data);
        lemma_nav_size_leaves(nav.deep_view(), nav@.len());
        assert(shown.deep_view() =~= illustrated(cv, data));
    }
    packed(
        epub::build_epub(
            module.title.as_str(),
            identifier.as_str(),
            modified.as_str(),
            "en",
            shown.as_slice(),
            &nav,
            resources.as_slice(),
        ),
    )
}

// ---------------------------------------------------------------------------
// Progress
// ---------------------------------------------------------------------------

/// What is said before the units are fetched.
pub fn fetching_progress(total: usize) -> (r: String)
    ensures
        r@ == "Fetching "@ + text::decimal(total as nat) + " units\u{2026}"@,
{
    let mut s = "Fetching ".to_owned();
    s.append(text::decimal_text(total as u64).as_str());
    s.append(" units\u{2026}");
    s
}

/// What is said when a unit has been fetched, as the `done`th of `total`.
pub fn unit_progress(done: usize, total: usize, slot: &SourceSlot) -> (r: String)
    ensures
        r@ == "["@ + text::decimal(done as nat) + "/"@ + text::decimal(total as nat) + "] "@
            + slot.module_title@ + " \u{203a} "@ + slot.unit_title@,
{
    let mut s = "[".to_owned();
    s.append(text::decimal_text(done as u64).as_str());
    s.append("/");
    s.append(text::decimal_text(total as u64).as_str());
    s.append("] ");
    s.append(slot.module_title.as_str());
    s.append(" \u{203a} ");
    s.append(slot.unit_title.as_str());
    s
}

// ---------------------------------------------------------------------------
// Laws
// ---------------------------------------------------------------------------

/// The number of a unit in a book, counted from one, by the places of its part, its module and
/// itself, counted from zero.
pub open spec fn unit_number(book: BookView, p: int, m: int, u: int) -> nat {
    (tree::units_in(book.parts, p as nat) + tree::units_in_modules(
        book.parts[p].modules,
        m as nat,
    ) + u + 1) as nat
}

/// A unit stands at those places.
pub open spec fn has_unit(book: BookView, p: int, m: int, u: int) -> bool {
    &&& 0 <= p < book.parts.len()
    &&& 0 <= m < book.parts[p].modules.len()
    &&& 0 <= u < book.parts[p].modules[m].units.len()
}

proof fn lemma_unit_number(book: BookView, p: int, m: int, u: int)
    requires
        has_unit(book, p, m, u),
    ensures
        1 <= unit_number(book, p, m, u) <= book.unit_count(),
{
    let modules = book.parts[p].modules;
    tree::lemma_units_in_modules_mono(modules, (m + 1) as nat, modules.len());
    tree::lemma_units_in_mono(book.parts, (p + 1) as nat, book.parts.len());
}

proof fn lemma_modules_tasks(
    idx: Map<Seq<char>, ModuleFilesView>,
    modules: Seq<ModuleView>,
    before: nat,
    n: nat,
)
    requires
        n <= modules.len(),
    ensures
        modules_tasks(idx, modules, before, n).len() == tree::units_in_modules(modules, n),
        forall|i: int|
            0 <= i < modules_tasks(idx, modules, before, n).len() ==> (#[trigger] modules_tasks(
                idx,
                modules,
                before,
                n,
            )[i]).gidx == before + i + 1,
    decreases n,
{
    if n > 0 {
        lemma_modules_tasks(idx, modules, before, (n - 1) as nat);
        let a = modules_tasks(idx, modules, before, (n - 1) as nat);
        let b = module_tasks(
            idx,
            modules[n - 1],
            before + tree::units_in_modules(modules, (n - 1) as nat),
        );
        assert forall|i: int|
            0 <= i < modules_tasks(idx, modules, before, n).len() implies (#[trigger] modules_tasks(
            idx,
            modules,
            before,
            n,
        )[i]).gidx == before + i + 1 by {
            if i < a.len() {
                assert(modules_tasks(idx, modules, before, n)[i] == a[i]);
            } else {
                assert(modules_tasks(idx, modules, before, n)[i] == b[i - a.len()]);
            }
        }
    }
}

proof fn lemma_parts_tasks(idx: Map<Seq<char>, ModuleFilesView>, parts: Seq<PartView>, n: nat)
    requires
        n <= parts.len(),
    ensures
        parts_tasks(idx, parts, n).len() == tree::units_in(parts, n),
        forall|i: int|
            0 <= i < parts_tasks(idx, parts, n).len() ==> (#[trigger] parts_tasks(
                idx,
                parts,
                n,
            )[i]).gidx == i + 1,
    decreases n,
{
    if n > 0 {
        let p = parts[n - 1];
        let before = tree::units_in(parts, (n - 1) as nat);
        lemma_parts_tasks(idx, parts, (n - 1) as nat);
        lemma_modules_tasks(idx, p.modules, before, p.modules.len());
        let a = parts_tasks(idx, parts, (n - 1) as nat);
        let b = modules_tasks(idx, p.modules, before, p.modules.len());
        assert forall|i: int|
            0 <= i < parts_tasks(idx, parts, n).len() implies (#[trigger] parts_tasks(
            idx,
            parts,
            n,
        )[i]).gidx == i + 1 by {
            if i < a.len() {
                assert(parts_tasks(idx, parts, n)[i] == a[i]);
            } else {
                assert(parts_tasks(idx, parts, n)[i] == b[i - a.len()]);
            }
        }
    }
}

/// A plan has one task for each unit of the book, numbered in reading order.
pub proof fn law_a_task_for_each_unit(idx: Map<Seq<char>, ModuleFilesView>, book: BookView)
    ensures
        planned(idx, book).len() == book.unit_count(),
        forall|i: int|
            0 <= i < planned(idx, book).len() ==> (#[trigger] planned(idx, book)[i]).gidx == i + 1,
{
    lemma_parts_tasks(idx, book.parts, book.parts.len());
}

proof fn lemma_modules_tasks_at(
    idx: Map<Seq<char>, ModuleFilesView>,
    modules: Seq<ModuleView>,
    before: nat,
    n: nat,
    m: int,
    u: int,
)
    requires
        0 <= m < n <= modules.len(),
        0 <= u < modules[m].units.len(),
    ensures
        tree::units_in_modules(modules, m as nat) + u < modules_tasks(idx, modules, before, n).len(),
        modules_tasks(idx, modules, before, n)[tree::units_in_modules(modules, m as nat) + u]
            == unit_task(
            idx,
            modules[m],
            before + tree::units_in_modules(modules, m as nat),
            (u + 1) as nat,
        ),
    decreases n,
{
    lemma_modules_tasks(idx, modules, before, n);
    lemma_modules_tasks(idx, modules, before, (n - 1) as nat);
    tree::lemma_units_in_modules_mono(modules, (m + 1) as nat, n);
    if m < n - 1 {
        lemma_modules_tasks_at(idx, modules, before, (n - 1) as nat, m, u);
    }
}

proof fn lemma_parts_tasks_at(
    idx: Map<Seq<char>, ModuleFilesView>,
    book: BookView,
    n: nat,
    p: int,
    m: int,
    u: int,
)
    requires
        has_unit(book, p, m, u),
        p < n <= book.parts.len(),
    ensures
        unit_number(book, p, m, u) <= parts_tasks(idx, book.parts, n).len(),
        parts_tasks(idx, book.parts, n)[unit_number(book, p, m, u) - 1] == unit_task(
            idx,
            book.parts[p].modules[m],
            (unit_number(book, p, m, u) - u - 1) as nat,
            (u + 1) as nat,
        ),
    decreases n,
{
    let parts = book.parts;
    let g = unit_number(book, p, m, u);
    lemma_parts_tasks(idx, parts, n);
    lemma_parts_tasks(idx, parts, (n - 1) as nat);
    tree::lemma_units_in_modules_mono(parts[p].modules, (m + 1) as nat, parts[p].modules.len());
    tree::lemma_units_in_mono(parts, (p + 1) as nat, n);
    if p < n - 1 {
        lemma_parts_tasks_at(idx, book, (n - 1) as nat, p, m, u);
    } else {
        let before = tree::units_in(parts, p as nat);
        lemma_modules_tasks_at(
            idx,
            parts[p].modules,
            before,
            parts[p].modules.len(),
            m,
            u,
        );
        let a = parts_tasks(idx, parts, (n - 1) as nat);
        let b = modules_tasks(idx, parts[p].modules, before, parts[p].modules.len());
        assert(parts_tasks(idx, parts, n)[g - 1] == b[g - 1 - a.len()]);
    }
}

/// Content without a public mirror comes from Learn: a content unit of a module that the index
/// does not have is asked of Learn's rendered markdown, at the unit's page.
pub proof fn law_unmirrored_units_come_from_learn(
    idx: Map<Seq<char>, ModuleFilesView>,
    book: BookView,
    p: int,
    m: int,
    u: int,
)
    requires
        has_unit(book, p, m, u),
        !book.parts[p].modules[m].units[u].is_knowledge_check,
        content::module_slug(module_page(book.parts[p].modules[m])) is Some,
        module_base(idx, book.parts[p].modules[m]) is None,
    ensures
        task_source(idx, planned(idx, book)[unit_number(book, p, m, u) - 1]) == rendered_source(
            module_page(book.parts[p].modules[m]),
            book.parts[p].modules[m].units[u].uid,
            (u + 1) as nat,
        ),
{
    lemma_parts_tasks_at(idx, book, book.parts.len(), p, m, u);
}

/// A module stands at those places.
pub open spec fn has_module(book: BookView, p: int, m: int) -> bool {
    0 <= p < book.parts.len() && 0 <= m < book.parts[p].modules.len()
}

/// The place of a module in reading order, counted from zero.
pub open spec fn module_place(book: BookView, p: int, m: int) -> int {
    tree::modules_in(book.parts, p as nat) + m
}

/// The module at those places has content.
pub open spec fn has_content(
    idx: Map<Seq<char>, ModuleFilesView>,
    book: BookView,
    rendered: Seq<bool>,
    p: int,
    m: int,
) -> bool {
    module_has_content(
        idx,
        book.parts[p].modules[m],
        rendered,
        tree::units_in(book.parts, p as nat) + tree::units_in_modules(
            book.parts[p].modules,
            m as nat,
        ),
    )
}

proof fn lemma_modules_found(
    idx: Map<Seq<char>, ModuleFilesView>,
    modules: Seq<ModuleView>,
    rendered: Seq<bool>,
    before: nat,
    n: nat,
)
    ensures
        modules_found(idx, modules, rendered, before, n).len() == n,
        forall|i: int|
            0 <= i < n ==> #[trigger] modules_found(idx, modules, rendered, before, n)[i]
                == module_has_content(
                idx,
                modules[i],
                rendered,
                before + tree::units_in_modules(modules, i as nat),
            ),
    decreases n,
{
    if n > 0 {
        lemma_modules_found(idx, modules, rendered, before, (n - 1) as nat);
        let a = modules_found(idx, modules, rendered, before, (n - 1) as nat);
        let all = modules_found(idx, modules, rendered, before, n);
        assert forall|i: int| 0 <= i < n implies #[trigger] all[i] == module_has_content(
            idx,
            modules[i],
            rendered,
            before + tree::units_in_modules(modules, i as nat),
        ) by {
            if i < n - 1 {
                assert(all[i] == a[i]);
            }
        }
    }
}

proof fn lemma_parts_found(
    idx: Map<Seq<char>, ModuleFilesView>,
    parts: Seq<PartView>,
    rendered: Seq<bool>,
    n: nat,
)
    ensures
        parts_found(idx, parts, rendered, n).len() == tree::modules_in(parts, n),
    decreases n,
{
    if n > 0 {
        lemma_parts_found(idx, parts, rendered, (n - 1) as nat);
        lemma_modules_found(
            idx,
            parts[n - 1].modules,
            rendered,
            tree::units_in(parts, (n - 1) as nat),
            parts[n - 1].modules.len(),
        );
    }
}

proof fn lemma_found_at(
    idx: Map<Seq<char>, ModuleFilesView>,
    book: BookView,
    rendered: Seq<bool>,
    n: nat,
    p: int,
    m: int,
)
    requires
        has_module(book, p, m),
        p < n <= book.parts.len(),
    ensures
        0 <= module_place(book, p, m) < parts_found(idx, book.parts, rendered, n).len(),
        parts_found(idx, book.parts, rendered, n)[module_place(book, p, m)] == has_content(
            idx,
            book,
            rendered,
            p,
            m,
        ),
    decreases n,
{
    let parts = book.parts;
    lemma_parts_found(idx, parts, rendered, n);
    lemma_parts_found(idx, parts, rendered, (n - 1) as nat);
    tree::lemma_modules_in_mono(parts, (p + 1) as nat, n);
    let a = parts_found(idx, parts, rendered, (n - 1) as nat);
    let all = parts_found(idx, parts, rendered, n);
    if p < n - 1 {
        lemma_found_at(idx, book, rendered, (n - 1) as nat, p, m);
        assert(all[module_place(book, p, m)] == a[module_place(book, p, m)]);
    } else {
        let before = tree::units_in(parts, p as nat);
        lemma_modules_found(idx, parts[p].modules, rendered, before, parts[p].modules.len());
        let b = modules_found(idx, parts[p].modules, rendered, before, parts[p].modules.len());
        assert(all[module_place(book, p, m)] == b[m]);
    }
}

/// Every place in reading order is that of a module.
proof fn lemma_module_at(book: BookView, n: nat, i: int) -> (r: (int, int))
    requires
        n <= book.parts.len(),
        0 <= i < tree::modules_in(book.parts, n),
    ensures
        has_module(book, r.0, r.1),
        module_place(book, r.0, r.1) == i,
    decreases n,
{
    let before = tree::modules_in(book.parts, (n - 1) as nat);
    if i < before {
        lemma_module_at(book, (n - 1) as nat, i)
    } else {
        (n - 1, i - before)
    }
}

proof fn lemma_module_missing(
    modules: Seq<ModuleView>,
    found: Seq<bool>,
    before: nat,
    n: nat,
    m: int,
)
    requires
        0 <= m < n <= modules.len(),
        !found[before + m],
    ensures
        modules_missing(modules, found, before, n).contains(modules[m].title),
    decreases n,
{
    let now = modules_missing(modules, found, before, n);
    if m < n - 1 {
        lemma_module_missing(modules, found, before, (n - 1) as nat, m);
        let then = modules_missing(modules, found, before, (n - 1) as nat);
        let k = choose|k: int| 0 <= k < then.len() && then[k] == modules[m].title;
        assert(now[k] == modules[m].title);
    } else {
        assert(now[now.len() - 1] == modules[m].title);
    }
}

proof fn lemma_part_missing(book: BookView, found: Seq<bool>, n: nat, p: int, m: int)
    requires
        has_module(book, p, m),
        p < n <= book.parts.len(),
        !found[module_place(book, p, m)],
    ensures
        parts_missing(book.parts, found, n).contains(book.parts[p].modules[m].title),
    decreases n,
{
    let title = book.parts[p].modules[m].title;
    let last = book.parts[n - 1];
    let a = parts_missing(book.parts, found, (n - 1) as nat);
    let b = modules_missing(
        last.modules,
        found,
        tree::modules_in(book.parts, (n - 1) as nat),
        last.modules.len(),
    );
    let now = parts_missing(book.parts, found, n);
    if p < n - 1 {
        lemma_part_missing(book, found, (n - 1) as nat, p, m);
        let k = choose|k: int| 0 <= k < a.len() && a[k] == title;
        assert(now[k] == title);
    } else {
        lemma_module_missing(
            last.modules,
            found,
            tree::modules_in(book.parts, (n - 1) as nat),
            last.modules.len(),
            m,
        );
        let k = choose|k: int| 0 <= k < b.len() && b[k] == title;
        assert(now[a.len() + k] == title);
    }
}

/// A book is refused if and only if it has modules and none of them has content: the public
/// repository has none of them, and Learn served the page of no unit. Of a book that is not
/// refused, the modules without content are listed.
pub proof fn law_what_is_missing_is_said(
    idx: Map<Seq<char>, ModuleFilesView>,
    book: BookView,
    rendered: Seq<bool>,
)
    ensures
        found_of(idx, book, rendered).len() == book.module_count(),
        is_hollow(book, found_of(idx, book, rendered)) <==> book.module_count() > 0 && (forall|
            p: int,
            m: int,
        |
            has_module(book, p, m) ==> !#[trigger] has_content(idx, book, rendered, p, m)),
        forall|p: int, m: int|
            has_module(book, p, m) && !#[trigger] has_content(idx, book, rendered, p, m)
                ==> missing_of(book, found_of(idx, book, rendered)).contains(
                book.parts[p].modules[m].title,
            ),
{
    let n = book.parts.len();
    let found = found_of(idx, book, rendered);
    lemma_parts_found(idx, book.parts, rendered, n);
    assert forall|p: int, m: int|
        has_module(book, p, m) && !#[trigger] has_content(idx, book, rendered, p, m) implies missing_of(
        book,
        found,
    ).contains(book.parts[p].modules[m].title) by {
        lemma_found_at(idx, book, rendered, n, p, m);
        lemma_part_missing(book, found, n, p, m);
    }
    if any_in(found, 0, found.len() as int) {
        let i = choose|i: int| 0 <= i < found.len() && #[trigger] found[i];
        let (p, m) = lemma_module_at(book, n, i);
        lemma_found_at(idx, book, rendered, n, p, m);
        assert(has_content(idx, book, rendered, p, m));
    } else {
        assert forall|p: int, m: int| has_module(book, p, m) implies !#[trigger] has_content(
            idx,
            book,
            rendered,
            p,
            m,
        ) by {
            lemma_found_at(idx, book, rendered, n, p, m);
            assert(!found[module_place(book, p, m)]);
        }
    }
}

/// One page from Learn saves a book: where the page of a unit was had from Learn's rendered
/// markdown, the book is not refused, and its module has content.
pub proof fn law_a_rendered_page_saves_the_book(
    idx: Map<Seq<char>, ModuleFilesView>,
    book: BookView,
    rendered: Seq<bool>,
    p: int,
    m: int,
    u: int,
)
    requires
        has_unit(book, p, m, u),
        rendered.len() == book.unit_count(),
        rendered[unit_number(book, p, m, u) - 1],
    ensures
        found_of(idx, book, rendered)[module_place(book, p, m)],
        !is_hollow(book, found_of(idx, book, rendered)),
{
    let found = found_of(idx, book, rendered);
    lemma_found_at(idx, book, rendered, book.parts.len(), p, m);
    assert(rendered[unit_number(book, p, m, u) - 1]);
    assert(has_content(idx, book, rendered, p, m));
    assert(found[module_place(book, p, m)]);
}

proof fn lemma_module_chapters_at(
    modules: Seq<ModuleView>,
    contents: Seq<UnitContentView>,
    before: nat,
    n: nat,
    m: int,
    u: int,
)
    requires
        0 <= m < n <= modules.len(),
        0 <= u < modules[m].units.len(),
    ensures
        module_chapters(modules, contents, before, n).len() == tree::units_in_modules(modules, n),
        tree::units_in_modules(modules, m as nat) + u < tree::units_in_modules(modules, n),
        module_chapters(modules, contents, before, n)[tree::units_in_modules(modules, m as nat)
            + u] == unit_chapters(
            modules[m],
            contents,
            before + tree::units_in_modules(modules, m as nat),
        )[u],
    decreases n,
{
    lemma_module_chapters_len(modules, contents, before, n);
    tree::lemma_units_in_modules_mono(modules, (m + 1) as nat, n);
    if m < n - 1 {
        lemma_module_chapters_at(modules, contents, before, (n - 1) as nat, m, u);
    } else {
        lemma_module_chapters_len(modules, contents, before, (n - 1) as nat);
    }
}

proof fn lemma_module_chapters_len(
    modules: Seq<ModuleView>,
    contents: Seq<UnitContentView>,
    before: nat,
    n: nat,
)
    ensures
        module_chapters(modules, contents, before, n).len() == tree::units_in_modules(modules, n),
    decreases n,
{
    if n > 0 {
        lemma_module_chapters_len(modules, contents, before, (n - 1) as nat);
    }
}

proof fn lemma_part_chapters_len(parts: Seq<PartView>, contents: Seq<UnitContentView>, n: nat)
    ensures
        part_chapters(parts, contents, n).len() == n + tree::units_in(parts, n),
    decreases n,
{
    if n > 0 {
        let p = parts[n - 1];
        lemma_part_chapters_len(parts, contents, (n - 1) as nat);
        lemma_module_chapters_len(
            p.modules,
            contents,
            tree::units_in(parts, (n - 1) as nat),
            p.modules.len(),
        );
    }
}

proof fn lemma_part_chapters_at(
    parts: Seq<PartView>,
    contents: Seq<UnitContentView>,
    n: nat,
    p: int,
)
    requires
        0 <= p < n <= parts.len(),
    ensures
        part_chapters(parts, contents, n)[p + tree::units_in(parts, p as nat)] == part_chapter(
            parts[p],
            (p + 1) as nat,
        ),
        p + tree::units_in(parts, p as nat) < n + tree::units_in(parts, n),
        forall|m: int, u: int|
            0 <= m < parts[p].modules.len() && 0 <= u < parts[p].modules[m].units.len()
                ==> #[trigger] part_chapters(parts, contents, n)[p + 1 + tree::units_in(
                parts,
                p as nat,
            ) + tree::units_in_modules(parts[p].modules, m as nat) + u] == unit_chapters(
                parts[p].modules[m],
                contents,
                tree::units_in(parts, p as nat) + tree::units_in_modules(
                    parts[p].modules,
                    m as nat,
                ),
            )[u],
    decreases n,
{
    let last = parts[n - 1];
    let before = tree::units_in(parts, (n - 1) as nat);
    let a = part_chapters(parts, contents, (n - 1) as nat);
    let b = module_chapters(last.modules, contents, before, last.modules.len());
    let all = part_chapters(parts, contents, n);
    lemma_part_chapters_len(parts, contents, (n - 1) as nat);
    lemma_part_chapters_len(parts, contents, n);
    tree::lemma_units_in_mono(parts, p as nat, (n - 1) as nat);
    assert(all == a.push(part_chapter(last, n)) + b);
    if p < n - 1 {
        lemma_part_chapters_at(parts, contents, (n - 1) as nat, p);
        tree::lemma_units_in_mono(parts, (p + 1) as nat, (n - 1) as nat);
        assert forall|m: int, u: int|
            0 <= m < parts[p].modules.len() && 0 <= u
                < parts[p].modules[m].units.len() implies #[trigger] all[p + 1 + tree::units_in(
            parts,
            p as nat,
        ) + tree::units_in_modules(parts[p].modules, m as nat) + u] == unit_chapters(
            parts[p].modules[m],
            contents,
            tree::units_in(parts, p as nat) + tree::units_in_modules(
                parts[p].modules,
                m as nat,
            ),
        )[u] by {
            let k = p + 1 + tree::units_in(parts, p as nat) + tree::units_in_modules(
                parts[p].modules,
                m as nat,
            ) + u;
            lemma_module_chapters_at(
                parts[p].modules,
                contents,
                tree::units_in(parts, p as nat),
                parts[p].modules.len(),
                m,
                u,
            );
            assert(k < a.len());
            assert(all[k] == a[k]);
        }
    } else {
        assert forall|m: int, u: int|
            0 <= m < last.modules.len() && 0 <= u
                < last.modules[m].units.len() implies #[trigger] all[p + 1 + tree::units_in(
            parts,
            p as nat,
        ) + tree::units_in_modules(parts[p].modules, m as nat) + u] == unit_chapters(
            parts[p].modules[m],
            contents,
            tree::units_in(parts, p as nat) + tree::units_in_modules(
                parts[p].modules,
                m as nat,
            ),
        )[u] by {
            let k = tree::units_in_modules(last.modules, m as nat) + u;
            lemma_module_chapters_at(
                last.modules,
                contents,
                before,
                last.modules.len(),
                m,
                u,
            );
            assert(all[a.len() + 1 + k] == b[k]);
        }
    }
}

/// Every unit has a chapter of its own, in reading order: behind the cover and the openings of the
/// parts up to its own it is the chapter of its number. It has the unit's title and page, and the
/// first unit of a module shows the module's name.
pub proof fn law_every_unit_has_its_chapter(
    book: BookView,
    contents: Seq<UnitContentView>,
    date_stamp: Seq<char>,
    p: int,
    m: int,
    u: int,
)
    requires
        has_unit(book, p, m, u),
    ensures
        ({
            let g = unit_number(book, p, m, u);
            let chapters = book_chapters(book, contents, date_stamp);
            let module = book.parts[p].modules[m];
            &&& p + 1 + g < chapters.len()
            &&& chapters[p + 1 + g] == ChapterView {
                id: unit_id(g),
                filename: page_file(unit_id(g)),
                title: module.units[u].title,
                body: contents[g - 1].body,
                module_header: if u == 0 {
                    Some(module.title)
                } else {
                    None
                },
            }
        }),
{
    let n = book.parts.len();
    let parts = part_chapters(book.parts, contents, n);
    lemma_unit_number(book, p, m, u);
    lemma_part_chapters_len(book.parts, contents, n);
    lemma_part_chapters_at(book.parts, contents, n, p);
    let k = p + 1 + tree::units_in(book.parts, p as nat) + tree::units_in_modules(
        book.parts[p].modules,
        m as nat,
    ) + u;
    assert(parts[k] == unit_chapters(
        book.parts[p].modules[m],
        contents,
        tree::units_in(book.parts, p as nat) + tree::units_in_modules(
            book.parts[p].modules,
            m as nat,
        ),
    )[u]);
    assert(book_chapters(book, contents, date_stamp)[1 + k] == parts[k]);
}

/// Every part has its opening among the chapters.
pub proof fn law_every_part_has_its_opening(
    book: BookView,
    contents: Seq<UnitContentView>,
    date_stamp: Seq<char>,
    p: int,
)
    requires
        0 <= p < book.parts.len(),
    ensures
        book_chapters(book, contents, date_stamp)[p + 1 + tree::units_in(book.parts, p as nat)]
            == part_chapter(book.parts[p], (p + 1) as nat),
{
    let n = book.parts.len();
    let parts = part_chapters(book.parts, contents, n);
    lemma_part_chapters_len(book.parts, contents, n);
    lemma_part_chapters_at(book.parts, contents, n, p);
    let k = p + tree::units_in(book.parts, p as nat);
    assert(book_chapters(book, contents, date_stamp)[1 + k] == parts[k]);
}

proof fn lemma_module_navs_at(
    modules: Seq<ModuleView>,
    part_file: Seq<char>,
    before: nat,
    n: nat,
    m: int,
)
    requires
        0 <= m < n <= modules.len(),
    ensures
        module_navs(modules, part_file, before, n).len() == n,
        module_navs(modules, part_file, before, n)[m] == module_nav(
            modules[m],
            part_file,
            before + tree::units_in_modules(modules, m as nat),
        ),
    decreases n,
{
    lemma_nav_size_modules(modules, part_file, before, n);
    lemma_nav_size_modules(modules, part_file, before, (n - 1) as nat);
    if m < n - 1 {
        lemma_module_navs_at(modules, part_file, before, (n - 1) as nat, m);
    }
}

proof fn lemma_part_navs_at(parts: Seq<PartView>, n: nat, p: int)
    requires
        0 <= p < n <= parts.len(),
    ensures
        part_navs(parts, n).len() == n,
        part_navs(parts, n)[p] == part_nav(
            parts[p],
            (p + 1) as nat,
            tree::units_in(parts, p as nat),
        ),
    decreases n,
{
    lemma_nav_size_parts(parts, n);
    lemma_nav_size_parts(parts, (n - 1) as nat);
    if p < n - 1 {
        lemma_part_navs_at(parts, (n - 1) as nat, p);
    }
}

/// The table of contents mirrors the tree, and its entries lead to chapters: the entry of a part
/// to the part's opening, the entry of a unit to the unit's chapter, and the entry of a module to
/// the chapter of its first unit.
pub proof fn law_contents_lead_to_chapters(
    book: BookView,
    contents: Seq<UnitContentView>,
    date_stamp: Seq<char>,
    p: int,
    m: int,
    u: int,
)
    requires
        has_unit(book, p, m, u),
    ensures
        ({
            let chapters = book_chapters(book, contents, date_stamp);
            let part = book_nav(book)[p + 1];
            let module = part.children[m];
            let unit = module.children[u];
            &&& book_nav(book).len() == book.parts.len() + 2
            &&& part.children.len() == book.parts[p].modules.len()
            &&& module.children.len() == book.parts[p].modules[m].units.len()
            &&& unit.children.len() == 0
            &&& part.href == chapters[p + 1 + tree::units_in(book.parts, p as nat)].filename
            &&& module.href == chapters[p + 1 + unit_number(book, p, m, 0)].filename
            &&& module.title == book.parts[p].modules[m].title
            &&& unit.href == chapters[p + 1 + unit_number(book, p, m, u)].filename
            &&& unit.title == book.parts[p].modules[m].units[u].title
        }),
{
    let part = book.parts[p];
    law_every_unit_has_its_chapter(book, contents, date_stamp, p, m, u);
    law_every_unit_has_its_chapter(book, contents, date_stamp, p, m, 0);
    law_every_part_has_its_opening(book, contents, date_stamp, p);
    lemma_part_navs_at(book.parts, book.parts.len(), p);
    lemma_module_navs_at(
        part.modules,
        page_file(part_id((p + 1) as nat)),
        tree::units_in(book.parts, p as nat),
        part.modules.len(),
        m,
    );
    assert(book_nav(book)[p + 1] == part_navs(book.parts, book.parts.len())[p]);
}

proof fn lemma_modules_slots_at(modules: Seq<ModuleView>, before: nat, n: nat, m: int, u: int)
    requires
        0 <= m < n <= modules.len(),
        0 <= u < modules[m].units.len(),
    ensures
        tree::units_in_modules(modules, m as nat) + u < modules_slots(modules, before, n).len(),
        modules_slots(modules, before, n)[tree::units_in_modules(modules, m as nat) + u]
            == module_slots(modules[m], before + tree::units_in_modules(modules, m as nat))[u],
    decreases n,
{
    lemma_modules_slots_len(modules, before, n);
    lemma_modules_slots_len(modules, before, (n - 1) as nat);
    tree::lemma_units_in_modules_mono(modules, (m + 1) as nat, n);
    if m < n - 1 {
        lemma_modules_slots_at(modules, before, (n - 1) as nat, m, u);
    }
}

proof fn lemma_modules_slots_len(modules: Seq<ModuleView>, before: nat, n: nat)
    ensures
        modules_slots(modules, before, n).len() == tree::units_in_modules(modules, n),
    decreases n,
{
    if n > 0 {
        lemma_modules_slots_len(modules, before, (n - 1) as nat);
    }
}

proof fn lemma_parts_slots_len(parts: Seq<PartView>, n: nat)
    ensures
        parts_slots(parts, n).len() == tree::units_in(parts, n),
    decreases n,
{
    if n > 0 {
        lemma_parts_slots_len(parts, (n - 1) as nat);
        lemma_modules_slots_len(
            parts[n - 1].modules,
            tree::units_in(parts, (n - 1) as nat),
            parts[n - 1].modules.len(),
        );
    }
}

proof fn lemma_parts_slots_at(book: BookView, n: nat, p: int, m: int, u: int)
    requires
        has_unit(book, p, m, u),
        p < n <= book.parts.len(),
    ensures
        unit_number(book, p, m, u) <= parts_slots(book.parts, n).len(),
        parts_slots(book.parts, n)[unit_number(book, p, m, u) - 1] == (SourceSlotView {
            gidx: unit_number(book, p, m, u),
            module_title: book.parts[p].modules[m].title,
            unit_title: book.parts[p].modules[m].units[u].title,
        }),
    decreases n,
{
    let parts = book.parts;
    let g = unit_number(book, p, m, u);
    lemma_parts_slots_len(parts, n);
    lemma_parts_slots_len(parts, (n - 1) as nat);
    tree::lemma_units_in_modules_mono(
        parts[p].modules,
        (m + 1) as nat,
        parts[p].modules.len(),
    );
    tree::lemma_units_in_mono(parts, (p + 1) as nat, n);
    if p < n - 1 {
        lemma_parts_slots_at(book, (n - 1) as nat, p, m, u);
    } else {
        lemma_modules_slots_at(
            parts[p].modules,
            tree::units_in(parts, p as nat),
            parts[p].modules.len(),
            m,
            u,
        );
        let a = parts_slots(parts, (n - 1) as nat);
        let b = modules_slots(
            parts[p].modules,
            tree::units_in(parts, p as nat),
            parts[p].modules.len(),
        );
        assert(parts_slots(parts, n)[g - 1] == b[g - 1 - a.len()]);
    }
}

proof fn lemma_slot_is_listed(
    slots: Seq<SourceSlotView>,
    contents: Seq<UnitContentView>,
    n: nat,
    i: int,
)
    requires
        0 <= i < n <= slots.len(),
    ensures
        text::contains_text(
            pages::slot_items(slots, contents, n),
            pages::source_item(
                slots[i].unit_title,
                pages::urls_of(contents, slots[i].gidx).0,
                pages::urls_of(contents, slots[i].gidx).1,
            ),
        ),
    decreases n,
{
    let before = pages::slot_items(slots, contents, (n - 1) as nat);
    let heading = pages::slot_heading(slots, n - 1);
    let item = pages::source_item(
        slots[n - 1].unit_title,
        pages::urls_of(contents, slots[n - 1].gidx).0,
        pages::urls_of(contents, slots[n - 1].gidx).1,
    );
    let wanted = pages::source_item(
        slots[i].unit_title,
        pages::urls_of(contents, slots[i].gidx).0,
        pages::urls_of(contents, slots[i].gidx).1,
    );
    assert(pages::slot_items(slots, contents, n) == before + heading + item);
    text::lemma_contains_cat(before, heading, wanted);
    text::lemma_contains_cat(before + heading, item, wanted);
    if i < n - 1 {
        lemma_slot_is_listed(slots, contents, (n - 1) as nat, i);
    }
}

/// The sources appendix cites every original page: the last chapter lists each unit with its
/// title, its Learn page and, where it has one, its source.
pub proof fn law_every_unit_is_cited(
    book: BookView,
    contents: Seq<UnitContentView>,
    date_stamp: Seq<char>,
    p: int,
    m: int,
    u: int,
)
    requires
        has_unit(book, p, m, u),
        contents.len() == book.unit_count(),
    ensures
        ({
            let c = contents[unit_number(book, p, m, u) - 1];
            text::contains_text(
                book_chapters(book, contents, date_stamp).last().body,
                pages::source_item(
                    book.parts[p].modules[m].units[u].title,
                    c.learn_url,
                    c.raw_url,
                ),
            )
        }),
{
    let g = unit_number(book, p, m, u);
    let slots = book_slots(book);
    lemma_unit_number(book, p, m, u);
    lemma_parts_slots_at(book, book.parts.len(), p, m, u);
    lemma_slot_is_listed(slots, contents, slots.len(), g - 1);
    let item = pages::source_item(
        book.parts[p].modules[m].units[u].title,
        contents[g - 1].learn_url,
        contents[g - 1].raw_url,
    );
    let items = pages::slot_items(slots, contents, slots.len());
    assert(text::contains_text(items, item));
    lemma_sources_keep(book.title, slots, contents, date_stamp, item);
    let flat = pages::flat_sources_text(book.title, slots, contents, date_stamp);
    text::lemma_contains_cat(flat, pages::made_with_text(), item);
}

proof fn lemma_source_is_listed(
    titles: Seq<Seq<char>>,
    contents: Seq<UnitContentView>,
    n: nat,
    i: int,
)
    requires
        0 <= i < n <= titles.len(),
    ensures
        text::contains_text(
            pages::source_items(titles, contents, n),
            pages::source_item(titles[i], contents[i].learn_url, contents[i].raw_url),
        ),
    decreases n,
{
    let before = pages::source_items(titles, contents, (n - 1) as nat);
    let last = pages::source_item(
        titles[n - 1],
        contents[n - 1].learn_url,
        contents[n - 1].raw_url,
    );
    let wanted = pages::source_item(titles[i], contents[i].learn_url, contents[i].raw_url);
    text::lemma_contains_cat(before, last, wanted);
    if i < n - 1 {
        lemma_source_is_listed(titles, contents, (n - 1) as nat, i);
    }
}

/// The sources appendix of a single module's book cites every unit's page.
pub proof fn law_every_unit_of_a_module_is_cited(
    module: ModuleView,
    contents: Seq<UnitContentView>,
    date_stamp: Seq<char>,
    u: int,
)
    requires
        0 <= u < module.units.len(),
        contents.len() == module.units.len(),
    ensures
        text::contains_text(
            module_book_chapters(module, contents, date_stamp).last().body,
            pages::source_item(
                module.units[u].title,
                contents[u].learn_url,
                contents[u].raw_url,
            ),
        ),
{
    let titles = unit_titles(module);
    let page = module_page(module);
    let items = pages::source_items(titles, contents, titles.len());
    let item = pages::source_item(
        module.units[u].title,
        contents[u].learn_url,
        contents[u].raw_url,
    );
    lemma_source_is_listed(titles, contents, titles.len(), u);
    let head = "<p>Assembled from <a href=\""@ + epub::escaped(page) + "\">"@ + epub::escaped(
        module.title,
    ) + "</a> on "@ + epub::escaped(date_stamp)
        + ". Each unit's original Learn page and content source:</p>\n<ol>\n"@;
    text::lemma_contains_cat(head, items, item);
    text::lemma_contains_cat(head + items, "</ol>\n"@, item);
}

proof fn lemma_sources_keep(
    book_title: Seq<char>,
    slots: Seq<SourceSlotView>,
    contents: Seq<UnitContentView>,
    date_stamp: Seq<char>,
    item: Seq<char>,
)
    requires
        text::contains_text(pages::slot_items(slots, contents, slots.len()), item),
    ensures
        text::contains_text(
            pages::flat_sources_text(book_title, slots, contents, date_stamp),
            item,
        ),
{
    let head =
        "<p>Assembled from <a href=\"https://learn.microsoft.com/credentials/certifications/\">"@
        + epub::escaped(book_title) + "</a> on "@ + epub::escaped(date_stamp)
        + ". Original Learn pages and content sources, by module:</p>\n"@;
    let items = pages::slot_items(slots, contents, slots.len());
    let end = if slots.len() > 0 {
        "</ol>\n"@
    } else {
        Seq::empty()
    };
    text::lemma_contains_cat(head, items, item);
    text::lemma_contains_cat(head + items, end, item);
    assert(pages::flat_sources_text(book_title, slots, contents, date_stamp) == head + items
        + end);
}

/// The files of chapters.
pub open spec fn files_of(chapters: Seq<ChapterView>) -> Seq<Seq<char>> {
    Seq::new(chapters.len(), |i: int| chapters[i].filename)
}

proof fn lemma_numbered_files_differ(prefix: Seq<char>, a: nat, b: nat, width: nat)
    requires
        a != b,
    ensures
        page_file(prefix + text::zero_padded(text::decimal(a), width)) != page_file(
            prefix + text::zero_padded(text::decimal(b), width),
        ),
{
    let da = text::zero_padded(text::decimal(a), width);
    let db = text::zero_padded(text::decimal(b), width);
    text::lemma_padded(a, width);
    text::lemma_padded(b, width);
    let fa = page_file(prefix + da);
    let fb = page_file(prefix + db);
    if fa == fb {
        assert(fa.len() == prefix.len() + da.len() + ".xhtml"@.len());
        assert(fb.len() == prefix.len() + db.len() + ".xhtml"@.len());
        assert forall|i: int| 0 <= i < da.len() implies da[i] == db[i] by {
            assert(fa[prefix.len() + i] == da[i]);
            assert(fb[prefix.len() + i] == db[i]);
        }
        assert(da =~= db);
    }
}

/// A file is the opening of one of the first `n` parts, or the page of one of the first `units`
/// units.
pub open spec fn is_part_or_unit_file(f: Seq<char>, n: nat, units: nat) -> bool {
    ||| exists|k: nat| 1 <= k <= n && f == page_file(#[trigger] part_id(k))
    ||| exists|g: nat| 1 <= g <= units && f == page_file(#[trigger] unit_id(g))
}

proof fn lemma_kinds_differ(k: nat, g: nat)
    ensures
        page_file(part_id(k))[0] == 'p',
        page_file(unit_id(g))[0] == 'u',
        page_file(part_id(k)).len() > 0,
        page_file(unit_id(g)).len() > 0,
{
    reveal_strlit("part");
    reveal_strlit("u");
}

proof fn lemma_no_duplicates_cat(a: Seq<Seq<char>>, b: Seq<Seq<char>>)
    requires
        a.no_duplicates(),
        b.no_duplicates(),
        forall|i: int, j: int|
            0 <= i < a.len() && 0 <= j < b.len() ==> #[trigger] a[i] != #[trigger] b[j],
    ensures
        (a + b).no_duplicates(),
{
    let c = a + b;
    assert forall|i: int, j: int| 0 <= i < c.len() && 0 <= j < c.len() && i != j implies c[i]
        != c[j] by {
        if i < a.len() && j < a.len() {
            assert(c[i] == a[i] && c[j] == a[j]);
        } else if i < a.len() {
            assert(c[i] == a[i] && c[j] == b[j - a.len()]);
        } else if j < a.len() {
            assert(c[i] == b[i - a.len()] && c[j] == a[j]);
        } else {
            assert(c[i] == b[i - a.len()] && c[j] == b[j - a.len()]);
        }
    }
}

proof fn lemma_module_files(
    modules: Seq<ModuleView>,
    contents: Seq<UnitContentView>,
    before: nat,
    n: nat,
)
    requires
        n <= modules.len(),
    ensures
        files_of(module_chapters(modules, contents, before, n)).len() == tree::units_in_modules(
            modules,
            n,
        ),
        forall|i: int|
            0 <= i < files_of(module_chapters(modules, contents, before, n)).len()
                ==> #[trigger] files_of(module_chapters(modules, contents, before, n))[i]
                == page_file(unit_id((before + i + 1) as nat)),
    decreases n,
{
    lemma_module_chapters_len(modules, contents, before, n);
    if n > 0 {
        lemma_module_files(modules, contents, before, (n - 1) as nat);
        lemma_module_chapters_len(modules, contents, before, (n - 1) as nat);
        let a = module_chapters(modules, contents, before, (n - 1) as nat);
        let b = unit_chapters(
            modules[n - 1],
            contents,
            before + tree::units_in_modules(modules, (n - 1) as nat),
        );
        let all = module_chapters(modules, contents, before, n);
        assert forall|i: int| 0 <= i < files_of(all).len() implies #[trigger] files_of(all)[i]
            == page_file(unit_id((before + i + 1) as nat)) by {
            if i < a.len() {
                assert(all[i] == a[i]);
                assert(files_of(a)[i] == page_file(unit_id((before + i + 1) as nat)));
            } else {
                assert(all[i] == b[i - a.len()]);
            }
        }
    }
}

proof fn lemma_part_files(parts: Seq<PartView>, contents: Seq<UnitContentView>, n: nat)
    requires
        n <= parts.len(),
    ensures
        files_of(part_chapters(parts, contents, n)).no_duplicates(),
        forall|i: int|
            0 <= i < files_of(part_chapters(parts, contents, n)).len() ==> is_part_or_unit_file(
                #[trigger] files_of(part_chapters(parts, contents, n))[i],
                n,
                tree::units_in(parts, n),
            ),
    decreases n,
{
    if n > 0 {
        let p = parts[n - 1];
        let before = tree::units_in(parts, (n - 1) as nat);
        let units = tree::units_in(parts, n);
        let a = part_chapters(parts, contents, (n - 1) as nat);
        let b = module_chapters(p.modules, contents, before, p.modules.len());
        let all = part_chapters(parts, contents, n);
        let fa = files_of(a);
        let fo = seq![page_file(part_id(n))];
        let fb = files_of(b);
        lemma_part_files(parts, contents, (n - 1) as nat);
        lemma_module_files(p.modules, contents, before, p.modules.len());
        assert(files_of(all) =~= fa + fo + fb);
        assert forall|i: int, j: int| 0 <= i < fa.len() && 0 <= j < fo.len() implies #[trigger] fa[i]
            != #[trigger] fo[j] by {
            assert(is_part_or_unit_file(fa[i], (n - 1) as nat, before));
            if exists|k: nat| 1 <= k <= n - 1 && fa[i] == page_file(#[trigger] part_id(k)) {
                let k = choose|k: nat| 1 <= k <= n - 1 && fa[i] == page_file(#[trigger] part_id(k));
                lemma_numbered_files_differ("part"@, k, n, 2);
            } else {
                let g = choose|g: nat| 1 <= g <= before && fa[i] == page_file(#[trigger] unit_id(g));
                lemma_kinds_differ(n, g);
            }
        }
        lemma_no_duplicates_cat(fa, fo);
        assert forall|i: int, j: int| 0 <= i < fb.len() && 0 <= j < fb.len() && i != j implies fb[i]
            != fb[j] by {
            lemma_numbered_files_differ(
                "u"@,
                (before + i + 1) as nat,
                (before + j + 1) as nat,
                4,
            );
        }
        let front = fa + fo;
        assert forall|i: int, j: int|
            0 <= i < front.len() && 0 <= j < fb.len() implies #[trigger] front[i]
            != #[trigger] fb[j] by {
            let h = (before + j + 1) as nat;
            if i < fa.len() {
                assert(front[i] == fa[i]);
                assert(is_part_or_unit_file(fa[i], (n - 1) as nat, before));
                if exists|k: nat| 1 <= k <= n - 1 && fa[i] == page_file(#[trigger] part_id(k)) {
                    let k = choose|k: nat|
                        1 <= k <= n - 1 && fa[i] == page_file(#[trigger] part_id(k));
                    lemma_kinds_differ(k, h);
                } else {
                    let g = choose|g: nat|
                        1 <= g <= before && fa[i] == page_file(#[trigger] unit_id(g));
                    lemma_numbered_files_differ("u"@, g, h, 4);
                }
            } else {
                lemma_kinds_differ(n, h);
            }
        }
        lemma_no_duplicates_cat(front, fb);
        assert forall|i: int| 0 <= i < files_of(all).len() implies is_part_or_unit_file(
            #[trigger] files_of(all)[i],
            n,
            units,
        ) by {
            if i < fa.len() {
                assert(files_of(all)[i] == fa[i]);
                assert(is_part_or_unit_file(fa[i], (n - 1) as nat, before));
                if exists|k: nat| 1 <= k <= n - 1 && fa[i] == page_file(#[trigger] part_id(k)) {
                    let k = choose|k: nat|
                        1 <= k <= n - 1 && fa[i] == page_file(#[trigger] part_id(k));
                    assert(fa[i] == page_file(part_id(k)));
                } else {
                    let g = choose|g: nat|
                        1 <= g <= before && fa[i] == page_file(#[trigger] unit_id(g));
                    assert(fa[i] == page_file(unit_id(g)));
                }
            } else if i == fa.len() {
                assert(files_of(all)[i] == page_file(part_id(n)));
            } else {
                let j = i - fa.len() - 1;
                assert(files_of(all)[i] == fb[j]);
                assert(fb[j] == page_file(unit_id((before + j + 1) as nat)));
            }
        }
    } else {
        assert(files_of(part_chapters(parts, contents, n)) =~= Seq::<Seq<char>>::empty());
    }
}

/// Every chapter of a certification's book has a file of its own.
pub proof fn law_chapter_files_differ(
    book: BookView,
    contents: Seq<UnitContentView>,
    date_stamp: Seq<char>,
)
    ensures
        files_of(book_chapters(book, contents, date_stamp)).no_duplicates(),
{
    let n = book.parts.len();
    let mid = files_of(part_chapters(book.parts, contents, n));
    let cover = seq![page_file("cover"@)];
    let sources = seq![page_file("sources"@)];
    lemma_part_files(book.parts, contents, n);
    reveal_strlit("cover");
    reveal_strlit("sources");
    assert(page_file("cover"@)[0] == 'c');
    assert(page_file("sources"@)[0] == 's');
    assert forall|i: int| 0 <= i < mid.len() implies #[trigger] mid[i] != page_file("cover"@)
        && mid[i] != page_file("sources"@) by {
        assert(is_part_or_unit_file(mid[i], n, tree::units_in(book.parts, n)));
        if exists|k: nat| 1 <= k <= n && mid[i] == page_file(#[trigger] part_id(k)) {
            let k = choose|k: nat| 1 <= k <= n && mid[i] == page_file(#[trigger] part_id(k));
            lemma_kinds_differ(k, 1);
        } else {
            let g = choose|g: nat|
                1 <= g <= tree::units_in(book.parts, n) && mid[i] == page_file(
                    #[trigger] unit_id(g),
                );
            lemma_kinds_differ(1, g);
        }
    }
    lemma_no_duplicates_cat(cover, mid);
    let front = cover + mid;
    assert forall|i: int, j: int|
        0 <= i < front.len() && 0 <= j < sources.len() implies #[trigger] front[i]
        != #[trigger] sources[j] by {
        if i > 0 {
            assert(front[i] == mid[i - 1]);
        }
    }
    lemma_no_duplicates_cat(front, sources);
    assert(files_of(book_chapters(book, contents, date_stamp)) =~= front + sources);
}

/// A file of an embedded image.
pub open spec fn is_media(f: Seq<char>) -> bool {
    f.len() > 0 && f[0] == 'm'
}

proof fn lemma_media_files(urls: Seq<Seq<char>>, images: Seq<Option<Seq<u8>>>)
    requires
        images.len() == urls.len(),
    ensures
        ({
            let r = images::embedded_first(urls, images, urls.len());
            let files = Seq::new(r.len(), |i: int| r[i].filename);
            &&& files.no_duplicates()
            &&& forall|i: int| 0 <= i < files.len() ==> is_media(#[trigger] files[i])
        }),
{
    let r = images::embedded_first(urls, images, urls.len());
    let files = Seq::new(r.len(), |i: int| r[i].filename);
    images::lemma_embedded_numbered(urls, images, urls.len());
    reveal_strlit("media/img");
    assert forall|i: int, j: int|
        0 <= i < files.len() && 0 <= j < files.len() && i != j implies files[i] != files[j] by {
        assert(images::is_image_file(r[i].filename, (i + 1) as nat));
        assert(images::is_image_file(r[j].filename, (j + 1) as nat));
        let u = choose|u: Seq<char>|
            r[i].filename == #[trigger] images::image_file(u, (i + 1) as nat);
        let v = choose|v: Seq<char>|
            r[j].filename == #[trigger] images::image_file(v, (j + 1) as nat);
        images::law_image_files_differ(u, (i + 1) as nat, v, (j + 1) as nat);
    }
    assert forall|i: int| 0 <= i < files.len() implies is_media(#[trigger] files[i]) by {
        assert(images::is_image_file(r[i].filename, (i + 1) as nat));
        let u = choose|u: Seq<char>|
            r[i].filename == #[trigger] images::image_file(u, (i + 1) as nat);
        assert(images::image_file(u, (i + 1) as nat)[0] == 'm');
    }
}

/// A file that a chapter can have beside the files that every package has.
pub open spec fn is_page(f: Seq<char>) -> bool {
    &&& f.len() > 0
    &&& !is_media(f)
    &&& f != "style.css"@
    &&& f != "nav.xhtml"@
    &&& f != "toc.ncx"@
    &&& f != "content.opf"@
}

proof fn lemma_illustrated_files_differ(
    chapters: Seq<ChapterView>,
    images: Seq<Option<Seq<u8>>>,
)
    requires
        images.len() == images::image_urls(chapters).len(),
        files_of(chapters).no_duplicates(),
        forall|i: int| 0 <= i < chapters.len() ==> is_page(#[trigger] files_of(chapters)[i]),
    ensures
        epub::local_files(
            illustrated(chapters, images),
            illustrations(chapters, images),
        ).no_duplicates(),
{
    let shown = illustrated(chapters, images);
    let r = illustrations(chapters, images);
    let head = seq!["style.css"@, "nav.xhtml"@, "toc.ncx"@];
    let pages = Seq::new(shown.len(), |i: int| shown[i].filename);
    let media = Seq::new(r.len(), |i: int| r[i].filename);
    let tail = seq!["content.opf"@];
    assert(pages =~= files_of(chapters));
    lemma_media_files(images::image_urls(chapters), images);
    reveal_strlit("style.css");
    reveal_strlit("nav.xhtml");
    reveal_strlit("toc.ncx");
    reveal_strlit("content.opf");
    assert("style.css"@[0] == 's' && "nav.xhtml"@[0] == 'n' && "toc.ncx"@[0] == 't'
        && "content.opf"@[0] == 'c');
    assert(head.no_duplicates());
    lemma_no_duplicates_cat(head, pages);
    let a = head + pages;
    assert forall|i: int, j: int|
        0 <= i < a.len() && 0 <= j < media.len() implies #[trigger] a[i] != #[trigger] media[j] by {
        assert(is_media(media[j]));
        if i >= 3 {
            assert(a[i] == pages[i - 3]);
            assert(is_page(pages[i - 3]));
        }
    }
    lemma_no_duplicates_cat(a, media);
    let b = a + media;
    assert forall|i: int, j: int|
        0 <= i < b.len() && 0 <= j < tail.len() implies #[trigger] b[i] != #[trigger] tail[j] by {
        if i >= a.len() {
            assert(b[i] == media[i - a.len()]);
            assert(is_media(media[i - a.len()]));
        } else if i >= 3 {
            assert(b[i] == pages[i - 3]);
            assert(is_page(pages[i - 3]));
        } else {
            assert(b[i] == head[i]);
        }
    }
    lemma_no_duplicates_cat(b, tail);
    assert(epub::local_files(shown, r) =~= b + tail);
}

proof fn lemma_reserved_files()
    ensures
        forall|f: Seq<char>|
            f.len() > 2 && (f[0] == 'p' || f[0] == 'u' || (f[0] == 's' && f[1] == 'o') || (f[0]
                == 'c' && (f[1] == 'h' || f[2] == 'v'))) ==> #[trigger] is_page(f),
{
    reveal_strlit("style.css");
    reveal_strlit("nav.xhtml");
    reveal_strlit("toc.ncx");
    reveal_strlit("content.opf");
    let a = "style.css"@;
    let b = "nav.xhtml"@;
    let c = "toc.ncx"@;
    let d = "content.opf"@;
    assert(a[0] == 's' && a[1] == 't' && b[0] == 'n' && c[0] == 't');
    assert(d[0] == 'c' && d[1] == 'o' && d[2] == 'n');
}

proof fn lemma_pages_of_a_book(
    book: BookView,
    contents: Seq<UnitContentView>,
    date_stamp: Seq<char>,
)
    ensures
        ({
            let files = files_of(book_chapters(book, contents, date_stamp));
            forall|i: int| 0 <= i < files.len() ==> is_page(#[trigger] files[i])
        }),
{
    let n = book.parts.len();
    let chapters = book_chapters(book, contents, date_stamp);
    let parts = part_chapters(book.parts, contents, n);
    let files = files_of(chapters);
    lemma_reserved_files();
    lemma_part_files(book.parts, contents, n);
    reveal_strlit("cover");
    reveal_strlit("sources");
    reveal_strlit(".xhtml");
    assert forall|i: int| 0 <= i < files.len() implies is_page(#[trigger] files[i]) by {
        if i == 0 {
            let f = page_file("cover"@);
            assert(files[i] == f);
            assert(f[0] == 'c' && f[2] == 'v');
        } else if i <= parts.len() {
            let f = files_of(parts)[i - 1];
            assert(files[i] == f);
            assert(is_part_or_unit_file(f, n, tree::units_in(book.parts, n)));
            if exists|k: nat| 1 <= k <= n && f == page_file(#[trigger] part_id(k)) {
                let k = choose|k: nat| 1 <= k <= n && f == page_file(#[trigger] part_id(k));
                lemma_kinds_differ(k, 1);
            } else {
                let g = choose|g: nat|
                    1 <= g <= tree::units_in(book.parts, n) && f == page_file(#[trigger] unit_id(g));
                lemma_kinds_differ(1, g);
            }
        } else {
            let f = page_file("sources"@);
            assert(files[i] == f);
            assert(f[0] == 's' && f[1] == 'o');
        }
    }
}

/// No two files of a certification's EPUB have one name.
pub proof fn law_no_file_twice(
    book: BookView,
    contents: Seq<UnitContentView>,
    images: Seq<Option<Seq<u8>>>,
    date_stamp: Seq<char>,
)
    requires
        images.len() == images::image_urls(book_chapters(book, contents, date_stamp)).len(),
    ensures
        archive::names_differ(certification_package(book, contents, images, date_stamp)),
{
    let chapters = book_chapters(book, contents, date_stamp);
    law_chapter_files_differ(book, contents, date_stamp);
    lemma_pages_of_a_book(book, contents, date_stamp);
    lemma_illustrated_files_differ(chapters, images);
    epub::law_own_files_own_names(
        book.title,
        identifier_text(book.cert_uid, date_stamp),
        modified_text(date_stamp),
        "en"@,
        illustrated(chapters, images),
        book_nav(book),
        illustrations(chapters, images),
    );
}

proof fn lemma_pages_of_a_module(
    module: ModuleView,
    contents: Seq<UnitContentView>,
    date_stamp: Seq<char>,
)
    requires
        module.units.len() < 999,
    ensures
        ({
            let files = files_of(module_book_chapters(module, contents, date_stamp));
            &&& files.no_duplicates()
            &&& forall|i: int| 0 <= i < files.len() ==> is_page(#[trigger] files[i])
        }),
{
    let n = module.units.len();
    let chapters = module_book_chapters(module, contents, date_stamp);
    let files = files_of(chapters);
    lemma_reserved_files();
    lemma_first_and_last_chapter();
    reveal_strlit("ch");
    reveal_strlit(".xhtml");
    assert forall|i: int| 0 <= i < files.len() implies #[trigger] files[i] == page_file(
        chapter_id(if i <= n { i as nat } else { 999 }),
    ) by {
        if 0 < i <= n {
            assert(chapters[i] == module_unit_chapters(module, contents)[i - 1]);
        }
    }
    assert forall|i: int, j: int|
        0 <= i < files.len() && 0 <= j < files.len() && i != j implies files[i] != files[j] by {
        lemma_numbered_files_differ(
            "ch"@,
            if i <= n { i as nat } else { 999 },
            if j <= n { j as nat } else { 999 },
            3,
        );
    }
    assert forall|i: int| 0 <= i < files.len() implies is_page(#[trigger] files[i]) by {
        let f = files[i];
        assert(f[0] == 'c' && f[1] == 'h');
    }
}

proof fn lemma_first_and_last_chapter()
    ensures
        "ch000"@ == chapter_id(0),
        "ch999"@ == chapter_id(999),
{
    reveal_strlit("ch");
    reveal_strlit("ch000");
    reveal_strlit("ch999");
    reveal_with_fuel(text::decimal, 4);
    assert("ch000"@ =~= chapter_id(0));
    assert("ch999"@ =~= chapter_id(999));
}

/// No two files of a single module's EPUB have one name. A module of 999 units or more is left
/// out: its unit numbered 999 would share the file of the sources.
pub proof fn law_no_module_file_twice(
    module: ModuleView,
    contents: Seq<UnitContentView>,
    images: Seq<Option<Seq<u8>>>,
    date_stamp: Seq<char>,
)
    requires
        module.units.len() < 999,
        images.len() == images::image_urls(
            module_book_chapters(module, contents, date_stamp),
        ).len(),
    ensures
        archive::names_differ(module_package(module, contents, images, date_stamp)),
{
    let chapters = module_book_chapters(module, contents, date_stamp);
    lemma_pages_of_a_module(module, contents, date_stamp);
    lemma_illustrated_files_differ(chapters, images);
    epub::law_own_files_own_names(
        module.title,
        identifier_text(module.uid, date_stamp),
        modified_text(date_stamp),
        "en"@,
        illustrated(chapters, images),
        chapter_navs(chapters),
        illustrations(chapters, images),
    );
}

/// The pages of a plan's units, of what came back of their sources.
pub open spec fn settled_pages(
    idx: Map<Seq<char>, ModuleFilesView>,
    tasks: Seq<UnitTaskView>,
    replies: Seq<ReplyView>,
) -> Seq<UnitContentView> {
    Seq::new(
        tasks.len(),
        |i: int| settled(task_source(idx, tasks[i]), replies[i], tasks[i].module_url).0,
    )
}

/// Which of a plan's units have pages that were made from Learn's rendered markdown.
pub open spec fn settled_rendered(
    idx: Map<Seq<char>, ModuleFilesView>,
    tasks: Seq<UnitTaskView>,
    replies: Seq<ReplyView>,
) -> Seq<bool> {
    Seq::new(
        tasks.len(),
        |i: int| settled(task_source(idx, tasks[i]), replies[i], tasks[i].module_url).1,
    )
}

/// A unit of an indexed module has no content: no file was matched to a content unit, or the file
/// of a unit could not be fetched.
pub open spec fn lacks_content(
    idx: Map<Seq<char>, ModuleFilesView>,
    t: UnitTaskView,
    reply: ReplyView,
) -> bool {
    &&& t.slug is Some
    &&& t.base is Some
    &&& match task_source(idx, t) {
        UnitSourceView::Markdown { .. } => !(reply is Text),
        UnitSourceView::Quiz { .. } => !(reply is Check),
        _ => !t.is_kc,
    }
}

/// A unit's page is a placeholder if and only if its module is indexed and no file was matched to
/// it (and it is no knowledge check) or its file could not be fetched. A unit of a module that is
/// in no index never is one.
pub proof fn law_what_is_a_placeholder(
    idx: Map<Seq<char>, ModuleFilesView>,
    t: UnitTaskView,
    reply: ReplyView,
)
    ensures
        settled(task_source(idx, t), reply, t.module_url).0.placeholder <==> lacks_content(
            idx,
            t,
            reply,
        ),
{
}

/// The units among the first `n` of a book that lack content, each as `<module> / <unit>`, in
/// reading order.
pub open spec fn lacking_first(
    idx: Map<Seq<char>, ModuleFilesView>,
    book: BookView,
    replies: Seq<ReplyView>,
    n: nat,
) -> Seq<Seq<char>>
    decreases n,
{
    if n == 0 {
        Seq::empty()
    } else {
        let before = lacking_first(idx, book, replies, (n - 1) as nat);
        let slot = book_slots(book)[n - 1];
        if lacks_content(idx, planned(idx, book)[n - 1], replies[n - 1]) {
            before.push(slot.module_title + " / "@ + slot.unit_title)
        } else {
            before
        }
    }
}

proof fn lemma_modules_slots_numbered(modules: Seq<ModuleView>, before: nat, n: nat)
    requires
        n <= modules.len(),
    ensures
        forall|i: int|
            0 <= i < modules_slots(modules, before, n).len() ==> (#[trigger] modules_slots(
                modules,
                before,
                n,
            )[i]).gidx == before + i + 1,
    decreases n,
{
    if n > 0 {
        let a = modules_slots(modules, before, (n - 1) as nat);
        let b = module_slots(
            modules[n - 1],
            before + tree::units_in_modules(modules, (n - 1) as nat),
        );
        let all = modules_slots(modules, before, n);
        lemma_modules_slots_numbered(modules, before, (n - 1) as nat);
        lemma_modules_slots_len(modules, before, (n - 1) as nat);
        assert forall|i: int| 0 <= i < all.len() implies (#[trigger] all[i]).gidx == before + i + 1 by {
            if i < a.len() {
                assert(all[i] == a[i]);
            } else {
                assert(all[i] == b[i - a.len()]);
            }
        }
    }
}

proof fn lemma_parts_slots_numbered(parts: Seq<PartView>, n: nat)
    requires
        n <= parts.len(),
    ensures
        forall|i: int|
            0 <= i < parts_slots(parts, n).len() ==> (#[trigger] parts_slots(parts, n)[i]).gidx == i
                + 1,
    decreases n,
{
    if n > 0 {
        let p = parts[n - 1];
        let before = tree::units_in(parts, (n - 1) as nat);
        let a = parts_slots(parts, (n - 1) as nat);
        let b = modules_slots(p.modules, before, p.modules.len());
        let all = parts_slots(parts, n);
        lemma_parts_slots_numbered(parts, (n - 1) as nat);
        lemma_parts_slots_len(parts, (n - 1) as nat);
        lemma_modules_slots_numbered(p.modules, before, p.modules.len());
        assert forall|i: int| 0 <= i < all.len() implies (#[trigger] all[i]).gidx == i + 1 by {
            if i < a.len() {
                assert(all[i] == a[i]);
            } else {
                assert(all[i] == b[i - a.len()]);
            }
        }
    }
}

proof fn lemma_lacking_first(
    idx: Map<Seq<char>, ModuleFilesView>,
    book: BookView,
    replies: Seq<ReplyView>,
    n: nat,
)
    requires
        n <= book.unit_count(),
    ensures
        pages::placeholders_first(
            book_slots(book),
            settled_pages(idx, planned(idx, book), replies),
            n,
        ) == lacking_first(idx, book, replies, n),
    decreases n,
{
    if n > 0 {
        let slots = book_slots(book);
        let tasks = planned(idx, book);
        let contents = settled_pages(idx, tasks, replies);
        lemma_lacking_first(idx, book, replies, (n - 1) as nat);
        law_a_task_for_each_unit(idx, book);
        lemma_parts_slots_len(book.parts, book.parts.len());
        lemma_parts_slots_numbered(book.parts, book.parts.len());
        assert(slots[n - 1].gidx == n);
        assert(contents[n - 1] == settled(
            task_source(idx, tasks[n - 1]),
            replies[n - 1],
            tasks[n - 1].module_url,
        ).0);
        law_what_is_a_placeholder(idx, tasks[n - 1], replies[n - 1]);
    }
}

/// The report on a book, of what came back of its units' sources: the titles of the modules that
/// have no source anywhere, in reading order, and as placeholders the units of indexed modules
/// that could not be fetched or were matched to no file, in reading order, and no others.
pub proof fn law_report_is_exact(
    idx: Map<Seq<char>, ModuleFilesView>,
    book: BookView,
    replies: Seq<ReplyView>,
)
    ensures
        ({
            let tasks = planned(idx, book);
            let missing = missing_of(
                book,
                found_of(idx, book, settled_rendered(idx, tasks, replies)),
            );
            pages::report_text(
                book.title,
                missing,
                book_slots(book),
                settled_pages(idx, tasks, replies),
            ) == "__MSLX_REPORT__{\"resolved\":\""@ + pages::json_escaped(book.title)
                + "\",\"missing\":["@ + pages::json_items(missing) + "],\"unitPlaceholders\":["@
                + pages::json_items(lacking_first(idx, book, replies, book.unit_count())) + "]}"@
        }),
{
    lemma_parts_slots_len(book.parts, book.parts.len());
    lemma_lacking_first(idx, book, replies, book.unit_count());
}

/// A unit of a module that is in no index is never reported as a placeholder.
pub proof fn law_placeholders_are_of_indexed_modules(
    idx: Map<Seq<char>, ModuleFilesView>,
    book: BookView,
    replies: Seq<ReplyView>,
    p: int,
    m: int,
    u: int,
)
    requires
        has_unit(book, p, m, u),
        module_base(idx, book.parts[p].modules[m]) is None,
    ensures
        !settled_pages(idx, planned(idx, book), replies)[unit_number(book, p, m, u)
            - 1].placeholder,
{
    let g = unit_number(book, p, m, u);
    lemma_unit_number(book, p, m, u);
    law_a_task_for_each_unit(idx, book);
    lemma_parts_tasks_at(idx, book, book.parts.len(), p, m, u);
    law_what_is_a_placeholder(idx, planned(idx, book)[g - 1], replies[g - 1]);
}

/// A unit's page does not depend on where its file was fetched: that is only cited.
pub proof fn law_a_page_is_made_from_its_markdown(
    md: Seq<char>,
    url: Seq<char>,
    other: Seq<char>,
    base: Seq<char>,
    learn_url: Seq<char>,
)
    ensures
        unit_page(md, url, base, learn_url).body == unit_page(md, other, base, learn_url).body,
        unit_page(md, url, base, learn_url).raw_url == url,
        unit_page(md, url, base, learn_url).learn_url == learn_url,
        !unit_page(md, url, base, learn_url).placeholder,
{
}

/// The images of a unit are taken from the folder of its module: what is rendered is the unit's
/// markdown, in which every reference `](../media/x` of a line leads to `media/x` in that folder,
/// and the lines before it and behind it are converted as if they stood alone.
pub proof fn law_images_come_from_the_modules_folder(
    before: Seq<char>,
    a: Seq<char>,
    x: Seq<char>,
    after: Seq<char>,
    url: Seq<char>,
    base: Seq<char>,
    learn_url: Seq<char>,
)
    requires
        text::has_prefix(base, "http"@),
        !base.contains(']'),
        before.len() == 0 || before.last() == '\n',
        markdown::is_ordinary(a + "](../media/"@ + x),
        markdown::holds_no_block(before + ((a + "](../media/"@ + x).push('\n') + after)),
    ensures
        unit_page(
            before + ((a + "](../media/"@ + x).push('\n') + after),
            url,
            base,
            learn_url,
        ).body == markdown::finished(
            markdown::commonmark(
                markdown::preprocessed(before, base, learn_url) + (markdown::links_rewritten(
                    a,
                    base,
                ) + "]("@ + base + "/media/"@ + markdown::links_rewritten(x, base) + "\n"@
                    + markdown::preprocessed(after, base, learn_url)),
                true,
                true,
                true,
            ),
        ),
{
    let line = a + "](../media/"@ + x;
    let rest = line.push('\n') + after;
    markdown::law_every_line_is_converted(before, rest, base, learn_url);
    text::lemma_contains_cat(before, rest, "<iframe"@);
    text::lemma_contains_cat(before, rest, ":::image"@);
    text::lemma_contains_cat(line.push('\n'), after, "<iframe"@);
    text::lemma_contains_cat(line.push('\n'), after, ":::image"@);
    markdown::law_every_line_is_converted(line.push('\n'), after, base, learn_url);
    markdown::law_ordinary_line_keeps_its_text(line, base, learn_url);
    markdown::law_links_are_made_absolute(a, x, base);
}

/// The page that a unit's source makes, where its file was fetched, shows the images of its
/// module: the folder that its references lead to is the one that the file is in.
pub proof fn law_a_units_file_is_in_its_modules_folder(
    base: Seq<char>,
    module_url: Seq<char>,
    file: Seq<char>,
)
    ensures
        markdown_source(base, module_url, Some(file)) matches UnitSourceView::Markdown {
            url,
            base: folder,
            learn_url,
        } && folder == base && url == base + "/includes/"@ + file && text::has_prefix(
            learn_url,
            text::trim_end_of(module_url, '/') + "/"@,
        ),
{
    let front = text::trim_end_of(module_url, '/') + "/"@;
    let page = unit_page_url(module_url, text::trim_end_text(file, ".md"@));
    assert(page.subrange(0, front.len() as int) =~= front);
}

/// A page that is known stays, whatever comes back.
pub proof fn law_a_known_page_stays(page: UnitContentView, reply: ReplyView, module_url: Seq<char>)
    ensures
        settled(UnitSourceView::Known(page), reply, module_url) == (page, false),
{
}

/// Markdown of the repository makes the page of its unit.
pub proof fn law_markdown_makes_the_page(
    md: Seq<char>,
    url: Seq<char>,
    base: Seq<char>,
    learn_url: Seq<char>,
    module_url: Seq<char>,
)
    ensures
        settled(
            UnitSourceView::Markdown { url, base, learn_url },
            ReplyView::Text(md),
            module_url,
        ) == (unit_page(md, url, base, learn_url), false),
{
}

/// A quiz makes the page of its knowledge check, which cites where it comes from.
pub proof fn law_a_quiz_makes_the_page(
    q: QuizView,
    url: Seq<char>,
    learn_url: Seq<char>,
    module_url: Seq<char>,
)
    ensures
        ({
            let (page, rendered) = settled(
                UnitSourceView::Quiz { url, learn_url },
                ReplyView::Check(Some(q)),
                module_url,
            );
            &&& !rendered
            &&& page.body == quiz::quiz_text(q)
            &&& page.learn_url == learn_url
            &&& page.raw_url == url
            &&& !page.placeholder
        }),
{
}

/// Markdown of Learn makes the page of its unit where it holds anything, and the page cites the
/// unit's page on Learn alone.
pub proof fn law_learn_makes_the_page(
    md: Seq<char>,
    url: Seq<char>,
    learn_url: Seq<char>,
    module_url: Seq<char>,
)
    ensures
        ({
            let (page, rendered) = settled(
                UnitSourceView::Rendered { url, learn_url },
                ReplyView::Text(md),
                module_url,
            );
            match scrape::unit_xhtml(md, learn_url) {
                Some(body) => rendered && page.body == body && page.learn_url == learn_url
                    && page.raw_url.len() == 0 && !page.placeholder,
                None => !rendered && page.learn_url == module_url && !page.placeholder,
            }
        }),
{
}

/// The file is the one that a content unit's page comes from: it is among the includes of its
/// module, and it is named after the unit where any of them is.
pub open spec fn is_units_file(
    includes: Seq<Seq<char>>,
    unit_slug: Seq<char>,
    file: Seq<char>,
) -> bool {
    &&& includes.contains(file)
    &&& (exists|i: int|
        0 <= i < includes.len() && content::names_unit(unit_slug)(#[trigger] includes[i]))
        ==> content::names_unit(unit_slug)(file)
}

/// The page of a knowledge check's task comes from the module's knowledge check, and the page of a
/// content unit's task from a file of its module's includes: one named after the unit where there
/// is one. Where there is no file to take, none is named after the unit.
pub proof fn law_where_pages_come_from(idx: Map<Seq<char>, ModuleFilesView>, t: UnitTaskView)
    requires
        t.slug is Some,
        t.base is Some,
        idx.dom().contains(t.slug->Some_0),
    ensures
        t.is_kc ==> match task_source(idx, t) {
            UnitSourceView::Quiz { url, .. } => exists|f: Seq<char>|
                idx[t.slug->Some_0].units_yml.contains(f) && text::has_suffix(
                    f,
                    "knowledge-check.yml"@,
                ) && url == #[trigger] (t.base->Some_0 + "/"@ + f),
            UnitSourceView::Known(_) => true,
            _ => false,
        },
        !t.is_kc ==> match task_source(idx, t) {
            UnitSourceView::Markdown { url, base, .. } => base == t.base->Some_0 && exists|
                f: Seq<char>,
            | #[trigger]
                is_units_file(
                    idx[t.slug->Some_0].includes,
                    text::after_last(t.unit_uid, '.'),
                    f,
                ) && url == base + "/includes/"@ + f,
            UnitSourceView::Known(_) => forall|i: int|
                0 <= i < idx[t.slug->Some_0].includes.len() ==> !content::names_unit(
                    text::after_last(t.unit_uid, '.'),
                )(#[trigger] idx[t.slug->Some_0].includes[i]),
            _ => false,
        },
{
    let slug = t.slug->Some_0;
    if t.is_kc {
        content::law_knowledge_check_file(idx, slug);
        if let Some(f) = content::check_file(idx, slug) {
            assert(task_source(idx, t)->Quiz_url == t.base->Some_0 + "/"@ + f);
        }
    } else {
        let files = idx[slug].includes;
        let unit_slug = text::after_last(t.unit_uid, '.');
        let p = content::names_unit(unit_slug);
        content::law_first_such(files, p, 0);
        content::law_first_such(files, content::numbered(t.position), 0);
        lemma_ordinal_is_a_file(files, t.content_ordinal, t.non_kc_count);
        let file = unit_file(
            idx,
            slug,
            t.unit_uid,
            t.position,
            t.content_ordinal,
            t.non_kc_count,
        );
        if let Some(f) = file {
            assert(files.contains(f));
            assert(is_units_file(files, unit_slug, f));
            assert(task_source(idx, t)->Markdown_url == t.base->Some_0 + "/includes/"@ + f);
        }
    }
}

proof fn lemma_ordinal_is_a_file(files: Seq<Seq<char>>, ordinal: nat, non_kc_count: nat)
    ensures
        content::ordinal_file(files, ordinal, non_kc_count) matches Some(f) ==> files.contains(f),
{
    if let Some(f) = content::ordinal_file(files, ordinal, non_kc_count) {
        broadcast use vstd::seq_lib::group_to_multiset_ensures;

        content::law_content_files(files, files.len());
        let sorted = content::content_files(files, files.len());
        let keep = |f: Seq<char>| content::is_content_file(f);
        assert(files.take(files.len() as int) =~= files);
        assert(sorted.contains(f));
        assert(sorted.to_multiset().count(f) > 0);
        assert(files.filter(keep).to_multiset().count(f) > 0);
        assert(files.filter(keep).contains(f));
        lemma_filter_is_part(files, keep, f);
    }
}

proof fn lemma_filter_is_part(s: Seq<Seq<char>>, f: spec_fn(Seq<char>) -> bool, x: Seq<char>)
    requires
        s.filter(f).contains(x),
    ensures
        s.contains(x),
    decreases s.len(),
{
    reveal(Seq::filter);
    if s.len() > 0 {
        let front = s.drop_last();
        let r = s.filter(f);
        let k = choose|k: int| 0 <= k < r.len() && r[k] == x;
        if k < front.filter(f).len() {
            assert(front.filter(f)[k] == x);
            lemma_filter_is_part(front, f, x);
            let i = choose|i: int| 0 <= i < front.len() && front[i] == x;
            assert(s[i] == x);
        } else {
            assert(s[s.len() - 1] == x);
        }
    }
}

/// The task of a unit asks for that unit of that module, at its place.
pub proof fn law_a_task_is_of_its_unit(
    idx: Map<Seq<char>, ModuleFilesView>,
    book: BookView,
    p: int,
    m: int,
    u: int,
)
    requires
        has_unit(book, p, m, u),
    ensures
        ({
            let t = planned(idx, book)[unit_number(book, p, m, u) - 1];
            let module = book.parts[p].modules[m];
            &&& t.unit_uid == module.units[u].uid
            &&& t.is_kc == module.units[u].is_knowledge_check
            &&& t.position == u + 1
            &&& module.url matches Some(url) ==> t.module_url == url
            &&& t.slug == content::module_slug(t.module_url)
            &&& t.slug matches Some(slug) ==> t.base == content::raw_base(idx, slug)
            &&& t.slug is None ==> t.base is None
            &&& 0 <= t.content_ordinal <= t.position
            &&& t.content_ordinal <= t.non_kc_count <= module.units.len()
        }),
{
    lemma_unit_number(book, p, m, u);
    law_a_task_for_each_unit(idx, book);
    lemma_parts_tasks_at(idx, book, book.parts.len(), p, m, u);
    let units = book.parts[p].modules[m].units;
    lemma_content_units(units, (u + 1) as nat, units.len());
}

proof fn lemma_content_units(units: Seq<UnitView>, i: nat, n: nat)
    requires
        i <= n,
    ensures
        content_units(units, i) <= i,
        content_units(units, i) <= content_units(units, n) <= n,
    decreases n,
{
    if n > 0 {
        if i < n {
            lemma_content_units(units, i, (n - 1) as nat);
        } else {
            lemma_content_units(units, (i - 1) as nat, (n - 1) as nat);
        }
    }
}

/// Content units are counted one by one, and knowledge checks are not counted.
pub proof fn law_content_units_are_counted(units: Seq<UnitView>, n: nat)
    requires
        0 < n <= units.len(),
    ensures
        units[n - 1].is_knowledge_check ==> content_units(units, n) == content_units(
            units,
            (n - 1) as nat,
        ),
        !units[n - 1].is_knowledge_check ==> content_units(units, n) == content_units(
            units,
            (n - 1) as nat,
        ) + 1,
        content_units(units, 0) == 0,
{
}

/// The EPUB of a certification's book holds the page of every unit, in its own file: under the
/// unit's title, and under the module's name where it opens the module, with the text of the
/// unit's page, in which the fetched images are shown from their files.
pub proof fn law_every_unit_is_in_the_epub(
    book: BookView,
    contents: Seq<UnitContentView>,
    images: Seq<Option<Seq<u8>>>,
    date_stamp: Seq<char>,
    p: int,
    m: int,
    u: int,
)
    requires
        has_unit(book, p, m, u),
    ensures
        ({
            let g = unit_number(book, p, m, u);
            let module = book.parts[p].modules[m];
            let urls = images::image_urls(book_chapters(book, contents, date_stamp));
            certification_package(book, contents, images, date_stamp)[6 + p + g] == (
                "OEBPS/u"@ + text::zero_padded(text::decimal(g), 4) + ".xhtml"@,
                false,
                vstd::utf8::encode_utf8(
                    epub::chapter_text(
                        module.units[u].title,
                        if u == 0 {
                            Some(module.title)
                        } else {
                            None
                        },
                        images::localised(contents[g - 1].body, urls, images, urls.len()),
                    ),
                ),
            )
        }),
{
    let g = unit_number(book, p, m, u);
    let chapters = book_chapters(book, contents, date_stamp);
    law_every_unit_has_its_chapter(book, contents, date_stamp, p, m, u);
    lemma_illustrated_file(
        book.title,
        identifier_text(book.cert_uid, date_stamp),
        modified_text(date_stamp),
        book_nav(book),
        chapters,
        images,
        p + 1 + g,
    );
    lemma_unit_file_name(g);
}

proof fn lemma_unit_file_name(g: nat)
    ensures
        "OEBPS/"@ + page_file(unit_id(g)) == "OEBPS/u"@ + text::zero_padded(text::decimal(g), 4)
            + ".xhtml"@,
{
    reveal_strlit("OEBPS/");
    reveal_strlit("u");
    reveal_strlit("OEBPS/u");
    assert("OEBPS/"@ + page_file(unit_id(g)) =~= "OEBPS/u"@ + text::zero_padded(
        text::decimal(g),
        4,
    ) + ".xhtml"@);
}

/// The file of a chapter that shows the fetched images from their files.
proof fn lemma_illustrated_file(
    title: Seq<char>,
    identifier: Seq<char>,
    modified: Seq<char>,
    nav: Seq<NavView>,
    chapters: Seq<ChapterView>,
    images: Seq<Option<Seq<u8>>>,
    k: int,
)
    requires
        0 <= k < chapters.len(),
    ensures
        epub::package_view(
            title,
            identifier,
            modified,
            "en"@,
            illustrated(chapters, images),
            nav,
            illustrations(chapters, images),
        )[5 + k] == (
            "OEBPS/"@ + chapters[k].filename,
            false,
            vstd::utf8::encode_utf8(
                epub::chapter_text(
                    chapters[k].title,
                    chapters[k].module_header,
                    images::localised(
                        chapters[k].body,
                        images::image_urls(chapters),
                        images,
                        images::image_urls(chapters).len(),
                    ),
                ),
            ),
        ),
{
    let shown = illustrated(chapters, images);
    assert(shown[k] == images::localised_chapter(
        chapters[k],
        images::image_urls(chapters),
        images,
    ));
    epub::law_archive_is_in_order(
        title,
        identifier,
        modified,
        "en"@,
        shown,
        nav,
        illustrations(chapters, images),
    );
}

/// The book opens with its cover, under its title, and ends with its sources, and the table of
/// contents does too.
pub proof fn law_book_opens_and_ends(
    book: BookView,
    contents: Seq<UnitContentView>,
    date_stamp: Seq<char>,
)
    ensures
        ({
            let chapters = book_chapters(book, contents, date_stamp);
            let nav = book_nav(book);
            &&& chapters[0].filename == "cover.xhtml"@
            &&& chapters[0].title == book.title
            &&& chapters[0].body == pages::cover_text(book, date_stamp)
            &&& chapters.last().filename == "sources.xhtml"@
            &&& nav[0].href == chapters[0].filename
            &&& nav.last().href == chapters.last().filename
            &&& text::has_suffix(chapters.last().body, pages::made_with_text())
        }),
{
    reveal_strlit("cover");
    reveal_strlit("cover.xhtml");
    reveal_strlit(".xhtml");
    reveal_strlit("sources");
    reveal_strlit("sources.xhtml");
    assert(page_file("cover"@) =~= "cover.xhtml"@);
    assert(page_file("sources"@) =~= "sources.xhtml"@);
    text::lemma_ends(
        pages::flat_sources_text(book.title, book_slots(book), contents, date_stamp),
        pages::made_with_text(),
    );
}

/// A part's entry in the table of contents has the title of the part's opening, which says its
/// number.
pub proof fn law_parts_are_numbered(book: BookView, p: int)
    requires
        0 <= p < book.parts.len(),
    ensures
        part_chapter(book.parts[p], (p + 1) as nat).title == "Part "@ + text::decimal(
            (p + 1) as nat,
        ) + ": "@ + book.parts[p].title,
        part_navs(book.parts, (p + 1) as nat)[p].title == "Part "@ + text::decimal((p + 1) as nat)
            + ": "@ + book.parts[p].title,
        part_chapter(book.parts[p], (p + 1) as nat).body == pages::part_intro_text(
            (p + 1) as nat,
            book.parts[p],
        ),
{
    lemma_part_navs_count(book.parts, p as nat);
}

proof fn lemma_part_navs_count(parts: Seq<PartView>, n: nat)
    ensures
        part_navs(parts, n).len() == n,
    decreases n,
{
    if n > 0 {
        lemma_part_navs_count(parts, (n - 1) as nat);
    }
}

/// A single module's book is its title page, its units in their order, each with its own page, and
/// its sources; its table of contents leads to each of them under its title.
pub proof fn law_a_modules_book(
    module: ModuleView,
    contents: Seq<UnitContentView>,
    date_stamp: Seq<char>,
    u: int,
)
    requires
        0 <= u < module.units.len(),
    ensures
        ({
            let chapters = module_book_chapters(module, contents, date_stamp);
            let nav = chapter_navs(chapters);
            &&& chapters.len() == module.units.len() + 2
            &&& chapters[0].title == module.title
            &&& chapters[0].filename == "ch000.xhtml"@
            &&& chapters[u + 1].title == module.units[u].title
            &&& chapters[u + 1].body == contents[u].body
            &&& chapters[u + 1].module_header is None
            &&& chapters.last().filename == "ch999.xhtml"@
            &&& nav.len() == chapters.len()
            &&& nav[u + 1].href == chapters[u + 1].filename
            &&& nav[u + 1].title == chapters[u + 1].title
            &&& nav[u + 1].children.len() == 0
        }),
{
    reveal_strlit("ch000");
    reveal_strlit("ch000.xhtml");
    reveal_strlit(".xhtml");
    reveal_strlit("ch999");
    reveal_strlit("ch999.xhtml");
    assert(page_file("ch000"@) =~= "ch000.xhtml"@);
    assert(page_file("ch999"@) =~= "ch999.xhtml"@);
}

/// The EPUB of a single module's book holds the page of every unit.
pub proof fn law_every_unit_of_a_module_is_in_the_epub(
    module: ModuleView,
    contents: Seq<UnitContentView>,
    images: Seq<Option<Seq<u8>>>,
    date_stamp: Seq<char>,
    u: int,
)
    requires
        0 <= u < module.units.len(),
    ensures
        ({
            let urls = images::image_urls(module_book_chapters(module, contents, date_stamp));
            module_package(module, contents, images, date_stamp)[6 + u] == (
                "OEBPS/"@ + page_file(chapter_id((u + 1) as nat)),
                false,
                vstd::utf8::encode_utf8(
                    epub::chapter_text(
                        module.units[u].title,
                        None,
                        images::localised(contents[u].body, urls, images, urls.len()),
                    ),
                ),
            )
        }),
{
    let chapters = module_book_chapters(module, contents, date_stamp);
    assert(chapters[u + 1] == plain_chapter(
        chapter_id((u + 1) as nat),
        module.units[u].title,
        contents[u].body,
    ));
    lemma_illustrated_file(
        module.title,
        identifier_text(module.uid, date_stamp),
        modified_text(date_stamp),
        chapter_navs(chapters),
        chapters,
        images,
        u + 1,
    );
}

/// A module has content where the public repository has it, or where the page of one of its own
/// units came from Learn, and nowhere else.
pub proof fn law_what_counts_as_content(
    idx: Map<Seq<char>, ModuleFilesView>,
    book: BookView,
    rendered: Seq<bool>,
    p: int,
    m: int,
)
    requires
        has_module(book, p, m),
        rendered.len() == book.unit_count(),
    ensures
        found_of(idx, book, rendered)[module_place(book, p, m)] <==> module_base(
            idx,
            book.parts[p].modules[m],
        ) is Some || exists|u: int|
            0 <= u < book.parts[p].modules[m].units.len() && #[trigger] rendered[unit_number(
                book,
                p,
                m,
                u,
            ) - 1],
{
    lemma_found_at(idx, book, rendered, book.parts.len(), p, m);
    let before = tree::units_in(book.parts, p as nat) + tree::units_in_modules(
        book.parts[p].modules,
        m as nat,
    );
    let n = book.parts[p].modules[m].units.len();
    assert forall|u: int| 0 <= u < n implies #[trigger] unit_number(book, p, m, u) == before + u
        + 1 by {}
    if any_in(rendered, before as int, (before + n) as int) {
        let i = choose|i: int| before <= i < before + n && #[trigger] rendered[i];
        assert(rendered[unit_number(book, p, m, i - before) - 1]);
    }
    if exists|u: int| 0 <= u < n && #[trigger] rendered[unit_number(book, p, m, u) - 1] {
        let u = choose|u: int| 0 <= u < n && #[trigger] rendered[unit_number(book, p, m, u) - 1];
        assert(rendered[before + u]);
    }
}

proof fn lemma_parts_missing_begin(parts: Seq<PartView>, found: Seq<bool>, n: nat, i: nat)
    requires
        i <= n <= parts.len(),
    ensures
        parts_missing(parts, found, i).is_prefix_of(parts_missing(parts, found, n)),
    decreases n,
{
    if i < n {
        lemma_parts_missing_begin(parts, found, (n - 1) as nat, i);
    }
}

proof fn lemma_modules_missing_begin(
    modules: Seq<ModuleView>,
    found: Seq<bool>,
    before: nat,
    n: nat,
    i: nat,
)
    requires
        i <= n <= modules.len(),
    ensures
        modules_missing(modules, found, before, i).is_prefix_of(
            modules_missing(modules, found, before, n),
        ),
    decreases n,
{
    if i < n {
        lemma_modules_missing_begin(modules, found, before, (n - 1) as nat, i);
    }
}

/// The missing modules are listed in reading order: what is listed up to a module is the beginning
/// of the list, and the module ends it exactly where it has no content.
pub proof fn law_missing_modules_are_in_order(book: BookView, found: Seq<bool>, p: int, m: int)
    requires
        has_module(book, p, m),
    ensures
        ({
            let modules = book.parts[p].modules;
            let first = tree::modules_in(book.parts, p as nat);
            let front = parts_missing(book.parts, found, p as nat);
            let before = front + modules_missing(modules, found, first, m as nat);
            let upto = front + modules_missing(modules, found, first, (m + 1) as nat);
            &&& upto.is_prefix_of(missing_of(book, found))
            &&& !found[module_place(book, p, m)] ==> upto == before.push(modules[m].title)
            &&& found[module_place(book, p, m)] ==> upto == before
        }),
{
    let modules = book.parts[p].modules;
    let first = tree::modules_in(book.parts, p as nat);
    let front = parts_missing(book.parts, found, p as nat);
    let before = front + modules_missing(modules, found, first, m as nat);
    let upto = front + modules_missing(modules, found, first, (m + 1) as nat);
    lemma_modules_missing_begin(modules, found, first, modules.len(), (m + 1) as nat);
    lemma_parts_missing_begin(book.parts, found, book.parts.len(), (p + 1) as nat);
    let whole = parts_missing(book.parts, found, (p + 1) as nat);
    assert(whole == front + modules_missing(modules, found, first, modules.len()));
    assert(upto.is_prefix_of(whole));
    assert(!found[module_place(book, p, m)] ==> upto =~= before.push(modules[m].title));
}

/// The page of a unit is below that of its module, whether or not the module's address ends in a
/// slash.
pub proof fn law_a_units_page_is_below_its_modules(page: Seq<char>, stem: Seq<char>)
    requires
        page.len() > 0 ==> page.last() != '/',
    ensures
        unit_page_url(page + "/"@, stem) == page + "/"@ + stem,
        unit_page_url(page, stem) == page + "/"@ + stem,
{
    reveal_strlit("/");
    text::law_trim_end_of(page, '/', "/"@);
    text::law_trim_end_of(page, '/', Seq::empty());
    assert(page + Seq::<char>::empty() =~= page);
}

/// A unit of a module without a public source is asked of Learn at its page, which is numbered by
/// the unit's place and named after the unit.
pub proof fn law_where_learn_is_asked(
    page: Seq<char>,
    prefix: Seq<char>,
    slug: Seq<char>,
    position: nat,
)
    requires
        page.len() > 0 ==> page.last() != '/',
        !slug.contains('.'),
    ensures
        ({
            let unit = page + "/"@ + (text::decimal(position) + "-"@ + slug);
            rendered_source(page + "/"@, prefix + seq!['.'] + slug, position)
                == UnitSourceView::Rendered {
                url: unit + "?accept=text/markdown"@,
                learn_url: unit,
            }
        }),
{
    law_a_units_page_is_below_its_modules(page, text::decimal(position) + "-"@ + slug);
    text::law_after_last(prefix, '.', slug);
}

/// A single module is refused exactly where neither the public repository nor Learn has content of
/// it, and one without a usable page cannot be planned at all.
pub proof fn law_when_a_module_is_refused(
    idx: Map<Seq<char>, ModuleFilesView>,
    uid: Seq<char>,
    module: ModuleView,
    rendered: Seq<bool>,
)
    requires
        rendered.len() == module.units.len(),
    ensures
        content::module_slug(module_page(module)) is None <==> module_planned(
            idx,
            uid,
            module,
        ) is Err,
        content::module_slug(module_page(module)) matches Some(slug) ==> {
            &&& module_planned(idx, uid, module)->Ok_0.len() == module.units.len()
            &&& module_refused(idx, module, rendered) is Some <==> !idx.dom().contains(slug)
                && forall|i: int| 0 <= i < rendered.len() ==> !#[trigger] rendered[i]
        },
{
}

/// The task of a unit of a single module asks for that unit, at its place.
pub proof fn law_a_modules_tasks(
    idx: Map<Seq<char>, ModuleFilesView>,
    uid: Seq<char>,
    module: ModuleView,
    u: int,
)
    requires
        module_planned(idx, uid, module) is Ok,
        0 <= u < module.units.len(),
    ensures
        ({
            let t = module_planned(idx, uid, module)->Ok_0[u];
            &&& t.unit_uid == module.units[u].uid
            &&& t.is_kc == module.units[u].is_knowledge_check
            &&& t.position == u + 1
            &&& t.gidx == u + 1
            &&& module.url matches Some(url) ==> t.module_url == url
            &&& t.slug == content::module_slug(t.module_url)
            &&& t.slug matches Some(slug) ==> t.base == content::raw_base(idx, slug)
        }),
{
}

/// Every image that was fetched is in the EPUB of a certification's book, with its bytes.
pub proof fn law_every_fetched_image_is_in_the_epub(
    book: BookView,
    contents: Seq<UnitContentView>,
    images: Seq<Option<Seq<u8>>>,
    date_stamp: Seq<char>,
    i: int,
)
    requires
        images.len() == images::image_urls(book_chapters(book, contents, date_stamp)).len(),
        0 <= i < images.len(),
        images[i] is Some,
    ensures
        ({
            let url = images::image_urls(book_chapters(book, contents, date_stamp))[i];
            let n = images::fetched_in(images, (i + 1) as nat);
            certification_package(book, contents, images, date_stamp).contains(
                ("OEBPS/"@ + images::image_file(url, n), false, images[i]->Some_0),
            )
        }),
{
    let chapters = book_chapters(book, contents, date_stamp);
    let urls = images::image_urls(chapters);
    images::law_embedded_are_the_fetched(urls, images, urls.len());
    let n = images::fetched_in(images, (i + 1) as nat);
    let rs = illustrations(chapters, images);
    epub::law_every_resource_is_in_the_package(
        book.title,
        identifier_text(book.cert_uid, date_stamp),
        modified_text(date_stamp),
        "en"@,
        illustrated(chapters, images),
        book_nav(book),
        rs,
        n - 1,
    );
}

/// The EPUB of a certification's book is known by the certification and the day, says its title,
/// and has the book's chapters, images and table of contents.
pub proof fn law_an_epub_is_of_its_book(
    book: BookView,
    contents: Seq<UnitContentView>,
    images: Seq<Option<Seq<u8>>>,
    date_stamp: Seq<char>,
)
    ensures
        ({
            let chapters = book_chapters(book, contents, date_stamp);
            let all = certification_package(book, contents, images, date_stamp);
            let id = "urn:mslx:"@ + book.cert_uid + ":"@ + date_stamp;
            &&& all.len() == 6 + chapters.len() + illustrations(chapters, images).len()
            &&& all[3].2 == vstd::utf8::encode_utf8(
                epub::nav_document_text(book.title, book_nav(book)),
            )
            &&& all[4].2 == vstd::utf8::encode_utf8(epub::ncx_text(book.title, id, book_nav(book)))
            &&& all.last().2 == vstd::utf8::encode_utf8(
                epub::opf_text(
                    book.title,
                    id,
                    date_stamp + "T00:00:00Z"@,
                    "en"@,
                    illustrated(chapters, images),
                    illustrations(chapters, images),
                ),
            )
        }),
{
    let chapters = book_chapters(book, contents, date_stamp);
    epub::law_archive_is_in_order(
        book.title,
        identifier_text(book.cert_uid, date_stamp),
        modified_text(date_stamp),
        "en"@,
        illustrated(chapters, images),
        book_nav(book),
        illustrations(chapters, images),
    );
}

/// The EPUB of a single module's book is known by the module and the day, says its title, and has
/// the book's chapters and images.
pub proof fn law_an_epub_is_of_its_module(
    module: ModuleView,
    contents: Seq<UnitContentView>,
    images: Seq<Option<Seq<u8>>>,
    date_stamp: Seq<char>,
)
    ensures
        ({
            let chapters = module_book_chapters(module, contents, date_stamp);
            let all = module_package(module, contents, images, date_stamp);
            let id = "urn:mslx:"@ + module.uid + ":"@ + date_stamp;
            &&& all.len() == 6 + chapters.len() + illustrations(chapters, images).len()
            &&& all[4].2 == vstd::utf8::encode_utf8(
                epub::ncx_text(module.title, id, chapter_navs(chapters)),
            )
            &&& all.last().2 == vstd::utf8::encode_utf8(
                epub::opf_text(
                    module.title,
                    id,
                    date_stamp + "T00:00:00Z"@,
                    "en"@,
                    illustrated(chapters, images),
                    illustrations(chapters, images),
                ),
            )
        }),
{
    let chapters = module_book_chapters(module, contents, date_stamp);
    epub::law_archive_is_in_order(
        module.title,
        identifier_text(module.uid, date_stamp),
        modified_text(date_stamp),
        "en"@,
        illustrated(chapters, images),
        chapter_navs(chapters),
        illustrations(chapters, images),
    );
}

/// A knowledge check is read from its file in the module's folder, and its page is below that of
/// the module, named after the file.
pub proof fn law_where_a_quiz_comes_from(base: Seq<char>, page: Seq<char>, stem: Seq<char>)
    requires
        page.len() > 0 ==> page.last() != '/',
        !text::has_suffix(stem, ".yml"@),
    ensures
        quiz_source(base, page + "/"@, Some(stem + ".yml"@)) == (UnitSourceView::Quiz {
            url: base + "/"@ + (stem + ".yml"@),
            learn_url: page + "/"@ + stem,
        }),
        quiz_source(base, page, None) is Known,
{
    reveal_strlit(".yml");
    text::law_trim_end_text(stem, ".yml"@);
    law_a_units_page_is_below_its_modules(page, stem);
}

} // verus!
