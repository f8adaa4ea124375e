//! Resolving an input to its whole book tree, and a uid to a single module: first the study
//! guide, then three rounds of batched catalog queries (paths, modules, units).
//!
//! [`ResolveState`] and [`ModuleState`] are a resolution between two requests.

use crate::catalog;
use crate::catalog::CatalogResponse;
use crate::catalog::CatalogView;
use crate::catalog::RawModule;
use crate::catalog::RawModuleView;
use crate::catalog::RawPath;
use crate::catalog::RawPathView;
use crate::catalog::RawUnit;
use crate::catalog::RawUnitView;
use crate::error;
use crate::error::ResolveError;
use crate::error::ResolveErrorView;
use crate::guide;
use crate::guide::GuideState;
use crate::guide::GuideView;
use crate::guide::Request;
use crate::guide::RequestView;
use crate::guide::StudyGuide;
use crate::guide::StudyGuideView;
use crate::text;
use crate::tree;
use crate::tree::Book;
use crate::tree::BookView;
use crate::tree::ModuleNode;
use crate::tree::ModuleView;
use vstd::prelude::*;

verus! {

broadcast use vstd::seq_lib::group_seq_properties;

// ---------------------------------------------------------------------------
// Batches
// ---------------------------------------------------------------------------

/// A round of queries: the URLs, how many of them have been answered, and what was found so far.
#[derive(Debug)]
pub struct Batch {
    pub urls: Vec<String>,
    pub answered: usize,
    pub found: CatalogResponse,
}

/// What a [`Batch`] holds.
pub struct BatchView {
    pub urls: Seq<Seq<char>>,
    pub answered: nat,
    pub found: CatalogView,
}

impl DeepView for Batch {
    type V = BatchView;

    open spec fn deep_view(&self) -> BatchView {
        BatchView {
            urls: self.urls.deep_view(),
            answered: self.answered as nat,
            found: self.found.deep_view(),
        }
    }
}

impl BatchView {
    /// Some URL has not been answered.
    pub open spec fn open(self) -> bool {
        self.answered < self.urls.len()
    }

    /// The batch after one more answer.
    pub open spec fn with(self, r: CatalogView) -> BatchView {
        BatchView {
            urls: self.urls,
            answered: self.answered + 1,
            found: self.found.joined(r),
        }
    }
}

/// The batch that asks for those uids.
pub open spec fn batch_of(
    content_type: Seq<char>,
    uids: Seq<Seq<char>>,
    locale: Seq<char>,
) -> BatchView {
    BatchView {
        urls: catalog::batch_urls(content_type, uids, locale),
        answered: 0,
        found: CatalogView::empty(),
    }
}

impl Batch {
    fn start(content_type: &str, uids: &Vec<String>, locale: &str) -> (r: Batch)
        ensures
            r.deep_view() == batch_of(content_type@, uids.deep_view(), locale@),
    {
        Batch {
            urls: catalog::chunk_urls(content_type, uids, locale),
            answered: 0,
            found: CatalogResponse::new(),
        }
    }

    fn is_open(&self) -> (r: bool)
        ensures
            r == self.deep_view().open(),
    {
        self.answered < self.urls.len()
    }

    fn take(self, r: CatalogResponse) -> (b: Batch)
        requires
            self.deep_view().open(),
        ensures
            b.deep_view() == self.deep_view().with(r.deep_view()),
    {
        let n: usize = self.urls.len();
        assert(self.answered < n);
        let mut b = self;
        b.answered = b.answered + 1;
        b.found.extend(r);
        b
    }

    fn request(&self) -> (r: Option<Request>)
        ensures
            r.deep_view() == (if self.deep_view().open() {
                Some(RequestView::Catalog(self.deep_view().urls[self.answered as int]))
            } else {
                None
            }),
    {
        if self.is_open() {
            assert(self.urls.deep_view()[self.answered as int] == self.urls@[self.answered as int]@);
            Some(Request::Catalog(self.urls[self.answered].clone()))
        } else {
            None
        }
    }
}

// ---------------------------------------------------------------------------
// A whole book
// ---------------------------------------------------------------------------

/// Where the resolution of a book stands.
#[derive(Debug)]
pub enum ResolveState {
    /// The study guide is being resolved.
    Guide(GuideState),
    /// The learning paths are being fetched.
    Paths { guide: StudyGuide, batch: Batch },
    /// The modules of the paths are being fetched.
    Modules { guide: StudyGuide, paths: Vec<RawPath>, batch: Batch },
    /// The units of the modules are being fetched.
    Units { guide: StudyGuide, paths: Vec<RawPath>, modules: Vec<RawModule>, batch: Batch },
    Done(Book),
    Failed(ResolveError),
}

/// What a [`ResolveState`] holds.
pub enum ResolveView {
    Guide(GuideView),
    Paths { guide: StudyGuideView, batch: BatchView },
    Modules { guide: StudyGuideView, paths: Seq<RawPathView>, batch: BatchView },
    Units {
        guide: StudyGuideView,
        paths: Seq<RawPathView>,
        modules: Seq<RawModuleView>,
        batch: BatchView,
    },
    Done(BookView),
    Failed(ResolveErrorView),
}

impl DeepView for ResolveState {
    type V = ResolveView;

    open spec fn deep_view(&self) -> ResolveView {
        match self {
            ResolveState::Guide(g) => ResolveView::Guide(g.deep_view()),
            ResolveState::Paths { guide, batch } => ResolveView::Paths {
                guide: guide.deep_view(),
                batch: batch.deep_view(),
            },
            ResolveState::Modules { guide, paths, batch } => ResolveView::Modules {
                guide: guide.deep_view(),
                paths: paths.deep_view(),
                batch: batch.deep_view(),
            },
            ResolveState::Units { guide, paths, modules, batch } => ResolveView::Units {
                guide: guide.deep_view(),
                paths: paths.deep_view(),
                modules: modules.deep_view(),
                batch: batch.deep_view(),
            },
            ResolveState::Done(b) => ResolveView::Done(b.deep_view()),
            ResolveState::Failed(e) => ResolveView::Failed(e.deep_view()),
        }
    }
}

/// The book that a study guide makes of what the catalog holds.
pub open spec fn book_of(
    guide: StudyGuideView,
    paths: Seq<RawPathView>,
    modules: Seq<RawModuleView>,
    units: Seq<RawUnitView>,
) -> BookView {
    BookView {
        cert_uid: guide.identifier,
        title: guide.title,
        icon_url: guide.icon_url,
        parts: tree::parts_of(paths, modules, units),
    }
}

/// The resolution once the modules are known.
pub open spec fn to_units(
    guide: StudyGuideView,
    paths: Seq<RawPathView>,
    modules: Seq<RawModuleView>,
    locale: Seq<char>,
) -> ResolveView {
    let batch = batch_of("units"@, catalog::wanted_units(modules), locale);
    if batch.open() {
        ResolveView::Units { guide, paths, modules, batch }
    } else {
        ResolveView::Done(book_of(guide, paths, modules, Seq::empty()))
    }
}

/// The resolution once the paths are known: they are put in the order of the study guide.
pub open spec fn to_modules(
    guide: StudyGuideView,
    found: Seq<RawPathView>,
    locale: Seq<char>,
) -> ResolveView {
    let paths = catalog::ordered_first(found, guide.path_uids, guide.path_uids.len());
    let batch = batch_of("modules"@, catalog::wanted_modules(paths), locale);
    if batch.open() {
        ResolveView::Modules { guide, paths, batch }
    } else {
        to_units(guide, paths, Seq::empty(), locale)
    }
}

/// The learning path that a module alone makes: it stands for the module.
pub open spec fn path_of_module(m: RawModuleView) -> RawPathView {
    RawPathView {
        uid: m.uid,
        title: m.title,
        url: m.url,
        icon_url: None,
        duration_in_minutes: m.duration_in_minutes,
        modules: seq![m.uid],
    }
}

/// The resolution once the study guide is known: a book of a module alone goes on to its units.
pub open spec fn to_book(guide: StudyGuideView, locale: Seq<char>) -> ResolveView {
    match guide.single {
        Some(m) => to_units(without_module(guide), seq![path_of_module(m)], seq![m], locale),
        None => to_paths(guide, locale),
    }
}

/// A study guide whose module has been taken.
pub open spec fn without_module(guide: StudyGuideView) -> StudyGuideView {
    StudyGuideView { single: None, ..guide }
}

/// The resolution once the learning paths of the study guide are known.
pub open spec fn to_paths(guide: StudyGuideView, locale: Seq<char>) -> ResolveView {
    let batch = batch_of("learningPaths"@, guide.path_uids, locale);
    if batch.open() {
        ResolveView::Paths { guide, batch }
    } else {
        to_modules(guide, Seq::empty(), locale)
    }
}

/// The resolution after a step of the study guide's.
pub open spec fn from_guide(g: GuideView, locale: Seq<char>) -> ResolveView {
    match g {
        GuideView::Done(guide) => to_book(guide, locale),
        GuideView::Failed(e) => ResolveView::Failed(e),
        _ => ResolveView::Guide(g),
    }
}

/// The resolution's beginning for an input.
pub open spec fn resolve_start(input: Seq<char>, locale: Seq<char>) -> ResolveView {
    from_guide(guide::guide_start(input), locale)
}

impl ResolveView {
    pub open spec fn ended(self) -> bool {
        self is Done || self is Failed
    }

    /// An unfinished round has a URL that is not answered.
    pub open spec fn wf(self) -> bool {
        match self {
            ResolveView::Guide(g) => !g.ended(),
            ResolveView::Paths { batch, .. } => batch.open(),
            ResolveView::Modules { batch, .. } => batch.open(),
            ResolveView::Units { batch, .. } => batch.open(),
            _ => true,
        }
    }

    /// What the resolution asks for.
    pub open spec fn request(self, locale: Seq<char>) -> Option<RequestView> {
        match self {
            ResolveView::Guide(g) => g.request(locale),
            ResolveView::Paths { batch, .. } => Some(
                RequestView::Catalog(batch.urls[batch.answered as int]),
            ),
            ResolveView::Modules { batch, .. } => Some(
                RequestView::Catalog(batch.urls[batch.answered as int]),
            ),
            ResolveView::Units { batch, .. } => Some(
                RequestView::Catalog(batch.urls[batch.answered as int]),
            ),
            _ => None,
        }
    }

    /// The resolution after the catalog's answer.
    pub open spec fn next(
        self,
        reply: Result<CatalogView, ResolveErrorView>,
        locale: Seq<char>,
    ) -> ResolveView {
        match self {
            ResolveView::Guide(g) => from_guide(g.next(reply), locale),
            ResolveView::Paths { guide, batch } => match reply {
                Err(e) => ResolveView::Failed(e),
                Ok(r) => if batch.with(r).open() {
                    ResolveView::Paths { guide, batch: batch.with(r) }
                } else {
                    to_modules(guide, batch.with(r).found.learning_paths, locale)
                },
            },
            ResolveView::Modules { guide, paths, batch } => match reply {
                Err(e) => ResolveView::Failed(e),
                Ok(r) => if batch.with(r).open() {
                    ResolveView::Modules { guide, paths, batch: batch.with(r) }
                } else {
                    to_units(guide, paths, batch.with(r).found.modules, locale)
                },
            },
            ResolveView::Units { guide, paths, modules, batch } => match reply {
                Err(e) => ResolveView::Failed(e),
                Ok(r) => if batch.with(r).open() {
                    ResolveView::Units { guide, paths, modules, batch: batch.with(r) }
                } else {
                    ResolveView::Done(book_of(guide, paths, modules, batch.with(r).found.units))
                },
            },
            _ => self,
        }
    }

    /// The resolution after a page was read, or could not be.
    pub open spec fn next_page(self, page: Option<Seq<char>>, locale: Seq<char>) -> ResolveView {
        match self {
            ResolveView::Guide(g) => from_guide(g.next_page(page), locale),
            _ => self,
        }
    }
}

fn finish_book(
    guide: StudyGuide,
    paths: &Vec<RawPath>,
    modules: &Vec<RawModule>,
    units: &Vec<RawUnit>,
) -> (r: ResolveState)
    ensures
        r.deep_view() == ResolveView::Done(
            book_of(guide.deep_view(), paths.deep_view(), modules.deep_view(), units.deep_view()),
        ),
{
    ResolveState::Done(
        Book {
            cert_uid: guide.identifier,
            title: guide.title,
            icon_url: guide.icon_url,
            parts: tree::part_nodes(paths, modules, units),
        },
    )
}

fn go_to_units(
    guide: StudyGuide,
    paths: Vec<RawPath>,
    modules: Vec<RawModule>,
    locale: &str,
) -> (r: ResolveState)
    ensures
        r.deep_view() == to_units(
            guide.deep_view(),
            paths.deep_view(),
            modules.deep_view(),
            locale@,
        ),
{
    let batch = Batch::start("units", &catalog::unit_uids(&modules), locale);
    if batch.is_open() {
        ResolveState::Units { guide, paths, modules, batch }
    } else {
        let units: Vec<RawUnit> = Vec::new();
        assert(units.deep_view() =~= Seq::<RawUnitView>::empty());
        finish_book(guide, &paths, &modules, &units)
    }
}

fn go_to_modules(guide: StudyGuide, found: &Vec<RawPath>, locale: &str) -> (r: ResolveState)
    ensures
        r.deep_view() == to_modules(guide.deep_view(), found.deep_view(), locale@),
{
    let paths = catalog::order_by(found, &guide.path_uids);
    let batch = Batch::start("modules", &catalog::module_uids(&paths), locale);
    if batch.is_open() {
        ResolveState::Modules { guide, paths, batch }
    } else {
        let modules: Vec<RawModule> = Vec::new();
        assert(modules.deep_view() =~= Seq::<RawModuleView>::empty());
        go_to_units(guide, paths, modules, locale)
    }
}

fn go_to_paths(guide: StudyGuide, locale: &str) -> (r: ResolveState)
    ensures
        r.deep_view() == to_paths(guide.deep_view(), locale@),
{
    let batch = Batch::start("learningPaths", &guide.path_uids, locale);
    if batch.is_open() {
        ResolveState::Paths { guide, batch }
    } else {
        let found: Vec<RawPath> = Vec::new();
        assert(found.deep_view() =~= Seq::<RawPathView>::empty());
        go_to_modules(guide, &found, locale)
    }
}

fn path_for_module(m: &RawModule) -> (r: RawPath)
    ensures
        r.deep_view() == path_of_module(m.deep_view()),
{
    let mut modules: Vec<String> = Vec::new();
    modules.push(m.uid.clone());
    assert(modules.deep_view() =~= seq![m.uid@]);
    RawPath {
        uid: m.uid.clone(),
        title: m.title.clone(),
        url: text::copy_opt_text(&m.url),
        icon_url: None,
        duration_in_minutes: m.duration_in_minutes,
        modules,
    }
}

fn go_to_book(guide: StudyGuide, locale: &str) -> (r: ResolveState)
    ensures
        r.deep_view() == to_book(guide.deep_view(), locale@),
{
    let StudyGuide { title, identifier, icon_url, path_uids, single } = guide;
    match single {
        Some(m) => {
            let mut paths: Vec<RawPath> = Vec::new();
            paths.push(path_for_module(&m));
            let mut modules: Vec<RawModule> = Vec::new();
            modules.push(m);
            assert(paths.deep_view() =~= seq![path_of_module(m.deep_view())]);
            assert(modules.deep_view() =~= seq![m.deep_view()]);
            let rest = StudyGuide { title, identifier, icon_url, path_uids, single: None };
            go_to_units(rest, paths, modules, locale)
        },
        None => go_to_paths(
            StudyGuide { title, identifier, icon_url, path_uids, single: None },
            locale,
        ),
    }
}

fn go_from_guide(g: GuideState, locale: &str) -> (r: ResolveState)
    ensures
        r.deep_view() == from_guide(g.deep_view(), locale@),
{
    match g {
        GuideState::Done(guide) => go_to_book(guide, locale),
        GuideState::Failed(e) => ResolveState::Failed(e),
        other => ResolveState::Guide(other),
    }
}

impl ResolveState {
    /// The resolution's beginning for an input.
    pub fn start(input: &str, locale: &str) -> (r: ResolveState)
        ensures
            r.deep_view() == resolve_start(input@, locale@),
            r.deep_view().wf(),
    {
        go_from_guide(GuideState::start(input), locale)
    }

    /// What to ask for next: nothing once the resolution has ended.
    pub fn request(&self, locale: &str) -> (r: Option<Request>)
        requires
            self.deep_view().wf(),
        ensures
            r.deep_view() == self.deep_view().request(locale@),
    {
        match self {
            ResolveState::Guide(g) => g.request(locale),
            ResolveState::Paths { batch, .. } => batch.request(),
            ResolveState::Modules { batch, .. } => batch.request(),
            ResolveState::Units { batch, .. } => batch.request(),
            ResolveState::Done(_) => None,
            ResolveState::Failed(_) => None,
        }
    }

    /// Takes the catalog's answer.
    pub fn next(self, reply: Result<CatalogResponse, ResolveError>, locale: &str) -> (r:
        ResolveState)
        requires
            self.deep_view().wf(),
        ensures
            r.deep_view() == self.deep_view().next(error::outcome(reply), locale@),
            r.deep_view().wf(),
    {
        match self {
            ResolveState::Guide(g) => go_from_guide(g.next(reply), locale),
            ResolveState::Paths { guide, batch } => match reply {
                Err(e) => ResolveState::Failed(e),
                Ok(resp) => {
                    let b = batch.take(resp);
                    if b.is_open() {
                        ResolveState::Paths { guide, batch: b }
                    } else {
                        go_to_modules(guide, &b.found.learning_paths, locale)
                    }
                },
            },
            ResolveState::Modules { guide, paths, batch } => match reply {
                Err(e) => ResolveState::Failed(e),
                Ok(resp) => {
                    let b = batch.take(resp);
                    if b.is_open() {
                        ResolveState::Modules { guide, paths, batch: b }
                    } else {
                        go_to_units(guide, paths, b.found.modules, locale)
                    }
                },
            },
            ResolveState::Units { guide, paths, modules, batch } => match reply {
                Err(e) => ResolveState::Failed(e),
                Ok(resp) => {
                    let b = batch.take(resp);
                    if b.is_open() {
                        ResolveState::Units { guide, paths, modules, batch: b }
                    } else {
                        finish_book(guide, &paths, &modules, &b.found.units)
                    }
                },
            },
            other => other,
        }
    }

    /// Takes a page, or nothing where it could not be read.
    pub fn next_page(self, page: Option<String>, locale: &str) -> (r: ResolveState)
        requires
            self.deep_view().wf(),
        ensures
            r.deep_view() == self.deep_view().next_page(page.deep_view(), locale@),
            r.deep_view().wf(),
    {
        match self {
            ResolveState::Guide(g) => go_from_guide(g.next_page(page), locale),
            other => other,
        }
    }
}

// ---------------------------------------------------------------------------
// A single module
// ---------------------------------------------------------------------------

/// Where the resolution of a module stands.
#[derive(Debug)]
pub enum ModuleState {
    /// The module is being looked up.
    Lookup { uid: String },
    /// Its units are being fetched.
    Units { module: RawModule, batch: Batch },
    Done(ModuleNode),
    Failed(ResolveError),
}

/// What a [`ModuleState`] holds.
pub enum ModuleStateView {
    Lookup { uid: Seq<char> },
    Units { module: RawModuleView, batch: BatchView },
    Done(ModuleView),
    Failed(ResolveErrorView),
}

impl DeepView for ModuleState {
    type V = ModuleStateView;

    open spec fn deep_view(&self) -> ModuleStateView {
        match self {
            ModuleState::Lookup { uid } => ModuleStateView::Lookup { uid: uid@ },
            ModuleState::Units { module, batch } => ModuleStateView::Units {
                module: module.deep_view(),
                batch: batch.deep_view(),
            },
            ModuleState::Done(m) => ModuleStateView::Done(m.deep_view()),
            ModuleState::Failed(e) => ModuleStateView::Failed(e.deep_view()),
        }
    }
}

/// The first module with that uid, from position `from` on.
pub open spec fn find_module(modules: Seq<RawModuleView>, uid: Seq<char>, from: int) -> Option<
    RawModuleView,
>
    decreases modules.len() - from,
{
    if from < 0 || from >= modules.len() {
        None
    } else if modules[from].uid == uid {
        Some(modules[from])
    } else {
        find_module(modules, uid, from + 1)
    }
}

fn module_position(modules: &Vec<RawModule>, uid: &str) -> (r: Option<usize>)
    ensures
        match r {
            Some(i) => i < modules@.len() && find_module(modules.deep_view(), uid@, 0) == Some(
                modules@[i as int].deep_view(),
            ),
            None => find_module(modules.deep_view(), uid@, 0) is None,
        },
{
    let ghost all = modules.deep_view();
    let n: usize = modules.len();
    for i in 0..n
        invariant
            n == modules@.len(),
            all == modules.deep_view(),
            find_module(all, uid@, 0) == find_module(all, uid@, i as int),
    {
        assert(all[i as int] == modules@[i as int].deep_view());
        if text::same_text(modules[i].uid.as_str(), uid) {
            return Some(i);
        }
    }
    None
}

/// The resolution once the module is known.
pub open spec fn module_found(module: RawModuleView, locale: Seq<char>) -> ModuleStateView {
    let batch = batch_of("units"@, module.units, locale);
    if batch.open() {
        ModuleStateView::Units { module, batch }
    } else {
        ModuleStateView::Done(tree::module_of(module, Seq::empty()))
    }
}

impl ModuleStateView {
    pub open spec fn ended(self) -> bool {
        self is Done || self is Failed
    }

    pub open spec fn wf(self) -> bool {
        self matches ModuleStateView::Units { batch, .. } ==> batch.open()
    }

    /// The URL that the resolution asks for.
    pub open spec fn request(self, locale: Seq<char>) -> Option<RequestView> {
        match self {
            ModuleStateView::Lookup { uid } => Some(
                RequestView::Catalog(catalog::query_url("modules"@, seq![uid], locale)),
            ),
            ModuleStateView::Units { batch, .. } => Some(
                RequestView::Catalog(batch.urls[batch.answered as int]),
            ),
            _ => None,
        }
    }

    /// The resolution after the catalog's answer.
    pub open spec fn next(
        self,
        reply: Result<CatalogView, ResolveErrorView>,
        locale: Seq<char>,
    ) -> ModuleStateView {
        match self {
            ModuleStateView::Lookup { uid } => match reply {
                Err(e) => ModuleStateView::Failed(e),
                Ok(r) => match find_module(r.modules, uid, 0) {
                    Some(module) => module_found(module, locale),
                    None => ModuleStateView::Failed(ResolveErrorView::ModuleNotFound(uid)),
                },
            },
            ModuleStateView::Units { module, batch } => match reply {
                Err(e) => ModuleStateView::Failed(e),
                Ok(r) => if batch.with(r).open() {
                    ModuleStateView::Units { module, batch: batch.with(r) }
                } else {
                    ModuleStateView::Done(tree::module_of(module, batch.with(r).found.units))
                },
            },
            _ => self,
        }
    }
}

impl ModuleState {
    /// The resolution's beginning for a module's uid.
    pub fn start(uid: &str) -> (r: ModuleState)
        ensures
            r.deep_view() == (ModuleStateView::Lookup { uid: uid@ }),
            r.deep_view().wf(),
    {
        ModuleState::Lookup { uid: uid.to_owned() }
    }

    /// What to ask for next: nothing once the resolution has ended.
    pub fn request(&self, locale: &str) -> (r: Option<Request>)
        requires
            self.deep_view().wf(),
        ensures
            r.deep_view() == self.deep_view().request(locale@),
    {
        match self {
            ModuleState::Lookup { uid } => Some(
                Request::Catalog(catalog::url_of_one("modules", uid.as_str(), locale)),
            ),
            ModuleState::Units { batch, .. } => batch.request(),
            ModuleState::Done(_) => None,
            ModuleState::Failed(_) => None,
        }
    }

    /// Takes the catalog's answer.
    pub fn next(self, reply: Result<CatalogResponse, ResolveError>, locale: &str) -> (r:
        ModuleState)
        requires
            self.deep_view().wf(),
        ensures
            r.deep_view() == self.deep_view().next(error::outcome(reply), locale@),
            r.deep_view().wf(),
    {
        match self {
            ModuleState::Lookup { uid } => match reply {
                Err(e) => ModuleState::Failed(e),
                Ok(mut resp) => match module_position(&resp.modules, uid.as_str()) {
                    Some(i) => {
                        let module = resp.modules.remove(i);
                        let batch = Batch::start("units", &module.units, locale);
                        if batch.is_open() {
                            ModuleState::Units { module, batch }
                        } else {
                            let units: Vec<RawUnit> = Vec::new();
                            assert(units.deep_view() =~= Seq::<RawUnitView>::empty());
                            ModuleState::Done(tree::module_node(&module, &units))
                        }
                    },
                    None => ModuleState::Failed(ResolveError::ModuleNotFound(uid)),
                },
            },
            ModuleState::Units { module, batch } => match reply {
                Err(e) => ModuleState::Failed(e),
                Ok(resp) => {
                    let b = batch.take(resp);
                    if b.is_open() {
                        ModuleState::Units { module, batch: b }
                    } else {
                        ModuleState::Done(tree::module_node(&module, &b.found.units))
                    }
                },
            },
            other => other,
        }
    }
}

// ---------------------------------------------------------------------------
// Laws
// ---------------------------------------------------------------------------

/// What the first `n` URLs bring, one answer after the other: the first error ends it.
pub open spec fn collected(
    catalog: spec_fn(Seq<char>) -> Result<CatalogView, ResolveErrorView>,
    urls: Seq<Seq<char>>,
    n: nat,
) -> Result<CatalogView, ResolveErrorView>
    decreases n,
{
    if n == 0 {
        Ok(CatalogView::empty())
    } else {
        match collected(catalog, urls, (n - 1) as nat) {
            Err(e) => Err(e),
            Ok(found) => match catalog(urls[n - 1]) {
                Err(e) => Err(e),
                Ok(r) => Ok(found.joined(r)),
            },
        }
    }
}

/// What the catalog holds of those uids.
pub open spec fn fetched(
    catalog: spec_fn(Seq<char>) -> Result<CatalogView, ResolveErrorView>,
    content_type: Seq<char>,
    uids: Seq<Seq<char>>,
    locale: Seq<char>,
) -> Result<CatalogView, ResolveErrorView> {
    let urls = catalog::batch_urls(content_type, uids, locale);
    collected(catalog, urls, urls.len())
}

/// The book of a study guide whose paths and modules are known.
pub open spec fn book_with_modules(
    catalog: spec_fn(Seq<char>) -> Result<CatalogView, ResolveErrorView>,
    guide: StudyGuideView,
    paths: Seq<RawPathView>,
    modules: Seq<RawModuleView>,
    locale: Seq<char>,
) -> Result<BookView, ResolveErrorView> {
    match fetched(catalog, "units"@, catalog::wanted_units(modules), locale) {
        Err(e) => Err(e),
        Ok(c) => Ok(book_of(guide, paths, modules, c.units)),
    }
}

/// The book of a study guide whose paths were found.
pub open spec fn book_with_paths(
    catalog: spec_fn(Seq<char>) -> Result<CatalogView, ResolveErrorView>,
    guide: StudyGuideView,
    found: Seq<RawPathView>,
    locale: Seq<char>,
) -> Result<BookView, ResolveErrorView> {
    let paths = catalog::ordered_first(found, guide.path_uids, guide.path_uids.len());
    match fetched(catalog, "modules"@, catalog::wanted_modules(paths), locale) {
        Err(e) => Err(e),
        Ok(b) => book_with_modules(catalog, guide, paths, b.modules, locale),
    }
}

/// The book of a study guide: its paths in the guide's order, their modules and the modules'
/// units, or the module that it is made of.
pub open spec fn book_of_guide(
    catalog: spec_fn(Seq<char>) -> Result<CatalogView, ResolveErrorView>,
    guide: StudyGuideView,
    locale: Seq<char>,
) -> Result<BookView, ResolveErrorView> {
    match guide.single {
        Some(m) => book_with_modules(
            catalog,
            without_module(guide),
            seq![path_of_module(m)],
            seq![m],
            locale,
        ),
        None => match fetched(catalog, "learningPaths"@, guide.path_uids, locale) {
            Err(e) => Err(e),
            Ok(a) => book_with_paths(catalog, guide, a.learning_paths, locale),
        },
    }
}

/// The book of an input: that of its study guide.
pub open spec fn resolved_book(
    catalog: spec_fn(Seq<char>) -> Result<CatalogView, ResolveErrorView>,
    page: spec_fn(Seq<char>) -> Option<Seq<char>>,
    input: Seq<char>,
    locale: Seq<char>,
) -> Result<BookView, ResolveErrorView> {
    match guide::study_guide(catalog, page, input, locale) {
        Err(e) => Err(e),
        Ok(g) => book_of_guide(catalog, g, locale),
    }
}

impl ResolveView {
    /// The stages that are left.
    pub open spec fn stages_left(self) -> nat {
        match self {
            ResolveView::Guide(_) => 4,
            ResolveView::Paths { .. } => 3,
            ResolveView::Modules { .. } => 2,
            ResolveView::Units { .. } => 1,
            _ => 0,
        }
    }

    /// The answers that the stage can still take, at most.
    pub open spec fn answers_left(self) -> nat {
        match self {
            ResolveView::Guide(g) => g.steps_left(),
            ResolveView::Paths { batch, .. } => (batch.urls.len() - batch.answered) as nat,
            ResolveView::Modules { batch, .. } => (batch.urls.len() - batch.answered) as nat,
            ResolveView::Units { batch, .. } => (batch.urls.len() - batch.answered) as nat,
            _ => 0,
        }
    }

    pub open spec fn outcome(self) -> Result<BookView, ResolveErrorView> {
        match self {
            ResolveView::Done(b) => Ok(b),
            ResolveView::Failed(e) => Err(e),
            _ => arbitrary(),
        }
    }
}

/// `a` is closer to the end than `b`.
pub open spec fn closer(a: ResolveView, b: ResolveView) -> bool {
    ||| a.stages_left() < b.stages_left()
    ||| a.stages_left() == b.stages_left() && a.answers_left() < b.answers_left()
}

/// Every answer brings a resolution closer to its end, whatever it is.
pub proof fn law_resolution_ends(
    state: ResolveView,
    reply: Result<CatalogView, ResolveErrorView>,
    page: Option<Seq<char>>,
    locale: Seq<char>,
)
    requires
        state.wf(),
    ensures
        state.request(locale) is None <==> state.ended(),
        state.request(locale) matches Some(RequestView::Catalog(_)) ==> closer(
            state.next(reply, locale),
            state,
        ) && state.next(reply, locale).wf(),
        state.request(locale) matches Some(RequestView::Page(_)) ==> closer(
            state.next_page(page, locale),
            state,
        ) && state.next_page(page, locale).wf(),
{
    if let ResolveView::Guide(g) = state {
        guide::law_chain_ends(g, reply, page, locale);
    }
}

/// The outcome of a resolution that is answered by `catalog` and `page` until it ends.
pub open spec fn run(
    state: ResolveView,
    catalog: spec_fn(Seq<char>) -> Result<CatalogView, ResolveErrorView>,
    page: spec_fn(Seq<char>) -> Option<Seq<char>>,
    locale: Seq<char>,
) -> Result<BookView, ResolveErrorView>
    decreases state.stages_left(), state.answers_left(),
{
    if !state.wf() {
        state.outcome()
    } else {
        match state.request(locale) {
            Some(RequestView::Catalog(url)) => {
                proof {
                    law_resolution_ends(state, catalog(url), None, locale);
                }
                run(state.next(catalog(url), locale), catalog, page, locale)
            },
            Some(RequestView::Page(url)) => {
                proof {
                    law_resolution_ends(state, Ok(CatalogView::empty()), page(url), locale);
                }
                run(state.next_page(page(url), locale), catalog, page, locale)
            },
            None => state.outcome(),
        }
    }
}

proof fn lemma_collected_error(
    catalog: spec_fn(Seq<char>) -> Result<CatalogView, ResolveErrorView>,
    urls: Seq<Seq<char>>,
    k: nat,
    n: nat,
)
    requires
        k <= n,
        collected(catalog, urls, k) is Err,
    ensures
        collected(catalog, urls, n) == collected(catalog, urls, k),
    decreases n,
{
    if k < n {
        lemma_collected_error(catalog, urls, k, (n - 1) as nat);
    }
}

proof fn lemma_run_step(
    catalog: spec_fn(Seq<char>) -> Result<CatalogView, ResolveErrorView>,
    page: spec_fn(Seq<char>) -> Option<Seq<char>>,
    state: ResolveView,
    url: Seq<char>,
    locale: Seq<char>,
)
    requires
        state.wf(),
        state.request(locale) == Some(RequestView::Catalog(url)),
    ensures
        run(state, catalog, page, locale) == run(
            state.next(catalog(url), locale),
            catalog,
            page,
            locale,
        ),
{
}

proof fn lemma_run_ended(
    catalog: spec_fn(Seq<char>) -> Result<CatalogView, ResolveErrorView>,
    page: spec_fn(Seq<char>) -> Option<Seq<char>>,
    state: ResolveView,
    locale: Seq<char>,
)
    requires
        state.ended(),
    ensures
        run(state, catalog, page, locale) == state.outcome(),
{
}

proof fn lemma_run_units(
    catalog: spec_fn(Seq<char>) -> Result<CatalogView, ResolveErrorView>,
    page: spec_fn(Seq<char>) -> Option<Seq<char>>,
    guide: StudyGuideView,
    paths: Seq<RawPathView>,
    modules: Seq<RawModuleView>,
    batch: BatchView,
    locale: Seq<char>,
)
    requires
        batch.open(),
        collected(catalog, batch.urls, batch.answered) == Ok::<CatalogView, ResolveErrorView>(
            batch.found,
        ),
    ensures
        run(ResolveView::Units { guide, paths, modules, batch }, catalog, page, locale) == (
        match collected(catalog, batch.urls, batch.urls.len()) {
            Err(e) => Err(e),
            Ok(c) => Ok(book_of(guide, paths, modules, c.units)),
        }),
    decreases batch.urls.len() - batch.answered,
{
    let url = batch.urls[batch.answered as int];
    let state = ResolveView::Units { guide, paths, modules, batch };
    lemma_run_step(catalog, page, state, url, locale);
    match catalog(url) {
        Err(e) => {
            lemma_run_ended(catalog, page, state.next(catalog(url), locale), locale);
            lemma_collected_error(catalog, batch.urls, batch.answered + 1, batch.urls.len());
        },
        Ok(r) => {
            if batch.with(r).open() {
                lemma_run_units(catalog, page, guide, paths, modules, batch.with(r), locale);
            } else {
                lemma_run_ended(catalog, page, state.next(catalog(url), locale), locale);
            }
        },
    }
}

proof fn lemma_run_to_units(
    catalog: spec_fn(Seq<char>) -> Result<CatalogView, ResolveErrorView>,
    page: spec_fn(Seq<char>) -> Option<Seq<char>>,
    guide: StudyGuideView,
    paths: Seq<RawPathView>,
    modules: Seq<RawModuleView>,
    locale: Seq<char>,
)
    ensures
        run(to_units(guide, paths, modules, locale), catalog, page, locale) == book_with_modules(
            catalog,
            guide,
            paths,
            modules,
            locale,
        ),
{
    let batch = batch_of("units"@, catalog::wanted_units(modules), locale);
    if batch.open() {
        lemma_run_units(catalog, page, guide, paths, modules, batch, locale);
    }
}

proof fn lemma_run_modules(
    catalog: spec_fn(Seq<char>) -> Result<CatalogView, ResolveErrorView>,
    page: spec_fn(Seq<char>) -> Option<Seq<char>>,
    guide: StudyGuideView,
    paths: Seq<RawPathView>,
    batch: BatchView,
    locale: Seq<char>,
)
    requires
        batch.open(),
        collected(catalog, batch.urls, batch.answered) == Ok::<CatalogView, ResolveErrorView>(
            batch.found,
        ),
    ensures
        run(ResolveView::Modules { guide, paths, batch }, catalog, page, locale) == (
        match collected(catalog, batch.urls, batch.urls.len()) {
            Err(e) => Err(e),
            Ok(b) => book_with_modules(catalog, guide, paths, b.modules, locale),
        }),
    decreases batch.urls.len() - batch.answered,
{
    let url = batch.urls[batch.answered as int];
    let state = ResolveView::Modules { guide, paths, batch };
    lemma_run_step(catalog, page, state, url, locale);
    match catalog(url) {
        Err(e) => {
            lemma_run_ended(catalog, page, state.next(catalog(url), locale), locale);
            lemma_collected_error(catalog, batch.urls, batch.answered + 1, batch.urls.len());
        },
        Ok(r) => {
            if batch.with(r).open() {
                lemma_run_modules(catalog, page, guide, paths, batch.with(r), locale);
            } else {
                lemma_run_to_units(
                    catalog,
                    page,
                    guide,
                    paths,
                    batch.with(r).found.modules,
                    locale,
                );
            }
        },
    }
}

proof fn lemma_run_to_modules(
    catalog: spec_fn(Seq<char>) -> Result<CatalogView, ResolveErrorView>,
    page: spec_fn(Seq<char>) -> Option<Seq<char>>,
    guide: StudyGuideView,
    found: Seq<RawPathView>,
    locale: Seq<char>,
)
    ensures
        run(to_modules(guide, found, locale), catalog, page, locale) == book_with_paths(
            catalog,
            guide,
            found,
            locale,
        ),
{
    let paths = catalog::ordered_first(found, guide.path_uids, guide.path_uids.len());
    let batch = batch_of("modules"@, catalog::wanted_modules(paths), locale);
    if batch.open() {
        lemma_run_modules(catalog, page, guide, paths, batch, locale);
    } else {
        lemma_run_to_units(catalog, page, guide, paths, Seq::empty(), locale);
    }
}

proof fn lemma_run_paths(
    catalog: spec_fn(Seq<char>) -> Result<CatalogView, ResolveErrorView>,
    page: spec_fn(Seq<char>) -> Option<Seq<char>>,
    guide: StudyGuideView,
    batch: BatchView,
    locale: Seq<char>,
)
    requires
        batch.open(),
        collected(catalog, batch.urls, batch.answered) == Ok::<CatalogView, ResolveErrorView>(
            batch.found,
        ),
    ensures
        run(ResolveView::Paths { guide, batch }, catalog, page, locale) == (match collected(
            catalog,
            batch.urls,
            batch.urls.len(),
        ) {
            Err(e) => Err(e),
            Ok(a) => book_with_paths(catalog, guide, a.learning_paths, locale),
        }),
    decreases batch.urls.len() - batch.answered,
{
    let url = batch.urls[batch.answered as int];
    let state = ResolveView::Paths { guide, batch };
    lemma_run_step(catalog, page, state, url, locale);
    match catalog(url) {
        Err(e) => {
            lemma_run_ended(catalog, page, state.next(catalog(url), locale), locale);
            lemma_collected_error(catalog, batch.urls, batch.answered + 1, batch.urls.len());
        },
        Ok(r) => {
            if batch.with(r).open() {
                lemma_run_paths(catalog, page, guide, batch.with(r), locale);
            } else {
                lemma_run_to_modules(
                    catalog,
                    page,
                    guide,
                    batch.with(r).found.learning_paths,
                    locale,
                );
            }
        },
    }
}

proof fn lemma_run_guide(
    catalog: spec_fn(Seq<char>) -> Result<CatalogView, ResolveErrorView>,
    page: spec_fn(Seq<char>) -> Option<Seq<char>>,
    g: GuideView,
    locale: Seq<char>,
)
    ensures
        run(from_guide(g, locale), catalog, page, locale) == (match guide::run(
            g,
            catalog,
            page,
            locale,
        ) {
            Err(e) => Err(e),
            Ok(sg) => book_of_guide(catalog, sg, locale),
        }),
    decreases g.steps_left(),
{
    match g {
        GuideView::Failed(e) => {},
        GuideView::Done(sg) => {
            let batch = batch_of("learningPaths"@, sg.path_uids, locale);
            if let Some(m) = sg.single {
                lemma_run_to_units(
                    catalog,
                    page,
                    without_module(sg),
                    seq![path_of_module(m)],
                    seq![m],
                    locale,
                );
            } else if batch.open() {
                lemma_run_paths(catalog, page, sg, batch, locale);
            } else {
                lemma_run_to_modules(catalog, page, sg, Seq::empty(), locale);
            }
        },
        _ => {
            match g.request(locale) {
                Some(RequestView::Catalog(url)) => {
                    guide::law_chain_ends(g, catalog(url), None, locale);
                    lemma_run_guide(catalog, page, g.next(catalog(url)), locale);
                },
                Some(RequestView::Page(url)) => {
                    guide::law_chain_ends(g, Ok(CatalogView::empty()), page(url), locale);
                    lemma_run_guide(catalog, page, g.next_page(page(url)), locale);
                },
                None => {},
            }
        },
    }
}

/// A resolution finds the book: answered by any catalog and any pages until it ends, it comes to
/// what the definition of a resolved book says of them.
pub proof fn law_resolution_finds_the_book(
    catalog: spec_fn(Seq<char>) -> Result<CatalogView, ResolveErrorView>,
    page: spec_fn(Seq<char>) -> Option<Seq<char>>,
    input: Seq<char>,
    locale: Seq<char>,
)
    ensures
        run(resolve_start(input, locale), catalog, page, locale) == resolved_book(
            catalog,
            page,
            input,
            locale,
        ),
{
    lemma_run_guide(catalog, page, guide::guide_start(input), locale);
    guide::law_chain_finds_the_guide(catalog, page, input, locale);
}

/// A module alone is a book of one part, which holds that module with its units.
pub proof fn law_a_module_is_a_book(
    guide: StudyGuideView,
    m: RawModuleView,
    units: Seq<RawUnitView>,
)
    ensures
        ({
            let book = book_of(guide, seq![path_of_module(m)], seq![m], units);
            &&& book.parts.len() == 1
            &&& book.parts[0].title == m.title
            &&& book.parts[0].modules == seq![tree::module_of(m, units)]
        }),
{
    let book = book_of(guide, seq![path_of_module(m)], seq![m], units);
    let path = path_of_module(m);
    assert(book.parts[0] == tree::part_of(path, seq![m], units));
    reveal_with_fuel(tree::modules_named, 2);
    assert(book.parts[0].modules =~= seq![tree::module_of(m, units)]);
}

/// The module of a uid: what the catalog holds of it and of its units.
pub open spec fn resolved_module(
    catalog: spec_fn(Seq<char>) -> Result<CatalogView, ResolveErrorView>,
    uid: Seq<char>,
    locale: Seq<char>,
) -> Result<ModuleView, ResolveErrorView> {
    match catalog(catalog::query_url("modules"@, seq![uid], locale)) {
        Err(e) => Err(e),
        Ok(r) => match find_module(r.modules, uid, 0) {
            None => Err(ResolveErrorView::ModuleNotFound(uid)),
            Some(m) => match fetched(catalog, "units"@, m.units, locale) {
                Err(e) => Err(e),
                Ok(c) => Ok(tree::module_of(m, c.units)),
            },
        },
    }
}

impl ModuleStateView {
    /// The answers that the resolution can still take, at most, once the module is known.
    pub open spec fn answers_left(self) -> nat {
        match self {
            ModuleStateView::Units { batch, .. } => (batch.urls.len() - batch.answered) as nat,
            _ => 0,
        }
    }

    pub open spec fn outcome(self) -> Result<ModuleView, ResolveErrorView> {
        match self {
            ModuleStateView::Done(m) => Ok(m),
            ModuleStateView::Failed(e) => Err(e),
            _ => arbitrary(),
        }
    }
}

/// The outcome of a module's resolution that is answered by `catalog` until it ends.
pub open spec fn run_module(
    state: ModuleStateView,
    catalog: spec_fn(Seq<char>) -> Result<CatalogView, ResolveErrorView>,
    locale: Seq<char>,
) -> Result<ModuleView, ResolveErrorView>
    decreases
            if state is Lookup {
                1int
            } else {
                0int
            },
            state.answers_left(),
{
    if !state.wf() {
        state.outcome()
    } else {
        match state.request(locale) {
            Some(RequestView::Catalog(url)) => run_module(
                state.next(catalog(url), locale),
                catalog,
                locale,
            ),
            _ => state.outcome(),
        }
    }
}

proof fn lemma_run_module_units(
    catalog: spec_fn(Seq<char>) -> Result<CatalogView, ResolveErrorView>,
    module: RawModuleView,
    batch: BatchView,
    locale: Seq<char>,
)
    requires
        batch.open(),
        collected(catalog, batch.urls, batch.answered) == Ok::<CatalogView, ResolveErrorView>(
            batch.found,
        ),
    ensures
        run_module(ModuleStateView::Units { module, batch }, catalog, locale) == (match collected(
            catalog,
            batch.urls,
            batch.urls.len(),
        ) {
            Err(e) => Err(e),
            Ok(c) => Ok(tree::module_of(module, c.units)),
        }),
    decreases batch.urls.len() - batch.answered,
{
    reveal_with_fuel(run_module, 2);
    match catalog(batch.urls[batch.answered as int]) {
        Err(e) => {
            lemma_collected_error(catalog, batch.urls, batch.answered + 1, batch.urls.len());
        },
        Ok(r) => {
            if batch.with(r).open() {
                lemma_run_module_units(catalog, module, batch.with(r), locale);
            }
        },
    }
}

/// A module's resolution finds the module: answered by any catalog until it ends, it comes to
/// what the definition of a resolved module says of it.
pub proof fn law_resolution_finds_the_module(
    catalog: spec_fn(Seq<char>) -> Result<CatalogView, ResolveErrorView>,
    uid: Seq<char>,
    locale: Seq<char>,
)
    ensures
        run_module(ModuleStateView::Lookup { uid }, catalog, locale) == resolved_module(
            catalog,
            uid,
            locale,
        ),
{
    reveal_with_fuel(run_module, 2);
    match catalog(catalog::query_url("modules"@, seq![uid], locale)) {
        Err(e) => {},
        Ok(r) => {
            if let Some(m) = find_module(r.modules, uid, 0) {
                let batch = batch_of("units"@, m.units, locale);
                if batch.open() {
                    lemma_run_module_units(catalog, m, batch, locale);
                }
            }
        },
    }
}

/// What was collected of some URLs is what each of them was answered with, and nothing else.
pub proof fn law_every_answer_is_collected(
    catalog: spec_fn(Seq<char>) -> Result<CatalogView, ResolveErrorView>,
    urls: Seq<Seq<char>>,
    n: nat,
    i: int,
)
    requires
        collected(catalog, urls, n) is Ok,
        0 <= i < n,
    ensures
        catalog(urls[i]) is Ok,
        forall|x: RawPathView|
            catalog(urls[i])->Ok_0.learning_paths.contains(x) ==> #[trigger] collected(
                catalog,
                urls,
                n,
            )->Ok_0.learning_paths.contains(x),
        forall|x: RawModuleView|
            catalog(urls[i])->Ok_0.modules.contains(x) ==> #[trigger] collected(
                catalog,
                urls,
                n,
            )->Ok_0.modules.contains(x),
        forall|x: RawUnitView|
            catalog(urls[i])->Ok_0.units.contains(x) ==> #[trigger] collected(
                catalog,
                urls,
                n,
            )->Ok_0.units.contains(x),
    decreases n,
{
    let found = collected(catalog, urls, (n - 1) as nat)->Ok_0;
    let r = catalog(urls[n - 1])->Ok_0;
    let all = collected(catalog, urls, n)->Ok_0;
    catalog::law_an_answer_is_added(found, r);
    if i < n - 1 {
        law_every_answer_is_collected(catalog, urls, (n - 1) as nat, i);
    }
    assert forall|x: RawPathView|
        catalog(urls[i])->Ok_0.learning_paths.contains(x) implies #[trigger] all.learning_paths.contains(
        x,
    ) by {
        lemma_both_contain(all.learning_paths, found.learning_paths, r.learning_paths, x);
    }
    assert forall|x: RawModuleView| catalog(urls[i])->Ok_0.modules.contains(x) implies #[trigger] all.modules.contains(
        x,
    ) by {
        lemma_both_contain(all.modules, found.modules, r.modules, x);
    }
    assert forall|x: RawUnitView| catalog(urls[i])->Ok_0.units.contains(x) implies #[trigger] all.units.contains(
        x,
    ) by {
        lemma_both_contain(all.units, found.units, r.units, x);
    }
}

proof fn lemma_both_contain<T>(all: Seq<T>, a: Seq<T>, b: Seq<T>, x: T)
    requires
        catalog::is_both(all, a, b),
    ensures
        all.contains(x) <==> a.contains(x) || b.contains(x),
{
    if a.contains(x) {
        let i = choose|i: int| 0 <= i < a.len() && a[i] == x;
        assert(all[i] == x);
    }
    if b.contains(x) {
        let i = choose|i: int| 0 <= i < b.len() && b[i] == x;
        assert(all[a.len() + i] == x);
    }
    if all.contains(x) {
        let i = choose|i: int| 0 <= i < all.len() && all[i] == x;
        if i < a.len() {
            assert(a[i] == x);
        } else {
            assert(b[i - a.len()] == x);
        }
    }
}

/// Where the catalog answers a query for modules, it answers with a module of every uid that it
/// was asked for.
pub open spec fn answers_for_modules(
    catalog: spec_fn(Seq<char>) -> Result<CatalogView, ResolveErrorView>,
    locale: Seq<char>,
) -> bool {
    forall|uids: Seq<Seq<char>>, uid: Seq<char>|
        catalog(#[trigger] catalog::query_url("modules"@, uids, locale)) is Ok
            && #[trigger] uids.contains(uid) && !uid.contains(',') ==> exists|i: int|
            0 <= i < catalog(catalog::query_url("modules"@, uids, locale))->Ok_0.modules.len() && (
            #[trigger] catalog(catalog::query_url("modules"@, uids, locale))->Ok_0.modules[i]).uid
                == uid
}

proof fn lemma_fetched_module(
    catalog: spec_fn(Seq<char>) -> Result<CatalogView, ResolveErrorView>,
    uids: Seq<Seq<char>>,
    locale: Seq<char>,
    uid: Seq<char>,
) -> (i: int)
    requires
        answers_for_modules(catalog, locale),
        fetched(catalog, "modules"@, uids, locale) is Ok,
        uids.contains(uid),
        !uid.contains(','),
    ensures
        0 <= i < fetched(catalog, "modules"@, uids, locale)->Ok_0.modules.len(),
        fetched(catalog, "modules"@, uids, locale)->Ok_0.modules[i].uid == uid,
{
    let asked = catalog::fetchable(uids);
    let urls = catalog::batch_urls("modules"@, uids, locale);
    catalog::law_fetchable(uids, uid);
    let at = choose|at: int| 0 <= at < asked.len() && asked[at] == uid;
    let k = catalog::law_every_uid_is_in_a_chunk(asked, at);
    let chunk = catalog::chunk_at(asked, k);
    let url = catalog::query_url("modules"@, chunk, locale);
    assert(urls[k] == url);
    law_every_answer_is_collected(catalog, urls, urls.len(), k);
    let r = catalog(url)->Ok_0;
    assert(chunk.contains(uid));
    let j = choose|j: int| 0 <= j < r.modules.len() && (#[trigger] r.modules[j]).uid == uid;
    let all = collected(catalog, urls, urls.len())->Ok_0.modules;
    assert(r.modules.contains(r.modules[j]));
    assert(all.contains(r.modules[j]));
    choose|i: int| 0 <= i < all.len() && all[i] == r.modules[j]
}

/// However many queries it takes, no module gets lost: where the catalog answers every query for
/// modules with those that it was asked for, the resolved book has a part for each learning path
/// of the study guide that was found, in the guide's order, and every module that the path
/// references (one whose uid has a comma cannot be asked for) is in that part.
pub proof fn law_every_module_is_in_its_part(
    catalog: spec_fn(Seq<char>) -> Result<CatalogView, ResolveErrorView>,
    page: spec_fn(Seq<char>) -> Option<Seq<char>>,
    guide: StudyGuideView,
    locale: Seq<char>,
    book: BookView,
    p: int,
    k: int,
) -> (j: int)
    requires
        guide.single is None,
        run(to_book(guide, locale), catalog, page, locale) == Ok::<BookView, ResolveErrorView>(
            book,
        ),
        answers_for_modules(catalog, locale),
        ({
            let found = fetched(catalog, "learningPaths"@, guide.path_uids, locale);
            let paths = catalog::ordered_first(
                found->Ok_0.learning_paths,
                guide.path_uids,
                guide.path_uids.len(),
            );
            &&& 0 <= p < paths.len()
            &&& 0 <= k < paths[p].modules.len()
            &&& !paths[p].modules[k].contains(',')
        }),
    ensures
        ({
            let found = fetched(catalog, "learningPaths"@, guide.path_uids, locale);
            let paths = catalog::ordered_first(
                found->Ok_0.learning_paths,
                guide.path_uids,
                guide.path_uids.len(),
            );
            &&& found is Ok
            &&& book.parts.len() == paths.len()
            &&& book.parts[p].uid == paths[p].uid
            &&& 0 <= j < book.parts[p].modules.len()
            &&& book.parts[p].modules[j].uid == paths[p].modules[k]
        }),
{
    lemma_run_guide(catalog, page, GuideView::Done(guide), locale);
    let found = fetched(catalog, "learningPaths"@, guide.path_uids, locale);
    let paths = catalog::ordered_first(
        found->Ok_0.learning_paths,
        guide.path_uids,
        guide.path_uids.len(),
    );
    let wanted = catalog::wanted_modules(paths);
    let uid = paths[p].modules[k];
    let b = fetched(catalog, "modules"@, wanted, locale);
    catalog::law_wanted_modules(paths, uid);
    assert(paths[p].modules.contains(uid));
    let i = lemma_fetched_module(catalog, wanted, locale, uid);
    let modules = b->Ok_0.modules;
    let units = fetched(catalog, "units"@, catalog::wanted_units(modules), locale)->Ok_0.units;
    tree::law_a_part_for_each_path(paths, modules, units);
    tree::law_a_part_is_its_path(paths[p], modules, units);
    tree::law_no_module_is_dropped(paths[p], modules, units, k, i)
}

/// The book has the study guide's name and badge.
pub proof fn law_book_is_named_by_its_guide(
    guide: StudyGuideView,
    paths: Seq<RawPathView>,
    modules: Seq<RawModuleView>,
    units: Seq<RawUnitView>,
)
    ensures
        book_of(guide, paths, modules, units).cert_uid == guide.identifier,
        book_of(guide, paths, modules, units).title == guide.title,
        book_of(guide, paths, modules, units).icon_url == guide.icon_url,
        book_of(guide, paths, modules, units).parts.len() == paths.len(),
{
}

/// Where the catalog answers a query for units, it answers with a unit of every uid that it was
/// asked for.
pub open spec fn answers_for_units(
    catalog: spec_fn(Seq<char>) -> Result<CatalogView, ResolveErrorView>,
    locale: Seq<char>,
) -> bool {
    forall|uids: Seq<Seq<char>>, uid: Seq<char>|
        catalog(#[trigger] catalog::query_url("units"@, uids, locale)) is Ok
            && #[trigger] uids.contains(uid) && !uid.contains(',') ==> exists|i: int|
            0 <= i < catalog(catalog::query_url("units"@, uids, locale))->Ok_0.units.len() && (
            #[trigger] catalog(catalog::query_url("units"@, uids, locale))->Ok_0.units[i]).uid
                == uid
}

proof fn lemma_fetched_unit(
    catalog: spec_fn(Seq<char>) -> Result<CatalogView, ResolveErrorView>,
    uids: Seq<Seq<char>>,
    locale: Seq<char>,
    uid: Seq<char>,
) -> (i: int)
    requires
        answers_for_units(catalog, locale),
        fetched(catalog, "units"@, uids, locale) is Ok,
        uids.contains(uid),
        !uid.contains(','),
    ensures
        0 <= i < fetched(catalog, "units"@, uids, locale)->Ok_0.units.len(),
        fetched(catalog, "units"@, uids, locale)->Ok_0.units[i].uid == uid,
{
    let asked = catalog::fetchable(uids);
    let urls = catalog::batch_urls("units"@, uids, locale);
    catalog::law_fetchable(uids, uid);
    let at = choose|at: int| 0 <= at < asked.len() && asked[at] == uid;
    let k = catalog::law_every_uid_is_in_a_chunk(asked, at);
    let chunk = catalog::chunk_at(asked, k);
    let url = catalog::query_url("units"@, chunk, locale);
    assert(urls[k] == url);
    law_every_answer_is_collected(catalog, urls, urls.len(), k);
    let r = catalog(url)->Ok_0;
    assert(chunk.contains(uid));
    let j = choose|j: int| 0 <= j < r.units.len() && (#[trigger] r.units[j]).uid == uid;
    let all = collected(catalog, urls, urls.len())->Ok_0.units;
    assert(r.units.contains(r.units[j]));
    assert(all.contains(r.units[j]));
    choose|i: int| 0 <= i < all.len() && all[i] == r.units[j]
}

/// What was collected of some URLs was answered to one of them.
pub proof fn law_only_answers_are_collected(
    catalog: spec_fn(Seq<char>) -> Result<CatalogView, ResolveErrorView>,
    urls: Seq<Seq<char>>,
    n: nat,
    x: RawUnitView,
) -> (i: int)
    requires
        collected(catalog, urls, n) is Ok,
        collected(catalog, urls, n)->Ok_0.units.contains(x),
    ensures
        0 <= i < n,
        catalog(urls[i]) is Ok,
        catalog(urls[i])->Ok_0.units.contains(x),
    decreases n,
{
    if n == 0 {
        assert(CatalogView::empty().units.len() == 0);
        0
    } else {
        let found = collected(catalog, urls, (n - 1) as nat)->Ok_0;
        let r = catalog(urls[n - 1])->Ok_0;
        catalog::law_an_answer_is_added(found, r);
        lemma_both_contain(collected(catalog, urls, n)->Ok_0.units, found.units, r.units, x);
        if r.units.contains(x) {
            n - 1
        } else {
            law_only_answers_are_collected(catalog, urls, (n - 1) as nat, x)
        }
    }
}

/// However many queries it takes, no unit loses its name: where the catalog answers every query
/// for units with those that it was asked for, a unit of the resolved book (one whose uid has a
/// comma cannot be asked for) has the title and the duration that the catalog answered with.
pub proof fn law_every_unit_is_described(
    catalog: spec_fn(Seq<char>) -> Result<CatalogView, ResolveErrorView>,
    page: spec_fn(Seq<char>) -> Option<Seq<char>>,
    guide: StudyGuideView,
    locale: Seq<char>,
    book: BookView,
    p: int,
    m: int,
    k: int,
) -> (r: (Seq<char>, int))
    requires
        guide.single is None,
        run(to_book(guide, locale), catalog, page, locale) == Ok::<BookView, ResolveErrorView>(
            book,
        ),
        answers_for_units(catalog, locale),
        0 <= p < book.parts.len(),
        0 <= m < book.parts[p].modules.len(),
        0 <= k < book.parts[p].modules[m].units.len(),
        !book.parts[p].modules[m].units[k].uid.contains(','),
    ensures
        catalog(r.0) is Ok,
        0 <= r.1 < catalog(r.0)->Ok_0.units.len(),
        catalog(r.0)->Ok_0.units[r.1].uid == book.parts[p].modules[m].units[k].uid,
        catalog(r.0)->Ok_0.units[r.1].title == book.parts[p].modules[m].units[k].title,
        catalog(r.0)->Ok_0.units[r.1].duration_in_minutes
            == book.parts[p].modules[m].units[k].duration_in_minutes,
{
    lemma_run_guide(catalog, page, GuideView::Done(guide), locale);
    let found = fetched(catalog, "learningPaths"@, guide.path_uids, locale);
    let paths = catalog::ordered_first(
        found->Ok_0.learning_paths,
        guide.path_uids,
        guide.path_uids.len(),
    );
    let modules = fetched(
        catalog,
        "modules"@,
        catalog::wanted_modules(paths),
        locale,
    )->Ok_0.modules;
    let wanted = catalog::wanted_units(modules);
    let units = fetched(catalog, "units"@, wanted, locale)->Ok_0.units;
    tree::law_a_part_for_each_path(paths, modules, units);
    let i = tree::law_a_parts_modules_are_made_from_the_catalog(paths[p], modules, units, m);
    let u = book.parts[p].modules[m].units[k];
    tree::law_no_unit_is_dropped(modules[i], units, k);
    assert(modules[i].units.contains(u.uid)) by {
        assert(modules[i].units[k] == u.uid);
    }
    catalog::law_wanted_units(modules, u.uid);
    let at = lemma_fetched_unit(catalog, wanted, locale, u.uid);
    assert(units[at].uid == modules[i].units[k]);
    tree::law_units_are_the_catalogs(modules[i], units, k);
    let d = choose|d: int| #[trigger] tree::describes_unit(units, d, u);
    let urls = catalog::batch_urls("units"@, wanted, locale);
    assert(units.contains(units[d]));
    let a = law_only_answers_are_collected(catalog, urls, urls.len(), units[d]);
    let answer = catalog(urls[a])->Ok_0.units;
    let b = choose|b: int| 0 <= b < answer.len() && answer[b] == units[d];
    (urls[a], b)
}

/// The parts of the resolved book are the learning paths of the study guide that were found, each
/// once, in the guide's order.
pub proof fn law_parts_follow_the_guide(
    catalog: spec_fn(Seq<char>) -> Result<CatalogView, ResolveErrorView>,
    page: spec_fn(Seq<char>) -> Option<Seq<char>>,
    guide: StudyGuideView,
    locale: Seq<char>,
    book: BookView,
)
    requires
        guide.single is None,
        run(to_book(guide, locale), catalog, page, locale) == Ok::<BookView, ResolveErrorView>(
            book,
        ),
    ensures
        fetched(catalog, "learningPaths"@, guide.path_uids, locale) is Ok,
        Seq::new(book.parts.len(), |p: int| book.parts[p].uid) == catalog::deduped(
            guide.path_uids,
        ).filter(
            |u: Seq<char>|
                catalog::path_keys(
                    fetched(
                        catalog,
                        "learningPaths"@,
                        guide.path_uids,
                        locale,
                    )->Ok_0.learning_paths,
                ).contains(u),
        ),
        book.title == guide.title,
        book.cert_uid == guide.identifier,
        book.icon_url == guide.icon_url,
{
    lemma_run_guide(catalog, page, GuideView::Done(guide), locale);
    let found = fetched(catalog, "learningPaths"@, guide.path_uids, locale)->Ok_0.learning_paths;
    let paths = catalog::ordered_first(found, guide.path_uids, guide.path_uids.len());
    catalog::law_paths_follow_the_guide(found, guide.path_uids);
    let modules = fetched(
        catalog,
        "modules"@,
        catalog::wanted_modules(paths),
        locale,
    )->Ok_0.modules;
    let units = fetched(
        catalog,
        "units"@,
        catalog::wanted_units(modules),
        locale,
    )->Ok_0.units;
    tree::law_a_part_for_each_path(paths, modules, units);
    assert(Seq::new(book.parts.len(), |p: int| book.parts[p].uid) =~= catalog::path_keys(paths));
}

/// A failed query fails the whole round: what is collected is an error wherever one of the queries
/// is answered with one.
pub proof fn law_a_failed_query_is_not_passed_over(
    catalog: spec_fn(Seq<char>) -> Result<CatalogView, ResolveErrorView>,
    urls: Seq<Seq<char>>,
    n: nat,
    i: int,
)
    requires
        0 <= i < n,
        catalog(urls[i]) is Err,
    ensures
        collected(catalog, urls, n) is Err,
    decreases n,
{
    if i < n - 1 {
        law_a_failed_query_is_not_passed_over(catalog, urls, (n - 1) as nat, i);
    }
}

} // verus!
