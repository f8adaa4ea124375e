//! The Catalog API: what is asked of it, the shapes of what it answers, and how answers are put
//! in order.

use crate::text;
use vstd::prelude::*;
use vstd::string::*;

verus! {

broadcast use vstd::seq_lib::group_seq_properties;

/// Catalog API base. The Catalog API sends `access-control-allow-origin: *`, so this same URL is
/// reachable from the browser too.
pub const CATALOG_BASE: &'static str = "https://learn.microsoft.com/api/catalog/";

/// Max uids per request. The API accepts comma-separated uids; they are chunked to keep URLs well
/// under typical server limits when a certification expands to some 150 units.
pub const UID_CHUNK: usize = 25;

// ---------------------------------------------------------------------------
// Queries
// ---------------------------------------------------------------------------

/// One Catalog API query: a content type, a set of uids, and a locale.
#[derive(Debug, Clone)]
pub struct CatalogQuery {
    pub content_type: String,
    pub uids: Vec<String>,
    pub locale: String,
}

/// The URL of a query.
pub open spec fn query_url(
    content_type: Seq<char>,
    uids: Seq<Seq<char>>,
    locale: Seq<char>,
) -> Seq<char> {
    CATALOG_BASE@ + "?type="@ + content_type + "&uid="@ + text::join(uids, ","@) + "&locale="@
        + locale
}

impl CatalogQuery {
    /// Builds the full request URL with literal commas between uids (matches the API).
    pub fn url(&self) -> (r: String)
        ensures
            r@ == query_url(self.content_type@, self.uids.deep_view(), self.locale@),
    {
        let mut s = CATALOG_BASE.to_owned();
        s.append("?type=");
        s.append(self.content_type.as_str());
        s.append("&uid=");
        s.append(text::join_texts(&self.uids, ",").as_str());
        s.append("&locale=");
        s.append(self.locale.as_str());
        s
    }
}

/// The URL that asks for one uid.
pub fn url_of_one(content_type: &str, uid: &str, locale: &str) -> (r: String)
    ensures
        r@ == query_url(content_type@, seq![uid@], locale@),
{
    let mut uids: Vec<String> = Vec::new();
    uids.push(uid.to_owned());
    assert(uids.deep_view() =~= seq![uid@]);
    let q = CatalogQuery {
        content_type: content_type.to_owned(),
        uids,
        locale: locale.to_owned(),
    };
    q.url()
}

/// The URL that lists every item of a type: no uid is asked for.
pub fn url_of_all(content_type: &str, locale: &str) -> (r: String)
    ensures
        r@ == query_url(content_type@, Seq::empty(), locale@),
{
    let uids: Vec<String> = Vec::new();
    assert(uids.deep_view() =~= Seq::<Seq<char>>::empty());
    let q = CatalogQuery {
        content_type: content_type.to_owned(),
        uids,
        locale: locale.to_owned(),
    };
    q.url()
}

/// The uids among the first `n` that can be asked for in bulk: the API puts commas between uids,
/// so one that holds a comma cannot.
pub open spec fn fetchable_first(uids: Seq<Seq<char>>, n: nat) -> Seq<Seq<char>>
    decreases n,
{
    if n == 0 {
        Seq::empty()
    } else {
        let before = fetchable_first(uids, (n - 1) as nat);
        if uids[n - 1].contains(',') {
            before
        } else {
            before.push(uids[n - 1])
        }
    }
}

pub open spec fn fetchable(uids: Seq<Seq<char>>) -> Seq<Seq<char>> {
    fetchable_first(uids, uids.len())
}

/// The `i`th chunk of a list.
pub open spec fn chunk_at(uids: Seq<Seq<char>>, i: int) -> Seq<Seq<char>> {
    let end = (i + 1) * UID_CHUNK;
    uids.subrange(
        i * UID_CHUNK,
        if end <= uids.len() {
            end
        } else {
            uids.len() as int
        },
    )
}

/// How many chunks a list makes.
pub open spec fn chunk_count(len: nat) -> nat {
    ((len + UID_CHUNK - 1) / (UID_CHUNK as int)) as nat
}

/// The URLs that together ask for every fetchable uid.
pub open spec fn batch_urls(
    content_type: Seq<char>,
    uids: Seq<Seq<char>>,
    locale: Seq<char>,
) -> Seq<Seq<char>> {
    let asked = fetchable(uids);
    Seq::new(
        chunk_count(asked.len()),
        |i: int| query_url(content_type, chunk_at(asked, i), locale),
    )
}

fn fetchable_uids(uids: &Vec<String>) -> (r: Vec<String>)
    ensures
        r.deep_view() == fetchable(uids.deep_view()),
        r@.len() <= uids@.len(),
{
    let ghost all = uids.deep_view();
    let n: usize = uids.len();
    let mut r: Vec<String> = Vec::new();
    for i in 0..n
        invariant
            n == uids@.len(),
            all == uids.deep_view(),
            r.deep_view() =~= fetchable_first(all, i as nat),
            r@.len() <= i,
    {
        assert(all[i as int] == uids@[i as int]@);
        if !text::has_char(text::chars_of(uids[i].as_str()).as_slice(), ',') {
            text::push_item(&mut r, uids[i].clone());
        }
    }
    r
}

/// The URLs that together ask for every fetchable uid, chunk by chunk.
pub fn chunk_urls(content_type: &str, uids: &Vec<String>, locale: &str) -> (r: Vec<String>)
    ensures
        r.deep_view() == batch_urls(content_type@, uids.deep_view(), locale@),
{
    let asked = fetchable_uids(uids);
    let ghost all = asked.deep_view();
    let total: usize = asked.len();
    let mut urls: Vec<String> = Vec::new();
    let mut pos: usize = 0;
    while pos < total
        invariant
            total == asked@.len(),
            all == asked.deep_view(),
            pos == total || pos == urls@.len() * UID_CHUNK,
            pos <= total,
            pos == total ==> urls@.len() == chunk_count(total as nat),
            pos < total ==> urls@.len() < chunk_count(total as nat),
            urls@.len() <= pos,
            forall|k: int|
                0 <= k < urls@.len() ==> #[trigger] urls@[k]@ == query_url(
                    content_type@,
                    chunk_at(all, k),
                    locale@,
                ),
        decreases total - pos,
    {
        let end: usize = if total - pos > UID_CHUNK {
            pos + UID_CHUNK
        } else {
            total
        };
        let mut chunk: Vec<String> = Vec::new();
        for i in pos..end
            invariant
                total == asked@.len(),
                all == asked.deep_view(),
                pos <= end <= total,
                chunk.deep_view() =~= all.subrange(pos as int, i as int),
        {
            assert(all[i as int] == asked@[i as int]@);
            text::push_item(&mut chunk, asked[i].clone());
        }
        let q = CatalogQuery {
            content_type: content_type.to_owned(),
            uids: chunk,
            locale: locale.to_owned(),
        };
        let ghost k = urls@.len();
        assert(chunk_at(all, k as int) =~= q.uids.deep_view());
        urls.push(q.url());
        pos = end;
    }
    assert(urls.deep_view() =~= batch_urls(content_type@, uids.deep_view(), locale@));
    urls
}

// ---------------------------------------------------------------------------
// Answers (only the fields that are used)
// ---------------------------------------------------------------------------

/// An item of a study guide.
#[derive(Debug)]
pub struct StudyItem {
    pub uid: String,
    /// `learningPath`, `module`, ...
    pub kind: String,
}

/// What a [`StudyItem`] holds.
pub struct StudyItemView {
    pub uid: Seq<char>,
    pub kind: Seq<char>,
}

impl DeepView for StudyItem {
    type V = StudyItemView;

    open spec fn deep_view(&self) -> StudyItemView {
        StudyItemView {
            uid: self.uid@,
            kind: self.kind@,
        }
    }
}

/// A unit of a module.
#[derive(Debug, Clone)]
pub struct RawUnit {
    pub uid: String,
    pub title: String,
    pub duration_in_minutes: Option<u32>,
}

/// What a [`RawUnit`] holds.
pub struct RawUnitView {
    pub uid: Seq<char>,
    pub title: Seq<char>,
    pub duration_in_minutes: Option<u32>,
}

impl DeepView for RawUnit {
    type V = RawUnitView;

    open spec fn deep_view(&self) -> RawUnitView {
        RawUnitView {
            uid: self.uid@,
            title: self.title@,
            duration_in_minutes: self.duration_in_minutes,
        }
    }
}

/// A module, with the uids of its units.
#[derive(Debug)]
pub struct RawModule {
    pub uid: String,
    pub title: String,
    pub url: Option<String>,
    pub duration_in_minutes: Option<u32>,
    pub units: Vec<String>,
}

/// What a [`RawModule`] holds.
pub struct RawModuleView {
    pub uid: Seq<char>,
    pub title: Seq<char>,
    pub url: Option<Seq<char>>,
    pub duration_in_minutes: Option<u32>,
    pub units: Seq<Seq<char>>,
}

impl DeepView for RawModule {
    type V = RawModuleView;

    open spec fn deep_view(&self) -> RawModuleView {
        RawModuleView {
            uid: self.uid@,
            title: self.title@,
            url: self.url.deep_view(),
            duration_in_minutes: self.duration_in_minutes,
            units: self.units.deep_view(),
        }
    }
}

/// A learning path, with the uids of its modules.
#[derive(Debug)]
pub struct RawPath {
    pub uid: String,
    pub title: String,
    pub url: Option<String>,
    pub icon_url: Option<String>,
    pub duration_in_minutes: Option<u32>,
    pub modules: Vec<String>,
}

/// What a [`RawPath`] holds.
pub struct RawPathView {
    pub uid: Seq<char>,
    pub title: Seq<char>,
    pub url: Option<Seq<char>>,
    pub icon_url: Option<Seq<char>>,
    pub duration_in_minutes: Option<u32>,
    pub modules: Seq<Seq<char>>,
}

impl DeepView for RawPath {
    type V = RawPathView;

    open spec fn deep_view(&self) -> RawPathView {
        RawPathView {
            uid: self.uid@,
            title: self.title@,
            url: self.url.deep_view(),
            icon_url: self.icon_url.deep_view(),
            duration_in_minutes: self.duration_in_minutes,
            modules: self.modules.deep_view(),
        }
    }
}

/// A certification.
#[derive(Debug)]
pub struct RawCert {
    pub uid: String,
    pub title: String,
    pub icon_url: Option<String>,
    pub study_guide: Vec<StudyItem>,
    /// Linked exam uids (e.g. `exam.az-305`). Empty for some certifications.
    pub exams: Vec<String>,
}

/// What a [`RawCert`] holds.
pub struct RawCertView {
    pub uid: Seq<char>,
    pub title: Seq<char>,
    pub icon_url: Option<Seq<char>>,
    pub study_guide: Seq<StudyItemView>,
    pub exams: Seq<Seq<char>>,
}

impl DeepView for RawCert {
    type V = RawCertView;

    open spec fn deep_view(&self) -> RawCertView {
        RawCertView {
            uid: self.uid@,
            title: self.title@,
            icon_url: self.icon_url.deep_view(),
            study_guide: self.study_guide.deep_view(),
            exams: self.exams.deep_view(),
        }
    }
}

/// An exam.
#[derive(Debug)]
pub struct RawExam {
    pub uid: Option<String>,
    pub title: Option<String>,
    pub icon_url: Option<String>,
    pub study_guide: Vec<StudyItem>,
}

/// What a [`RawExam`] holds.
pub struct RawExamView {
    pub uid: Option<Seq<char>>,
    pub title: Option<Seq<char>>,
    pub icon_url: Option<Seq<char>>,
    pub study_guide: Seq<StudyItemView>,
}

impl DeepView for RawExam {
    type V = RawExamView;

    open spec fn deep_view(&self) -> RawExamView {
        RawExamView {
            uid: self.uid.deep_view(),
            title: self.title.deep_view(),
            icon_url: self.icon_url.deep_view(),
            study_guide: self.study_guide.deep_view(),
        }
    }
}

/// An instructor-led course. Unlike many exams and certifications, a course carries its study
/// guide (the ordered learning paths) in the catalog: the authoritative path list for exams that
/// otherwise resolve to nothing.
#[derive(Debug)]
pub struct RawCourse {
    pub uid: String,
    pub title: Option<String>,
    pub icon_url: Option<String>,
    pub levels: Vec<String>,
    pub study_guide: Vec<StudyItem>,
}

/// What a [`RawCourse`] holds.
pub struct RawCourseView {
    pub uid: Seq<char>,
    pub title: Option<Seq<char>>,
    pub icon_url: Option<Seq<char>>,
    pub levels: Seq<Seq<char>>,
    pub study_guide: Seq<StudyItemView>,
}

impl DeepView for RawCourse {
    type V = RawCourseView;

    open spec fn deep_view(&self) -> RawCourseView {
        RawCourseView {
            uid: self.uid@,
            title: self.title.deep_view(),
            icon_url: self.icon_url.deep_view(),
            levels: self.levels.deep_view(),
            study_guide: self.study_guide.deep_view(),
        }
    }
}

/// What the catalog answers: the items found, by type.
#[derive(Debug)]
pub struct CatalogResponse {
    pub certifications: Vec<RawCert>,
    pub exams: Vec<RawExam>,
    pub learning_paths: Vec<RawPath>,
    pub courses: Vec<RawCourse>,
    pub modules: Vec<RawModule>,
    pub units: Vec<RawUnit>,
}

/// What a [`CatalogResponse`] holds.
pub struct CatalogView {
    pub certifications: Seq<RawCertView>,
    pub exams: Seq<RawExamView>,
    pub learning_paths: Seq<RawPathView>,
    pub courses: Seq<RawCourseView>,
    pub modules: Seq<RawModuleView>,
    pub units: Seq<RawUnitView>,
}

impl DeepView for CatalogResponse {
    type V = CatalogView;

    open spec fn deep_view(&self) -> CatalogView {
        CatalogView {
            certifications: self.certifications.deep_view(),
            exams: self.exams.deep_view(),
            learning_paths: self.learning_paths.deep_view(),
            courses: self.courses.deep_view(),
            modules: self.modules.deep_view(),
            units: self.units.deep_view(),
        }
    }
}

impl CatalogView {
    /// An answer without items.
    pub open spec fn empty() -> CatalogView {
        CatalogView {
            certifications: Seq::empty(),
            exams: Seq::empty(),
            learning_paths: Seq::empty(),
            courses: Seq::empty(),
            modules: Seq::empty(),
            units: Seq::empty(),
        }
    }

    /// The items of both answers.
    pub open spec fn joined(self, r: CatalogView) -> CatalogView {
        CatalogView {
            certifications: self.certifications + r.certifications,
            exams: self.exams + r.exams,
            learning_paths: self.learning_paths + r.learning_paths,
            courses: self.courses + r.courses,
            modules: self.modules + r.modules,
            units: self.units + r.units,
        }
    }
}

fn append_items<T: DeepView>(to: &mut Vec<T>, mut from: Vec<T>)
    ensures
        final(to).deep_view() == old(to).deep_view() + from.deep_view(),
{
    let ghost a = to.deep_view();
    let ghost b = from.deep_view();
    to.append(&mut from);
    assert(to.deep_view() =~= a + b);
}

impl CatalogResponse {
    /// An answer without items.
    pub fn new() -> (r: Self)
        ensures
            r.deep_view() == CatalogView::empty(),
    {
        let r = CatalogResponse {
            certifications: Vec::new(),
            exams: Vec::new(),
            learning_paths: Vec::new(),
            courses: Vec::new(),
            modules: Vec::new(),
            units: Vec::new(),
        };
        assert(r.deep_view().certifications =~= CatalogView::empty().certifications);
        assert(r.deep_view().exams =~= CatalogView::empty().exams);
        assert(r.deep_view().learning_paths =~= CatalogView::empty().learning_paths);
        assert(r.deep_view().courses =~= CatalogView::empty().courses);
        assert(r.deep_view().modules =~= CatalogView::empty().modules);
        assert(r.deep_view().units =~= CatalogView::empty().units);
        r
    }

    /// Adds the items of another answer.
    pub fn extend(&mut self, r: CatalogResponse)
        ensures
            final(self).deep_view() == old(self).deep_view().joined(r.deep_view()),
    {
        append_items(&mut self.certifications, r.certifications);
        append_items(&mut self.exams, r.exams);
        append_items(&mut self.learning_paths, r.learning_paths);
        append_items(&mut self.courses, r.courses);
        append_items(&mut self.modules, r.modules);
        append_items(&mut self.units, r.units);
    }
}

// ---------------------------------------------------------------------------
// Study guides
// ---------------------------------------------------------------------------

/// The uids of the learning paths among the first `n` items of a study guide.
pub open spec fn paths_first(items: Seq<StudyItemView>, n: nat) -> Seq<Seq<char>>
    decreases n,
{
    if n == 0 {
        Seq::empty()
    } else {
        let before = paths_first(items, (n - 1) as nat);
        if items[n - 1].kind == "learningPath"@ {
            before.push(items[n - 1].uid)
        } else {
            before
        }
    }
}

pub open spec fn guide_paths(items: Seq<StudyItemView>) -> Seq<Seq<char>> {
    paths_first(items, items.len())
}

/// The uids of the learning paths in a study guide, in its order.
pub fn study_guide_paths(items: &Vec<StudyItem>) -> (r: Vec<String>)
    ensures
        r.deep_view() == guide_paths(items.deep_view()),
{
    let ghost all = items.deep_view();
    let n: usize = items.len();
    let mut r: Vec<String> = Vec::new();
    for i in 0..n
        invariant
            n == items@.len(),
            all == items.deep_view(),
            r.deep_view() =~= paths_first(all, i as nat),
    {
        assert(all[i as int] == items@[i as int].deep_view());
        if text::same_text(items[i].kind.as_str(), "learningPath") {
            text::push_item(&mut r, items[i].uid.clone());
        }
    }
    r
}

/// The badge name of a difficulty level.
pub open spec fn level_name(level: Seq<char>) -> Option<Seq<char>> {
    if level == "beginner"@ {
        Some("fundamentals"@)
    } else if level == "intermediate"@ {
        Some("associate"@)
    } else if level == "advanced"@ {
        Some("expert"@)
    } else {
        None
    }
}

/// The badge for the first of the levels.
pub open spec fn level_badge(levels: Seq<Seq<char>>) -> Option<Seq<char>> {
    if levels.len() == 0 {
        None
    } else {
        match level_name(levels[0]) {
            Some(name) => Some(
                "https://learn.microsoft.com/en-us/media/learn/certification/badges/microsoft-certified-"@
                    + name + "-badge.svg"@,
            ),
            None => None,
        }
    }
}

/// The Microsoft certification badge for a difficulty level. Catalog certification badges are
/// just the generic level badge (beginner is fundamentals, intermediate is associate, advanced is
/// expert), so an exam with no linked certification can still show the badge its certification
/// page does instead of the generic course icon.
pub fn cert_level_badge(levels: &Vec<String>) -> (r: Option<String>)
    ensures
        r.deep_view() == level_badge(levels.deep_view()),
{
    if levels.len() == 0 {
        return None;
    }
    assert(levels.deep_view()[0] == levels@[0]@);
    let level = levels[0].as_str();
    let name = if text::same_text(level, "beginner") {
        "fundamentals"
    } else if text::same_text(level, "intermediate") {
        "associate"
    } else if text::same_text(level, "advanced") {
        "expert"
    } else {
        return None;
    };
    let mut s =
        "https://learn.microsoft.com/en-us/media/learn/certification/badges/microsoft-certified-".to_owned();
    s.append(name);
    s.append("-badge.svg");
    Some(s)
}

// ---------------------------------------------------------------------------
// Order
// ---------------------------------------------------------------------------

/// The first `n` texts without those that occurred before.
pub open spec fn deduped_first(s: Seq<Seq<char>>, n: nat) -> Seq<Seq<char>>
    decreases n,
{
    if n == 0 {
        Seq::empty()
    } else {
        let before = deduped_first(s, (n - 1) as nat);
        if before.contains(s[n - 1]) {
            before
        } else {
            before.push(s[n - 1])
        }
    }
}

pub open spec fn deduped(s: Seq<Seq<char>>) -> Seq<Seq<char>> {
    deduped_first(s, s.len())
}

/// Whether a list holds a text.
pub fn holds_text(v: &Vec<String>, s: &str) -> (r: bool)
    ensures
        r == v.deep_view().contains(s@),
{
    let ghost all = v.deep_view();
    let n: usize = v.len();
    for i in 0..n
        invariant
            n == v@.len(),
            all == v.deep_view(),
            forall|k: int| 0 <= k < i ==> #[trigger] all[k] != s@,
    {
        assert(all[i as int] == v@[i as int]@);
        if text::same_text(v[i].as_str(), s) {
            return true;
        }
    }
    false
}

/// The texts without repetitions, in first-seen order.
pub fn dedup_ordered(v: &Vec<String>) -> (r: Vec<String>)
    ensures
        r.deep_view() == deduped(v.deep_view()),
{
    let ghost all = v.deep_view();
    let n: usize = v.len();
    let mut r: Vec<String> = Vec::new();
    for i in 0..n
        invariant
            n == v@.len(),
            all == v.deep_view(),
            r.deep_view() =~= deduped_first(all, i as nat),
    {
        assert(all[i as int] == v@[i as int]@);
        if !holds_text(&r, v[i].as_str()) {
            text::push_item(&mut r, v[i].clone());
        }
    }
    r
}

/// An item of the catalog that a uid names.
pub trait Keyed {
    spec fn key(&self) -> Seq<char>;

    fn uid(&self) -> (r: &str)
        ensures
            r@ == self.key(),
    ;
}

impl Keyed for RawPath {
    open spec fn key(&self) -> Seq<char> {
        self.uid@
    }

    fn uid(&self) -> (r: &str) {
        self.uid.as_str()
    }
}

impl Keyed for RawModule {
    open spec fn key(&self) -> Seq<char> {
        self.uid@
    }

    fn uid(&self) -> (r: &str) {
        self.uid.as_str()
    }
}

impl Keyed for RawUnit {
    open spec fn key(&self) -> Seq<char> {
        self.uid@
    }

    fn uid(&self) -> (r: &str) {
        self.uid.as_str()
    }
}

/// The position of the last item with that uid: of two items with one uid, the later counts.
pub open spec fn last_with(keys: Seq<Seq<char>>, uid: Seq<char>) -> Option<int>
    decreases keys.len(),
{
    if keys.len() == 0 {
        None
    } else if keys.last() == uid {
        Some(keys.len() - 1)
    } else {
        last_with(keys.drop_last(), uid)
    }
}

pub proof fn lemma_last_with(keys: Seq<Seq<char>>, uid: Seq<char>)
    ensures
        match last_with(keys, uid) {
            Some(i) => 0 <= i < keys.len() && keys[i] == uid && (forall|j: int|
                i < j < keys.len() ==> #[trigger] keys[j] != uid),
            None => !keys.contains(uid),
        },
    decreases keys.len(),
{
    if keys.len() > 0 && keys.last() != uid {
        let front = keys.drop_last();
        lemma_last_with(front, uid);
        match last_with(front, uid) {
            Some(i) => {
                assert(front[i] == keys[i]);
                assert forall|j: int| i < j < keys.len() implies #[trigger] keys[j] != uid by {
                    if j < front.len() {
                        assert(front[j] == keys[j]);
                    }
                }
            },
            None => {
                if keys.contains(uid) {
                    let i = choose|i: int| 0 <= i < keys.len() && keys[i] == uid;
                    assert(front[i] == keys[i]);
                    assert(front.contains(uid));
                }
            },
        }
    }
}

/// The uids of a list of items.
pub open spec fn keys_of<T: Keyed>(items: Seq<T>) -> Seq<Seq<char>> {
    Seq::new(items.len(), |i: int| items[i].key())
}

/// The position of the last item with that uid.
pub fn index_by<T: Keyed>(items: &Vec<T>, uid: &str) -> (r: Option<usize>)
    ensures
        match r {
            Some(i) => i < items@.len() && last_with(keys_of(items@), uid@) == Some(i as int),
            None => last_with(keys_of(items@), uid@) is None,
        },
{
    let ghost keys = keys_of(items@);
    let mut i: usize = items.len();
    assert(keys.take(i as int) =~= keys);
    while i > 0
        invariant
            i <= items@.len(),
            keys == keys_of(items@),
            last_with(keys.take(i as int), uid@) == last_with(keys, uid@),
        decreases i,
    {
        i -= 1;
        assert(keys.take(i + 1).drop_last() =~= keys.take(i as int));
        assert(keys.take(i + 1).last() == items@[i as int].key());
        if text::same_text(items[i].uid(), uid) {
            return Some(i);
        }
    }
    None
}

pub open spec fn path_keys(paths: Seq<RawPathView>) -> Seq<Seq<char>> {
    Seq::new(paths.len(), |i: int| paths[i].uid)
}

pub open spec fn module_keys(modules: Seq<RawModuleView>) -> Seq<Seq<char>> {
    Seq::new(modules.len(), |i: int| modules[i].uid)
}

pub open spec fn unit_keys(units: Seq<RawUnitView>) -> Seq<Seq<char>> {
    Seq::new(units.len(), |i: int| units[i].uid)
}

/// The paths that the first `n` uids name, in the order of the uids. A uid that occurred before
/// adds nothing, and neither does one that names no path.
pub open spec fn ordered_first(
    paths: Seq<RawPathView>,
    order: Seq<Seq<char>>,
    n: nat,
) -> Seq<RawPathView>
    decreases n,
{
    if n == 0 {
        Seq::empty()
    } else {
        let before = ordered_first(paths, order, (n - 1) as nat);
        match last_with(path_keys(paths), order[n - 1]) {
            Some(i) if !order.take(n - 1).contains(order[n - 1]) => before.push(paths[i]),
            _ => before,
        }
    }
}

impl RawPath {
    pub fn copied(&self) -> (r: RawPath)
        ensures
            r.deep_view() == self.deep_view(),
    {
        RawPath {
            uid: self.uid.clone(),
            title: self.title.clone(),
            url: text::copy_opt_text(&self.url),
            icon_url: text::copy_opt_text(&self.icon_url),
            duration_in_minutes: self.duration_in_minutes,
            modules: text::copy_texts(&self.modules),
        }
    }
}

/// Puts the paths in the order of the uids.
pub fn order_by(paths: &Vec<RawPath>, order: &Vec<String>) -> (r: Vec<RawPath>)
    ensures
        r.deep_view() == ordered_first(paths.deep_view(), order.deep_view(), order@.len()),
{
    let ghost all = paths.deep_view();
    let ghost uids = order.deep_view();
    assert(keys_of(paths@) =~= path_keys(all));
    let n: usize = order.len();
    let mut seen: Vec<String> = Vec::new();
    let mut r: Vec<RawPath> = Vec::new();
    for i in 0..n
        invariant
            n == order@.len(),
            all == paths.deep_view(),
            uids == order.deep_view(),
            keys_of(paths@) == path_keys(all),
            seen.deep_view() =~= uids.take(i as int),
            r.deep_view() =~= ordered_first(all, uids, i as nat),
    {
        assert(uids[i as int] == order@[i as int]@);
        let uid = order[i].as_str();
        if !holds_text(&seen, uid) {
            if let Some(k) = index_by(paths, uid) {
                assert(all[k as int] == paths@[k as int].deep_view());
                text::push_item(&mut r, paths[k].copied());
            }
        }
        text::push_item(&mut seen, order[i].clone());
    }
    r
}

/// The module uids of the first `n` paths, one path after the other.
pub open spec fn path_modules(paths: Seq<RawPathView>, n: nat) -> Seq<Seq<char>>
    decreases n,
{
    if n == 0 {
        Seq::empty()
    } else {
        path_modules(paths, (n - 1) as nat) + paths[n - 1].modules
    }
}

/// The uids of the modules that the paths hold: each once, in first-seen order.
pub open spec fn wanted_modules(paths: Seq<RawPathView>) -> Seq<Seq<char>> {
    deduped(path_modules(paths, paths.len()))
}

fn append_texts(to: &mut Vec<String>, from: &Vec<String>)
    ensures
        final(to).deep_view() == old(to).deep_view() + from.deep_view(),
{
    append_items(to, text::copy_texts(from));
}

/// The uids of the modules that the paths hold.
pub fn module_uids(paths: &Vec<RawPath>) -> (r: Vec<String>)
    ensures
        r.deep_view() == wanted_modules(paths.deep_view()),
{
    let ghost all = paths.deep_view();
    let n: usize = paths.len();
    let mut flat: Vec<String> = Vec::new();
    assert(flat.deep_view() =~= Seq::<Seq<char>>::empty());
    for i in 0..n
        invariant
            n == paths@.len(),
            all == paths.deep_view(),
            flat.deep_view() == path_modules(all, i as nat),
    {
        assert(all[i as int] == paths@[i as int].deep_view());
        append_texts(&mut flat, &paths[i].modules);
    }
    dedup_ordered(&flat)
}

/// The unit uids of the first `n` modules, one module after the other. Of two modules with one
/// uid only the later counts.
pub open spec fn module_units(modules: Seq<RawModuleView>, n: nat) -> Seq<Seq<char>>
    decreases n,
{
    if n == 0 {
        Seq::empty()
    } else {
        let before = module_units(modules, (n - 1) as nat);
        if last_with(module_keys(modules), modules[n - 1].uid) == Some(n - 1) {
            before + modules[n - 1].units
        } else {
            before
        }
    }
}

/// The uids of the units that the modules hold: each once, in first-seen order.
pub open spec fn wanted_units(modules: Seq<RawModuleView>) -> Seq<Seq<char>> {
    deduped(module_units(modules, modules.len()))
}

/// The uids of the units that the modules hold.
pub fn unit_uids(modules: &Vec<RawModule>) -> (r: Vec<String>)
    ensures
        r.deep_view() == wanted_units(modules.deep_view()),
{
    let ghost all = modules.deep_view();
    assert(keys_of(modules@) =~= module_keys(all));
    let n: usize = modules.len();
    let mut flat: Vec<String> = Vec::new();
    assert(flat.deep_view() =~= Seq::<Seq<char>>::empty());
    for i in 0..n
        invariant
            n == modules@.len(),
            all == modules.deep_view(),
            keys_of(modules@) == module_keys(all),
            flat.deep_view() == module_units(all, i as nat),
    {
        assert(all[i as int] == modules@[i as int].deep_view());
        if let Some(k) = index_by(modules, modules[i].uid.as_str()) {
            if k == i {
                append_texts(&mut flat, &modules[i].units);
            }
        }
    }
    dedup_ordered(&flat)
}

// ---------------------------------------------------------------------------
// Laws
// ---------------------------------------------------------------------------

/// The first `n` chunks of a list, one after the other.
pub open spec fn chunks_joined(uids: Seq<Seq<char>>, n: nat) -> Seq<Seq<char>>
    decreases n,
{
    if n == 0 {
        Seq::empty()
    } else {
        chunks_joined(uids, (n - 1) as nat) + chunk_at(uids, n - 1)
    }
}

proof fn lemma_chunks_joined(uids: Seq<Seq<char>>, n: nat)
    requires
        n <= chunk_count(uids.len()),
    ensures
        chunks_joined(uids, n) == uids.take(
            if n * UID_CHUNK <= uids.len() {
                n * UID_CHUNK
            } else {
                uids.len() as int
            },
        ),
    decreases n,
{
    if n == 0 {
        assert(uids.take(0) =~= Seq::<Seq<char>>::empty());
    } else {
        lemma_chunks_joined(uids, (n - 1) as nat);
        assert((n - 1) * UID_CHUNK <= uids.len());
        assert(chunks_joined(uids, n) =~= uids.take(
            if n * UID_CHUNK <= uids.len() {
                n * UID_CHUNK
            } else {
                uids.len() as int
            },
        ));
    }
}

/// A list is asked for completely and in order: its chunks, one after the other, are the list,
/// and none is empty or longer than the API takes.
pub proof fn law_chunks_cover(uids: Seq<Seq<char>>)
    ensures
        chunks_joined(uids, chunk_count(uids.len())) == uids,
        forall|i: int|
            0 <= i < chunk_count(uids.len()) ==> 1 <= #[trigger] chunk_at(uids, i).len()
                <= UID_CHUNK,
{
    lemma_chunks_joined(uids, chunk_count(uids.len()));
    assert(uids.take(uids.len() as int) =~= uids);
    assert forall|i: int| 0 <= i < chunk_count(uids.len()) implies 1 <= #[trigger] chunk_at(
        uids,
        i,
    ).len() <= UID_CHUNK by {
        assert(i * UID_CHUNK < uids.len());
    }
}

/// What is asked for in bulk is every uid without a comma, and no other.
pub proof fn law_fetchable(uids: Seq<Seq<char>>, uid: Seq<char>)
    ensures
        fetchable(uids).contains(uid) <==> uids.contains(uid) && !uid.contains(','),
{
    lemma_fetchable_first(uids, uids.len(), uid);
    assert(uids.take(uids.len() as int) =~= uids);
}

proof fn lemma_fetchable_first(uids: Seq<Seq<char>>, n: nat, uid: Seq<char>)
    requires
        n <= uids.len(),
    ensures
        fetchable_first(uids, n).contains(uid) <==> uids.take(n as int).contains(uid)
            && !uid.contains(','),
    decreases n,
{
    if n > 0 {
        lemma_fetchable_first(uids, (n - 1) as nat, uid);
        let before = uids.take(n - 1);
        assert(uids.take(n as int) =~= before.push(uids[n - 1]));
        lemma_push_contains(before, uids[n - 1], uid);
        lemma_push_contains(fetchable_first(uids, (n - 1) as nat), uids[n - 1], uid);
    }
}

proof fn lemma_push_contains(s: Seq<Seq<char>>, x: Seq<char>, y: Seq<char>)
    ensures
        s.push(x).contains(y) <==> s.contains(y) || x == y,
{
    if s.contains(y) {
        let i = choose|i: int| 0 <= i < s.len() && s[i] == y;
        assert(s.push(x)[i] == y);
    }
    if x == y {
        assert(s.push(x)[s.len() as int] == y);
    }
    if s.push(x).contains(y) && x != y {
        let i = choose|i: int| 0 <= i < s.push(x).len() && s.push(x)[i] == y;
        assert(s[i] == y);
    }
}

/// A list without repetitions holds what the list holds, each once.
pub proof fn law_deduped(s: Seq<Seq<char>>)
    ensures
        deduped(s).no_duplicates(),
        forall|x: Seq<char>| #[trigger] deduped(s).contains(x) <==> s.contains(x),
{
    lemma_deduped_first(s, s.len());
    assert(s.take(s.len() as int) =~= s);
}

proof fn lemma_deduped_first(s: Seq<Seq<char>>, n: nat)
    requires
        n <= s.len(),
    ensures
        deduped_first(s, n).no_duplicates(),
        forall|x: Seq<char>| #[trigger]
            deduped_first(s, n).contains(x) <==> s.take(n as int).contains(x),
    decreases n,
{
    if n > 0 {
        lemma_deduped_first(s, (n - 1) as nat);
        let before = deduped_first(s, (n - 1) as nat);
        let x = s[n - 1];
        assert(s.take(n as int) =~= s.take(n - 1).push(x));
        assert forall|y: Seq<char>| #[trigger] deduped_first(s, n).contains(y) <==> s.take(
            n as int,
        ).contains(y) by {
            lemma_push_contains(before, x, y);
            lemma_push_contains(s.take(n - 1), x, y);
        }
        if !before.contains(x) {
            assert(before.push(x).no_duplicates());
        }
    }
}

/// The first occurrences of two texts in a list come in the order in which the list without
/// repetitions holds them: `deduped` of a longer list begins with `deduped` of a shorter one.
pub proof fn law_deduped_keeps_order(s: Seq<Seq<char>>, n: nat)
    requires
        n <= s.len(),
    ensures
        deduped(s.take(n as int)).is_prefix_of(deduped(s)),
{
    lemma_deduped_take(s, n, n);
    lemma_deduped_prefix(s, n, s.len());
}

proof fn lemma_deduped_take(s: Seq<Seq<char>>, n: nat, k: nat)
    requires
        k <= n <= s.len(),
    ensures
        deduped_first(s.take(n as int), k) == deduped_first(s, k),
    decreases k,
{
    if k > 0 {
        lemma_deduped_take(s, n, (k - 1) as nat);
        assert(s.take(n as int)[k - 1] == s[k - 1]);
    }
}

proof fn lemma_deduped_prefix(s: Seq<Seq<char>>, n: nat, m: nat)
    requires
        n <= m <= s.len(),
    ensures
        deduped_first(s, n).is_prefix_of(deduped_first(s, m)),
    decreases m,
{
    if n < m {
        lemma_deduped_prefix(s, n, (m - 1) as nat);
    }
}

/// Paths come in the order of the study guide: each uid of the guide that names a path
/// contributes that path once, at its first place, and there are no others.
pub proof fn law_paths_follow_the_guide(paths: Seq<RawPathView>, order: Seq<Seq<char>>)
    ensures
        path_keys(ordered_first(paths, order, order.len())) == deduped(order).filter(
            |u: Seq<char>| path_keys(paths).contains(u),
        ),
{
    lemma_paths_follow_the_guide(paths, order, order.len());
}

proof fn lemma_paths_follow_the_guide(
    paths: Seq<RawPathView>,
    order: Seq<Seq<char>>,
    n: nat,
)
    requires
        n <= order.len(),
    ensures
        path_keys(ordered_first(paths, order, n)) == deduped_first(order, n).filter(
            |u: Seq<char>| path_keys(paths).contains(u),
        ),
    decreases n,
{
    let named = |u: Seq<char>| path_keys(paths).contains(u);
    reveal(Seq::filter);
    if n == 0 {
        assert(path_keys(ordered_first(paths, order, n)) =~= deduped_first(order, n).filter(named));
    } else {
        lemma_paths_follow_the_guide(paths, order, (n - 1) as nat);
        lemma_deduped_first(order, (n - 1) as nat);
        let uid = order[n - 1];
        let before = deduped_first(order, (n - 1) as nat);
        assert(before.contains(uid) <==> order.take(n - 1).contains(uid));
        lemma_last_with(path_keys(paths), uid);
        if !before.contains(uid) {
            assert(before.push(uid).drop_last() =~= before);
            match last_with(path_keys(paths), uid) {
                Some(i) => {
                    assert(path_keys(paths)[i] == uid);
                    assert(path_keys(paths).contains(uid));
                    let front = ordered_first(paths, order, (n - 1) as nat);
                    assert(path_keys(front.push(paths[i])) =~= path_keys(front).push(uid));
                },
                None => {},
            }
        }
    }
}

/// `all` is what `a` holds and then what `b` holds.
pub open spec fn is_both<T>(all: Seq<T>, a: Seq<T>, b: Seq<T>) -> bool {
    &&& all.len() == a.len() + b.len()
    &&& forall|i: int| 0 <= i < a.len() ==> #[trigger] a[i] == all[i]
    &&& forall|i: int| 0 <= i < b.len() ==> #[trigger] b[i] == all[a.len() + i]
}

/// Adding an answer loses nothing of either: of every type, the items found so far stay, in their
/// order, and those of the answer follow, in theirs.
pub proof fn law_an_answer_is_added(found: CatalogView, r: CatalogView)
    ensures
        is_both(found.joined(r).certifications, found.certifications, r.certifications),
        is_both(found.joined(r).exams, found.exams, r.exams),
        is_both(found.joined(r).learning_paths, found.learning_paths, r.learning_paths),
        is_both(found.joined(r).courses, found.courses, r.courses),
        is_both(found.joined(r).modules, found.modules, r.modules),
        is_both(found.joined(r).units, found.units, r.units),
{
}

/// A uid that is asked for in bulk is asked for in one of the chunks.
pub proof fn law_every_uid_is_in_a_chunk(uids: Seq<Seq<char>>, i: int) -> (k: int)
    requires
        0 <= i < uids.len(),
    ensures
        0 <= k < chunk_count(uids.len()),
        chunk_at(uids, k).contains(uids[i]),
{
    let k = i / (UID_CHUNK as int);
    let j = i - k * UID_CHUNK;
    assert(chunk_at(uids, k)[j] == uids[i]);
    k
}

/// What is asked for in a chunk is in the list.
pub proof fn law_a_chunk_holds_nothing_else(uids: Seq<Seq<char>>, k: int, uid: Seq<char>)
    requires
        0 <= k < chunk_count(uids.len()),
        chunk_at(uids, k).contains(uid),
    ensures
        uids.contains(uid),
{
    let c = chunk_at(uids, k);
    let j = choose|j: int| 0 <= j < c.len() && c[j] == uid;
    assert(k * UID_CHUNK < uids.len());
    assert(uids[k * UID_CHUNK + j] == uid);
}

proof fn lemma_path_modules(paths: Seq<RawPathView>, n: nat, uid: Seq<char>)
    requires
        n <= paths.len(),
    ensures
        path_modules(paths, n).contains(uid) <==> exists|p: int|
            0 <= p < n && (#[trigger] paths[p]).modules.contains(uid),
    decreases n,
{
    if n > 0 {
        lemma_path_modules(paths, (n - 1) as nat, uid);
        let before = path_modules(paths, (n - 1) as nat);
        let last = paths[n - 1].modules;
        lemma_cat_contains(before, last, uid);
        if last.contains(uid) {
            assert(paths[n - 1].modules.contains(uid));
        }
    }
}

proof fn lemma_cat_contains(a: Seq<Seq<char>>, b: Seq<Seq<char>>, x: Seq<char>)
    ensures
        (a + b).contains(x) <==> a.contains(x) || b.contains(x),
{
    if a.contains(x) {
        let i = choose|i: int| 0 <= i < a.len() && a[i] == x;
        assert((a + b)[i] == x);
    }
    if b.contains(x) {
        let i = choose|i: int| 0 <= i < b.len() && b[i] == x;
        assert((a + b)[a.len() + i] == x);
    }
    if (a + b).contains(x) {
        let i = choose|i: int| 0 <= i < (a + b).len() && (a + b)[i] == x;
        if i < a.len() {
            assert(a[i] == x);
        } else {
            assert(b[i - a.len()] == x);
        }
    }
}

/// The modules that are asked for are those that some path holds, each once.
pub proof fn law_wanted_modules(paths: Seq<RawPathView>, uid: Seq<char>)
    ensures
        wanted_modules(paths).no_duplicates(),
        wanted_modules(paths).contains(uid) <==> exists|p: int|
            0 <= p < paths.len() && (#[trigger] paths[p]).modules.contains(uid),
{
    lemma_path_modules(paths, paths.len(), uid);
    law_deduped(path_modules(paths, paths.len()));
}

proof fn lemma_module_units(modules: Seq<RawModuleView>, n: nat, uid: Seq<char>)
    requires
        n <= modules.len(),
    ensures
        module_units(modules, n).contains(uid) <==> exists|m: int|
            0 <= m < n && last_with(module_keys(modules), modules[m].uid) == Some(m) && (
            #[trigger] modules[m]).units.contains(uid),
    decreases n,
{
    if n > 0 {
        lemma_module_units(modules, (n - 1) as nat, uid);
        let before = module_units(modules, (n - 1) as nat);
        let last = modules[n - 1].units;
        lemma_cat_contains(before, last, uid);
        if last.contains(uid) {
            assert(modules[n - 1].units.contains(uid));
        }
    }
}

/// The units that are asked for are those that some module holds, each once. Of two modules with
/// one uid the later counts.
pub proof fn law_wanted_units(modules: Seq<RawModuleView>, uid: Seq<char>)
    ensures
        wanted_units(modules).no_duplicates(),
        wanted_units(modules).contains(uid) <==> exists|m: int|
            0 <= m < modules.len() && (#[trigger] modules[m]).units.contains(uid) && forall|k: int|
                m < k < modules.len() ==> (#[trigger] modules[k]).uid != modules[m].uid,
{
    let keys = module_keys(modules);
    lemma_module_units(modules, modules.len(), uid);
    law_deduped(module_units(modules, modules.len()));
    assert forall|m: int| 0 <= m < modules.len() implies (last_with(
        keys,
        (#[trigger] modules[m]).uid,
    ) == Some(m) <==> forall|k: int|
        m < k < modules.len() ==> (#[trigger] modules[k]).uid != modules[m].uid) by {
        lemma_last_with(keys, modules[m].uid);
        assert(keys[m] == modules[m].uid);
        assert(keys.contains(modules[m].uid));
        let i = last_with(keys, modules[m].uid)->Some_0;
        assert(keys[i] == modules[i].uid);
        if i == m {
            assert forall|k: int| m < k < modules.len() implies (#[trigger] modules[k]).uid
                != modules[m].uid by {
                assert(keys[k] == modules[k].uid);
            }
        }
    }
}

proof fn lemma_ordered_is_found(paths: Seq<RawPathView>, order: Seq<Seq<char>>, n: nat, p: int)
    requires
        n <= order.len(),
        0 <= p < ordered_first(paths, order, n).len(),
    ensures
        paths.contains(ordered_first(paths, order, n)[p]),
    decreases n,
{
    let before = ordered_first(paths, order, (n - 1) as nat);
    lemma_last_with(path_keys(paths), order[n - 1]);
    if p < before.len() {
        lemma_ordered_is_found(paths, order, (n - 1) as nat, p);
    }
}

/// A path in the guide's order is one of the paths found, as it was found.
pub proof fn law_ordered_paths_are_the_found(
    paths: Seq<RawPathView>,
    order: Seq<Seq<char>>,
    p: int,
)
    requires
        0 <= p < ordered_first(paths, order, order.len()).len(),
    ensures
        paths.contains(ordered_first(paths, order, order.len())[p]),
{
    lemma_ordered_is_found(paths, order, order.len(), p);
}

/// The learning paths of a study guide are those of its items that are learning paths, in its
/// order.
pub proof fn law_guide_paths_keep_order(a: Seq<StudyItemView>, b: Seq<StudyItemView>)
    ensures
        guide_paths(a + b) == guide_paths(a) + guide_paths(b),
    decreases b.len(),
{
    if b.len() == 0 {
        assert(a + b =~= a);
        assert(guide_paths(a) + guide_paths(b) =~= guide_paths(a));
    } else {
        let front = b.drop_last();
        law_guide_paths_keep_order(a, front);
        assert((a + b).drop_last() =~= a + front);
        lemma_paths_first_take(a + b, (a + front).len());
        lemma_paths_first_take(b, front.len());
        assert((a + b).take((a + front).len() as int) =~= a + front);
        assert(b.take(front.len() as int) =~= front);
        assert((a + b)[(a + b).len() - 1] == b[b.len() - 1]);
        assert(guide_paths(a + b) =~= guide_paths(a) + guide_paths(b));
    }
}

proof fn lemma_paths_first_take(items: Seq<StudyItemView>, n: nat)
    requires
        n <= items.len(),
    ensures
        paths_first(items, n) == guide_paths(items.take(n as int)),
{
    lemma_paths_first_same(items, items.take(n as int), n);
}

proof fn lemma_paths_first_same(a: Seq<StudyItemView>, b: Seq<StudyItemView>, n: nat)
    requires
        n <= a.len(),
        n <= b.len(),
        forall|i: int| 0 <= i < n ==> a[i] == b[i],
    ensures
        paths_first(a, n) == paths_first(b, n),
    decreases n,
{
    if n > 0 {
        lemma_paths_first_same(a, b, (n - 1) as nat);
    }
}

/// An item of a study guide adds its uid where it is a learning path, and nothing else does.
pub proof fn law_guide_paths_of_one(item: StudyItemView)
    ensures
        item.kind == "learningPath"@ ==> guide_paths(seq![item]) == seq![item.uid],
        item.kind != "learningPath"@ ==> guide_paths(seq![item]) == Seq::<Seq<char>>::empty(),
{
    reveal_with_fuel(paths_first, 2);
    assert(item.kind == "learningPath"@ ==> guide_paths(seq![item]) =~= seq![item.uid]);
}

/// A query names every uid that it asks for, the kind of what is asked for and the locale.
pub proof fn law_a_query_names_what_it_asks_for(
    content_type: Seq<char>,
    uids: Seq<Seq<char>>,
    locale: Seq<char>,
    i: int,
)
    requires
        0 <= i < uids.len(),
    ensures
        text::has_prefix(
            query_url(content_type, uids, locale),
            "https://learn.microsoft.com/api/catalog/?type="@ + content_type + "&uid="@,
        ),
        text::contains_text(query_url(content_type, uids, locale), uids[i]),
        text::has_suffix(query_url(content_type, uids, locale), "&locale="@ + locale),
{
    reveal_strlit("https://learn.microsoft.com/api/catalog/?type=");
    reveal_strlit("https://learn.microsoft.com/api/catalog/");
    reveal_strlit("?type=");
    assert(CATALOG_BASE@ + "?type="@ =~= "https://learn.microsoft.com/api/catalog/?type="@);
    let head = CATALOG_BASE@ + "?type="@ + content_type + "&uid="@;
    let all = text::join(uids, ","@);
    text::lemma_cat_assoc(head + all, "&locale="@, locale);
    text::lemma_ends(head + all, "&locale="@ + locale);
    text::lemma_ends(head, all);
    text::lemma_prefix_cat(head, head + all, "&locale="@ + locale);
    lemma_joined(uids, i);
    text::lemma_contains_cat(head, all, uids[i]);
    text::lemma_contains_cat(head + all, "&locale="@ + locale, uids[i]);
}

proof fn lemma_joined(uids: Seq<Seq<char>>, i: int)
    requires
        0 <= i < uids.len(),
    ensures
        text::contains_text(text::join(uids, ","@), uids[i]),
    decreases uids.len(),
{
    let front = uids.drop_last();
    let last = uids.last();
    assert(front.push(last) =~= uids);
    text::law_join(front, ","@, last);
    text::lemma_contains_cat(uids[i], Seq::empty(), uids[i]);
    if front.len() == 0 {
        assert(uids =~= seq![last]);
    } else {
        text::lemma_contains_cat(text::join(front, ","@) + ","@, last, uids[i]);
        if i < front.len() {
            assert(front[i] == uids[i]);
            lemma_joined(front, i);
            text::lemma_contains_cat(text::join(front, ","@), ","@, uids[i]);
        }
    }
}

/// The queries of a long list together ask for every uid that can be asked for.
pub proof fn law_every_uid_is_asked_for(
    content_type: Seq<char>,
    uids: Seq<Seq<char>>,
    locale: Seq<char>,
    i: int,
) -> (k: int)
    requires
        0 <= i < fetchable(uids).len(),
    ensures
        0 <= k < batch_urls(content_type, uids, locale).len(),
        text::contains_text(batch_urls(content_type, uids, locale)[k], fetchable(uids)[i]),
{
    let asked = fetchable(uids);
    let k = law_every_uid_is_in_a_chunk(asked, i);
    let chunk = chunk_at(asked, k);
    let j = choose|j: int| 0 <= j < chunk.len() && chunk[j] == asked[i];
    law_a_query_names_what_it_asks_for(content_type, chunk, locale, j);
    k
}

/// The badge of a certification is that of its first level; a level without a badge gives none.
pub proof fn law_badge_of_a_level(levels: Seq<Seq<char>>, more: Seq<Seq<char>>)
    requires
        levels.len() > 0,
    ensures
        level_badge(levels + more) == level_badge(levels),
        level_badge(levels) is Some <==> levels[0] == "beginner"@ || levels[0] == "intermediate"@
            || levels[0] == "advanced"@,
        levels[0] == "beginner"@ ==> text::has_suffix(
            level_badge(levels)->Some_0,
            "fundamentals"@ + "-badge.svg"@,
        ),
        levels[0] == "intermediate"@ ==> text::has_suffix(
            level_badge(levels)->Some_0,
            "associate"@ + "-badge.svg"@,
        ),
        levels[0] == "advanced"@ ==> text::has_suffix(
            level_badge(levels)->Some_0,
            "expert"@ + "-badge.svg"@,
        ),
{
    reveal_strlit("beginner");
    reveal_strlit("intermediate");
    reveal_strlit("advanced");
    assert("beginner"@.len() == 8 && "advanced"@.len() == 8 && "intermediate"@.len() == 12);
    assert("beginner"@[0] != "advanced"@[0]);
    let head =
        "https://learn.microsoft.com/en-us/media/learn/certification/badges/microsoft-certified-"@;
    text::lemma_cat_assoc(head, "fundamentals"@, "-badge.svg"@);
    text::lemma_cat_assoc(head, "associate"@, "-badge.svg"@);
    text::lemma_cat_assoc(head, "expert"@, "-badge.svg"@);
    text::lemma_ends(head, "fundamentals"@ + "-badge.svg"@);
    text::lemma_ends(head, "associate"@ + "-badge.svg"@);
    text::lemma_ends(head, "expert"@ + "-badge.svg"@);
}

/// Of the items with one uid the last counts, and an item counts where there is one.
pub proof fn law_the_later_counts(keys: Seq<Seq<char>>, i: int)
    requires
        0 <= i < keys.len(),
        forall|j: int| i < j < keys.len() ==> #[trigger] keys[j] != keys[i],
    ensures
        last_with(keys, keys[i]) == Some(i),
    decreases keys.len(),
{
    if i < keys.len() - 1 {
        let front = keys.drop_last();
        assert(front[i] == keys[i]);
        assert(keys.last() != keys[i]);
        assert forall|j: int| i < j < front.len() implies #[trigger] front[j] != front[i] by {
            assert(keys[j] != keys[i]);
        }
        law_the_later_counts(front, i);
    }
}

} // verus!
