//! Resolving an input to its study guide: the ordered learning paths of a certification, an exam
//! or a single path.
//!
//! The catalog has gaps, so resolution is a chain: a certification's own study guide, the course
//! of the exam it is known to map to, the exam it links, the exam its page mentions; and for an
//! exam its own study guide, its course, the learning paths whose titles begin with its code.
//! Each step depends on what the catalog answered to the one before. [`GuideState`] is the chain
//! between two requests: it says what to ask for next and takes the answer.

use crate::catalog;
use crate::catalog::CatalogResponse;
use crate::catalog::CatalogView;
use crate::catalog::RawCert;
use crate::catalog::RawCertView;
use crate::catalog::RawCourse;
use crate::catalog::RawCourseView;
use crate::catalog::RawExam;
use crate::catalog::RawExamView;
use crate::catalog::RawModule;
use crate::catalog::RawModuleView;
use crate::catalog::RawPath;
use crate::catalog::RawPathView;
use crate::catalog::CATALOG_BASE;
use crate::content;
use crate::error;
use crate::error::ResolveError;
use crate::error::ResolveErrorView;
use crate::input;
use crate::input::LearnInput;
use crate::input::LearnInputView;
use crate::resolve;
use crate::text;
use vstd::prelude::*;
use vstd::string::*;

verus! {

broadcast use vstd::seq_lib::group_seq_properties;

/// Outcome of study-guide resolution: the book's title and identifier, and the ordered learning
/// path uids that make up the study guide, or the one module that the book is made of.
#[derive(Debug)]
pub struct StudyGuide {
    pub title: String,
    pub identifier: String,
    pub icon_url: Option<String>,
    pub path_uids: Vec<String>,
    /// The module, where the book is made of that module alone.
    pub single: Option<RawModule>,
}

/// What a [`StudyGuide`] holds.
pub struct StudyGuideView {
    pub title: Seq<char>,
    pub identifier: Seq<char>,
    pub icon_url: Option<Seq<char>>,
    pub path_uids: Seq<Seq<char>>,
    pub single: Option<RawModuleView>,
}

impl DeepView for StudyGuide {
    type V = StudyGuideView;

    open spec fn deep_view(&self) -> StudyGuideView {
        StudyGuideView {
            title: self.title@,
            identifier: self.identifier@,
            icon_url: self.icon_url.deep_view(),
            path_uids: self.path_uids.deep_view(),
            single: self.single.deep_view(),
        }
    }
}

// ---------------------------------------------------------------------------
// Finding items in an answer
// ---------------------------------------------------------------------------

/// The first certification with that uid, from position `from` on.
pub open spec fn find_cert(certs: Seq<RawCertView>, uid: Seq<char>, from: int) -> Option<
    RawCertView,
>
    decreases certs.len() - from,
{
    if from < 0 || from >= certs.len() {
        None
    } else if certs[from].uid == uid {
        Some(certs[from])
    } else {
        find_cert(certs, uid, from + 1)
    }
}

/// The first exam with that uid, from position `from` on.
pub open spec fn find_exam(exams: Seq<RawExamView>, uid: Seq<char>, from: int) -> Option<
    RawExamView,
>
    decreases exams.len() - from,
{
    if from < 0 || from >= exams.len() {
        None
    } else if exams[from].uid == Some(uid) {
        Some(exams[from])
    } else {
        find_exam(exams, uid, from + 1)
    }
}

/// The first course with that uid, from position `from` on.
pub open spec fn find_course(courses: Seq<RawCourseView>, uid: Seq<char>, from: int) -> Option<
    RawCourseView,
>
    decreases courses.len() - from,
{
    if from < 0 || from >= courses.len() {
        None
    } else if courses[from].uid == uid {
        Some(courses[from])
    } else {
        find_course(courses, uid, from + 1)
    }
}

/// The last segment of a page's URL, without query and fragment.
pub open spec fn page_slug(url: Seq<char>) -> Seq<char> {
    text::after_last(
        text::trim_end_of(text::before(text::before(url, '?'), '#'), '/'),
        '/',
    )
}

/// The first learning path whose page has that slug, from position `from` on.
pub open spec fn find_path(paths: Seq<RawPathView>, slug: Seq<char>, from: int) -> Option<
    RawPathView,
>
    decreases paths.len() - from,
{
    if from < 0 || from >= paths.len() {
        None
    } else if paths[from].url is Some && page_slug(paths[from].url->Some_0) == slug {
        Some(paths[from])
    } else {
        find_path(paths, slug, from + 1)
    }
}

/// The badge of the first certification, from position `from` on, that links the exam and has a
/// badge.
pub open spec fn linking_icon(certs: Seq<RawCertView>, exam_uid: Seq<char>, from: int) -> Option<
    Seq<char>,
>
    decreases certs.len() - from,
{
    if from < 0 || from >= certs.len() {
        None
    } else if certs[from].exams.contains(exam_uid) && certs[from].icon_url is Some {
        certs[from].icon_url
    } else {
        linking_icon(certs, exam_uid, from + 1)
    }
}

/// A title begins with an exam's code, both in upper case: `AZ-104: ...`, `AZ-700 ...` or the
/// code alone.
pub open spec fn begins_with_upper(code: Seq<char>, title: Seq<char>) -> bool {
    match text::without_prefix(title, code) {
        Some(rest) => rest.len() == 0 || rest[0] == ':' || rest[0] == ' ',
        None => false,
    }
}

/// A title begins with an exam's code, in whatever case.
pub open spec fn titled_by(code: Seq<char>, title: Seq<char>) -> bool {
    begins_with_upper(text::uppered(code), text::uppered(title))
}

/// A title is that of a prerequisites path.
pub open spec fn is_prerequisite(title: Seq<char>) -> bool {
    text::contains_text(text::lowered(title), "prerequisite"@)
}

/// The paths among the first `n` that a code titles and that are, or are not, prerequisites.
pub open spec fn titled_first(
    paths: Seq<RawPathView>,
    code: Seq<char>,
    prerequisites: bool,
    n: nat,
) -> Seq<RawPathView>
    decreases n,
{
    if n == 0 {
        Seq::empty()
    } else {
        let before = titled_first(paths, code, prerequisites, (n - 1) as nat);
        let p = paths[n - 1];
        if titled_by(code, p.title) && is_prerequisite(p.title) == prerequisites {
            before.push(p)
        } else {
            before
        }
    }
}

/// The paths that a code titles: prerequisites first, otherwise in catalog order.
pub open spec fn titled_paths(paths: Seq<RawPathView>, code: Seq<char>) -> Seq<RawPathView> {
    titled_first(paths, code, true, paths.len()) + titled_first(paths, code, false, paths.len())
}

fn cert_position(certs: &Vec<RawCert>, uid: &str) -> (r: Option<usize>)
    ensures
        match r {
            Some(i) => i < certs@.len() && find_cert(certs.deep_view(), uid@, 0) == Some(
                certs@[i as int].deep_view(),
            ),
            None => find_cert(certs.deep_view(), uid@, 0) is None,
        },
{
    let ghost all = certs.deep_view();
    let n: usize = certs.len();
    for i in 0..n
        invariant
            n == certs@.len(),
            all == certs.deep_view(),
            find_cert(all, uid@, 0) == find_cert(all, uid@, i as int),
    {
        assert(all[i as int] == certs@[i as int].deep_view());
        if text::same_text(certs[i].uid.as_str(), uid) {
            return Some(i);
        }
    }
    None
}

fn exam_position(exams: &Vec<RawExam>, uid: &str) -> (r: Option<usize>)
    ensures
        match r {
            Some(i) => i < exams@.len() && find_exam(exams.deep_view(), uid@, 0) == Some(
                exams@[i as int].deep_view(),
            ),
            None => find_exam(exams.deep_view(), uid@, 0) is None,
        },
{
    let ghost all = exams.deep_view();
    let n: usize = exams.len();
    for i in 0..n
        invariant
            n == exams@.len(),
            all == exams.deep_view(),
            find_exam(all, uid@, 0) == find_exam(all, uid@, i as int),
    {
        assert(all[i as int] == exams@[i as int].deep_view());
        if let Some(u) = &exams[i].uid {
            if text::same_text(u.as_str(), uid) {
                return Some(i);
            }
        }
    }
    None
}

fn course_position(courses: &Vec<RawCourse>, uid: &str) -> (r: Option<usize>)
    ensures
        match r {
            Some(i) => i < courses@.len() && find_course(courses.deep_view(), uid@, 0) == Some(
                courses@[i as int].deep_view(),
            ),
            None => find_course(courses.deep_view(), uid@, 0) is None,
        },
{
    let ghost all = courses.deep_view();
    let n: usize = courses.len();
    for i in 0..n
        invariant
            n == courses@.len(),
            all == courses.deep_view(),
            find_course(all, uid@, 0) == find_course(all, uid@, i as int),
    {
        assert(all[i as int] == courses@[i as int].deep_view());
        if text::same_text(courses[i].uid.as_str(), uid) {
            return Some(i);
        }
    }
    None
}

fn slug_of_page(url: &str) -> (r: String)
    ensures
        r@ == page_slug(url@),
{
    let cs = text::chars_of(url);
    let page = text::before_char(text::before_char(cs.as_slice(), '?'), '#');
    text::text_of(text::after_last_char(text::trimmed_end_of(page, '/'), '/'))
}

fn path_position(paths: &Vec<RawPath>, slug: &str) -> (r: Option<usize>)
    ensures
        match r {
            Some(i) => i < paths@.len() && find_path(paths.deep_view(), slug@, 0) == Some(
                paths@[i as int].deep_view(),
            ),
            None => find_path(paths.deep_view(), slug@, 0) is None,
        },
{
    let ghost all = paths.deep_view();
    let n: usize = paths.len();
    for i in 0..n
        invariant
            n == paths@.len(),
            all == paths.deep_view(),
            find_path(all, slug@, 0) == find_path(all, slug@, i as int),
    {
        assert(all[i as int] == paths@[i as int].deep_view());
        if let Some(u) = &paths[i].url {
            if text::same_text(slug_of_page(u.as_str()).as_str(), slug) {
                return Some(i);
            }
        }
    }
    None
}

/// The badge of the certification that owns an exam: the first that links it and has one. Lets
/// an exam's book show the certification's badge rather than dropping it.
pub fn cert_icon_for_exam(certs: &Vec<RawCert>, exam_uid: &str) -> (r: Option<String>)
    ensures
        r.deep_view() == linking_icon(certs.deep_view(), exam_uid@, 0),
{
    let ghost all = certs.deep_view();
    let n: usize = certs.len();
    for i in 0..n
        invariant
            n == certs@.len(),
            all == certs.deep_view(),
            linking_icon(all, exam_uid@, 0) == linking_icon(all, exam_uid@, i as int),
    {
        assert(all[i as int] == certs@[i as int].deep_view());
        if let Some(icon) = &certs[i].icon_url {
            if catalog::holds_text(&certs[i].exams, exam_uid) {
                return Some(icon.clone());
            }
        }
    }
    None
}

/// Whether a title begins with an exam's code, both in upper case.
pub fn begins_with_code(code_upper: &str, title_upper: &str) -> (r: bool)
    ensures
        r == begins_with_upper(code_upper@, title_upper@),
{
    let cs = text::chars_of(title_upper);
    match text::strip_prefix(cs.as_slice(), code_upper) {
        Some(rest) => rest.len() == 0 || rest[0] == ':' || rest[0] == ' ',
        None => false,
    }
}

/// The learning paths whose title begins with `<CODE>:` or `<CODE> ` (e.g. `AZ-104:`);
/// prerequisites paths float to the front.
pub fn learning_paths_by_prefix(paths: &Vec<RawPath>, code: &str) -> (r: Vec<RawPath>)
    ensures
        r.deep_view() == titled_paths(paths.deep_view(), code@),
{
    let ghost all = paths.deep_view();
    let code_upper = text::uppercase(code);
    let n: usize = paths.len();
    let mut first: Vec<RawPath> = Vec::new();
    let mut rest: Vec<RawPath> = Vec::new();
    for i in 0..n
        invariant
            n == paths@.len(),
            all == paths.deep_view(),
            code_upper@ == text::uppered(code@),
            first.deep_view() =~= titled_first(all, code@, true, i as nat),
            rest.deep_view() =~= titled_first(all, code@, false, i as nat),
    {
        assert(all[i as int] == paths@[i as int].deep_view());
        let title = paths[i].title.as_str();
        if begins_with_code(code_upper.as_str(), text::uppercase(title).as_str()) {
            let lower = text::lowercase(title);
            if text::contains_str(text::chars_of(lower.as_str()).as_slice(), "prerequisite") {
                text::push_item(&mut first, paths[i].copied());
            } else {
                text::push_item(&mut rest, paths[i].copied());
            }
        }
    }
    let ghost a = first.deep_view();
    let ghost b = rest.deep_view();
    first.append(&mut rest);
    assert(first.deep_view() =~= a + b);
    first
}

// ---------------------------------------------------------------------------
// The chain between two requests
// ---------------------------------------------------------------------------

/// What to ask for.
#[derive(Debug)]
pub enum Request {
    /// A catalog query, by its URL.
    Catalog(String),
    /// A web page, by its URL.
    Page(String),
}

/// What a [`Request`] holds.
pub enum RequestView {
    Catalog(Seq<char>),
    Page(Seq<char>),
}

impl DeepView for Request {
    type V = RequestView;

    open spec fn deep_view(&self) -> RequestView {
        match self {
            Request::Catalog(url) => RequestView::Catalog(url@),
            Request::Page(url) => RequestView::Page(url@),
        }
    }
}

/// Where the resolution of a study guide stands.
#[derive(Debug)]
pub enum GuideState {
    /// The certification is being looked up.
    Cert { uid: String },
    /// The certification has no study guide; the course of the exam that it is known to map to is
    /// being looked up: the full course, or the second one that is tried.
    CertCourse { cert: RawCert, code: String, second: bool },
    /// The certification links no exam; its page is being read for one.
    CertPage { cert: RawCert },
    /// An exam is being looked up, for itself or for a certification.
    Exam { owner: Option<RawCert>, uid: String },
    /// The certifications are being listed for the one that links the exam.
    ExamIcon { owner: Option<RawCert>, uid: String, exam: Option<RawExam> },
    /// The exam has no study guide; its course is being looked up.
    ExamCourse {
        owner: Option<RawCert>,
        uid: String,
        title: Option<String>,
        icon_url: Option<String>,
        second: bool,
    },
    /// The exam has no course either; the learning paths are being listed for those whose titles
    /// begin with its code.
    ExamPaths {
        owner: Option<RawCert>,
        uid: String,
        title: Option<String>,
        icon_url: Option<String>,
    },
    /// The learning paths are being listed for the one with that slug.
    Path { slug: String },
    /// An instructor-led course is being looked up.
    Course { uid: String },
    /// The modules are being listed for the one with that slug.
    Module { slug: String },
    Done(StudyGuide),
    Failed(ResolveError),
}

/// What a [`GuideState`] holds.
pub enum GuideView {
    Cert { uid: Seq<char> },
    CertCourse { cert: RawCertView, code: Seq<char>, second: bool },
    CertPage { cert: RawCertView },
    Exam { owner: Option<RawCertView>, uid: Seq<char> },
    ExamIcon { owner: Option<RawCertView>, uid: Seq<char>, exam: Option<RawExamView> },
    ExamCourse {
        owner: Option<RawCertView>,
        uid: Seq<char>,
        title: Option<Seq<char>>,
        icon_url: Option<Seq<char>>,
        second: bool,
    },
    ExamPaths {
        owner: Option<RawCertView>,
        uid: Seq<char>,
        title: Option<Seq<char>>,
        icon_url: Option<Seq<char>>,
    },
    Path { slug: Seq<char> },
    Course { uid: Seq<char> },
    Module { slug: Seq<char> },
    Done(StudyGuideView),
    Failed(ResolveErrorView),
}

impl DeepView for GuideState {
    type V = GuideView;

    open spec fn deep_view(&self) -> GuideView {
        match self {
            GuideState::Cert { uid } => GuideView::Cert { uid: uid@ },
            GuideState::CertCourse { cert, code, second } => GuideView::CertCourse {
                cert: cert.deep_view(),
                code: code@,
                second: *second,
            },
            GuideState::CertPage { cert } => GuideView::CertPage { cert: cert.deep_view() },
            GuideState::Exam { owner: cert, uid } => GuideView::Exam {
                owner: cert.deep_view(),
                uid: uid@,
            },
            GuideState::ExamIcon { owner: cert, uid, exam } => GuideView::ExamIcon {
                owner: cert.deep_view(),
                uid: uid@,
                exam: exam.deep_view(),
            },
            GuideState::ExamCourse { owner: cert, uid, title, icon_url, second } => GuideView::ExamCourse {
                owner: cert.deep_view(),
                uid: uid@,
                title: title.deep_view(),
                icon_url: icon_url.deep_view(),
                second: *second,
            },
            GuideState::ExamPaths { owner: cert, uid, title, icon_url } => GuideView::ExamPaths {
                owner: cert.deep_view(),
                uid: uid@,
                title: title.deep_view(),
                icon_url: icon_url.deep_view(),
            },
            GuideState::Path { slug } => GuideView::Path { slug: slug@ },
            GuideState::Course { uid } => GuideView::Course { uid: uid@ },
            GuideState::Module { slug } => GuideView::Module { slug: slug@ },
            GuideState::Done(g) => GuideView::Done(g.deep_view()),
            GuideState::Failed(e) => GuideView::Failed(e.deep_view()),
        }
    }
}

/// The uid of an exam's course. The course numbering is `<exam-code>T<NN>`; `T00` is the full
/// official course, and `T01` is tried where there is none.
pub open spec fn course_uid(code: Seq<char>, second: bool) -> Seq<char> {
    "course."@ + text::lowered(input::bare_code(code)) + (if second {
        "t01"@
    } else {
        "t00"@
    })
}

/// The page of a certification.
pub open spec fn cert_page_url(cert_uid: Seq<char>, locale: Seq<char>) -> Seq<char> {
    "https://learn.microsoft.com/"@ + locale + "/credentials/certifications/"@ + (
    match text::without_prefix(cert_uid, "certification."@) {
        Some(slug) => slug,
        None => cert_uid,
    }) + "/"@
}

/// The URL that lists every learning path.
pub open spec fn all_paths_url(locale: Seq<char>) -> Seq<char> {
    CATALOG_BASE@ + "?type=learningPaths&locale="@ + locale
}

impl GuideView {
    /// The chain has come to its end.
    pub open spec fn ended(self) -> bool {
        self is Done || self is Failed
    }

    /// What the chain asks for.
    pub open spec fn request(self, locale: Seq<char>) -> Option<RequestView> {
        match self {
            GuideView::Cert { uid } => Some(
                RequestView::Catalog(catalog::query_url("certifications"@, seq![uid], locale)),
            ),
            GuideView::CertCourse { code, second, .. } => Some(
                RequestView::Catalog(
                    catalog::query_url("courses"@, seq![course_uid(code, second)], locale),
                ),
            ),
            GuideView::CertPage { cert } => Some(
                RequestView::Page(cert_page_url(cert.uid, locale)),
            ),
            GuideView::Exam { uid, .. } => Some(
                RequestView::Catalog(catalog::query_url("exams"@, seq![uid], locale)),
            ),
            GuideView::ExamIcon { .. } => Some(
                RequestView::Catalog(catalog::query_url("certifications"@, Seq::empty(), locale)),
            ),
            GuideView::ExamCourse { uid, second, .. } => Some(
                RequestView::Catalog(
                    catalog::query_url("courses"@, seq![course_uid(uid, second)], locale),
                ),
            ),
            GuideView::ExamPaths { .. } => Some(RequestView::Catalog(all_paths_url(locale))),
            GuideView::Path { .. } => Some(
                RequestView::Catalog(catalog::query_url("learningPaths"@, Seq::empty(), locale)),
            ),
            GuideView::Course { uid } => Some(
                RequestView::Catalog(catalog::query_url("courses"@, seq![uid], locale)),
            ),
            GuideView::Module { .. } => Some(
                RequestView::Catalog(catalog::query_url("modules"@, Seq::empty(), locale)),
            ),
            GuideView::Done(_) => None,
            GuideView::Failed(_) => None,
        }
    }
}

/// The chain's beginning for an input.
pub open spec fn guide_start(input: Seq<char>) -> GuideView {
    match input::classified(input) {
        Ok(LearnInputView::Cert(uid)) => GuideView::Cert { uid },
        Ok(LearnInputView::Exam(uid)) => GuideView::Exam { owner: None, uid },
        Ok(LearnInputView::Path(slug)) => GuideView::Path { slug },
        Ok(LearnInputView::Course(uid)) => GuideView::Course { uid: text::lowered(uid) },
        Ok(LearnInputView::Module(slug)) => GuideView::Module { slug },
        Err(e) => GuideView::Failed(e),
    }
}

/// A certification's book, made of those paths: it keeps the certification's title and badge.
pub open spec fn cert_guide(cert: RawCertView, path_uids: Seq<Seq<char>>) -> StudyGuideView {
    StudyGuideView {
        title: cert.title,
        identifier: cert.uid,
        icon_url: cert.icon_url,
        path_uids,
        single: None,
    }
}

/// A certification for which no paths were found.
pub open spec fn no_paths(cert_uid: Seq<char>) -> ResolveErrorView {
    ResolveErrorView::NoPaths(
        cert_uid
            + " (no study guide and could not resolve an exam; pass the exam code, e.g. az-104)"@,
    )
}

/// The chain once a certification turned out to have no paths of its own: its linked exam, or
/// its page.
pub open spec fn cert_exam(cert: RawCertView) -> GuideView {
    if cert.exams.len() > 0 {
        GuideView::Exam { owner: Some(cert), uid: cert.exams[0] }
    } else if text::has_prefix(cert.uid, "certification."@) {
        GuideView::CertPage { cert }
    } else {
        GuideView::Failed(no_paths(cert.uid))
    }
}

/// The chain once a certification was found.
pub open spec fn cert_found(cert: RawCertView) -> GuideView {
    let paths = catalog::guide_paths(cert.study_guide);
    if paths.len() > 0 {
        GuideView::Done(cert_guide(cert, paths))
    } else {
        match resolve::curated_code(cert.uid) {
            Some(code) => GuideView::CertCourse { cert, code, second: false },
            None => cert_exam(cert),
        }
    }
}

/// The chain once an exam's paths are known, or known not to exist: an exam looked up for a
/// certification lends it its paths.
pub open spec fn exam_found(cert: Option<RawCertView>, exam: StudyGuideView) -> GuideView {
    match cert {
        Some(c) => if exam.path_uids.len() > 0 {
            GuideView::Done(cert_guide(c, exam.path_uids))
        } else {
            GuideView::Failed(no_paths(c.uid))
        },
        None => if exam.path_uids.len() > 0 {
            GuideView::Done(exam)
        } else {
            GuideView::Failed(ResolveErrorView::NoPaths(exam.identifier))
        },
    }
}

/// The course in an answer, where it is there and has paths.
pub open spec fn course_in(
    reply: Result<CatalogView, ResolveErrorView>,
    uid: Seq<char>,
) -> Option<RawCourseView> {
    match reply {
        Ok(r) => match find_course(r.courses, uid, 0) {
            Some(course) if catalog::guide_paths(course.study_guide).len() > 0 => Some(course),
            _ => None,
        },
        Err(_) => None,
    }
}

/// The first of two that is there.
pub open spec fn either(a: Option<Seq<char>>, b: Option<Seq<char>>) -> Option<Seq<char>> {
    match a {
        Some(_) => a,
        None => b,
    }
}

/// What is there, or a substitute.
pub open spec fn text_or(a: Option<Seq<char>>, b: Seq<char>) -> Seq<char> {
    match a {
        Some(s) => s,
        None => b,
    }
}

/// An exam's book, made of its course's paths: the course's title and badge stand in for what the
/// exam lacks. The badge of the course's level goes before the course's own icon.
pub open spec fn course_guide(
    uid: Seq<char>,
    title: Option<Seq<char>>,
    icon_url: Option<Seq<char>>,
    course: RawCourseView,
) -> StudyGuideView {
    StudyGuideView {
        title: text_or(either(title, course.title), uid),
        identifier: uid,
        icon_url: either(icon_url, either(catalog::level_badge(course.levels), course.icon_url)),
        path_uids: catalog::guide_paths(course.study_guide),
        single: None,
    }
}

/// An exam's book, made of the paths that its code titles.
pub open spec fn titled_guide(
    uid: Seq<char>,
    title: Option<Seq<char>>,
    icon_url: Option<Seq<char>>,
    paths: Seq<RawPathView>,
) -> StudyGuideView {
    let code = input::exam_label(uid);
    let found = titled_paths(paths, code);
    StudyGuideView {
        title: text_or(
            either(
                title,
                if found.len() == 1 {
                    Some(found[0].title)
                } else {
                    None
                },
            ),
            code + " study guide"@,
        ),
        identifier: uid,
        icon_url,
        path_uids: catalog::path_keys(found),
        single: None,
    }
}

/// An exam's book, made of its own study guide.
pub open spec fn exam_guide(
    uid: Seq<char>,
    exam: RawExamView,
    icon_url: Option<Seq<char>>,
) -> StudyGuideView {
    StudyGuideView {
        title: text_or(exam.title, uid),
        identifier: uid,
        icon_url,
        path_uids: catalog::guide_paths(exam.study_guide),
        single: None,
    }
}

/// The chain once an exam's badge is known.
pub open spec fn exam_icon_known(
    cert: Option<RawCertView>,
    uid: Seq<char>,
    exam: Option<RawExamView>,
    icon_url: Option<Seq<char>>,
) -> GuideView {
    match exam {
        Some(e) => if catalog::guide_paths(e.study_guide).len() > 0 {
            exam_found(cert, exam_guide(uid, e, icon_url))
        } else {
            GuideView::ExamCourse { owner: cert, uid, title: e.title, icon_url, second: false }
        },
        None => GuideView::ExamCourse { owner: cert, uid, title: None, icon_url, second: false },
    }
}

/// The badge of an exam: that of a certification that links it, or its own.
pub open spec fn exam_icon(
    reply: Result<CatalogView, ResolveErrorView>,
    uid: Seq<char>,
    exam: Option<RawExamView>,
) -> Option<Seq<char>> {
    either(
        match reply {
            Ok(r) => linking_icon(r.certifications, uid, 0),
            Err(_) => None,
        },
        match exam {
            Some(e) => e.icon_url,
            None => None,
        },
    )
}

/// The single-path book of the learning path with that slug.
pub open spec fn path_found(paths: Seq<RawPathView>, slug: Seq<char>) -> GuideView {
    match find_path(paths, slug, 0) {
        Some(p) => GuideView::Done(
            StudyGuideView {
                title: p.title,
                identifier: p.uid,
                icon_url: p.icon_url,
                path_uids: seq![p.uid],
                single: None,
            },
        ),
        None => GuideView::Failed(
            ResolveErrorView::NoPaths("learning path \""@ + slug + "\""@),
        ),
    }
}

/// The book of a course: its own title and badge, and the paths of its study guide.
pub open spec fn course_found(
    reply: Result<CatalogView, ResolveErrorView>,
    uid: Seq<char>,
) -> GuideView {
    match reply {
        Ok(_) => match course_in(reply, uid) {
            Some(course) => GuideView::Done(course_guide(uid, None, None, course)),
            None => GuideView::Failed(ResolveErrorView::NoPaths(uid)),
        },
        Err(e) => GuideView::Failed(e),
    }
}

/// The first module whose page has that slug, from position `from` on.
pub open spec fn find_module(modules: Seq<RawModuleView>, slug: Seq<char>, from: int) -> Option<
    RawModuleView,
>
    decreases modules.len() - from,
{
    if from < 0 || from >= modules.len() {
        None
    } else if modules[from].url is Some && content::module_slug(modules[from].url->Some_0) == Some(
        slug,
    ) {
        Some(modules[from])
    } else {
        find_module(modules, slug, from + 1)
    }
}

/// The single-module book of the module with that slug.
pub open spec fn module_found(modules: Seq<RawModuleView>, slug: Seq<char>) -> GuideView {
    match find_module(modules, slug, 0) {
        Some(m) => GuideView::Done(
            StudyGuideView {
                title: m.title,
                identifier: m.uid,
                icon_url: None,
                path_uids: Seq::empty(),
                single: Some(m),
            },
        ),
        None => GuideView::Failed(ResolveErrorView::ModuleNotFound(slug)),
    }
}

impl GuideView {
    /// The chain after the catalog's answer.
    pub open spec fn next(self, reply: Result<CatalogView, ResolveErrorView>) -> GuideView {
        match self {
            GuideView::Cert { uid } => match reply {
                Ok(r) => match find_cert(r.certifications, uid, 0) {
                    Some(cert) => cert_found(cert),
                    None => GuideView::Failed(ResolveErrorView::CertNotFound(uid)),
                },
                Err(e) => GuideView::Failed(e),
            },
            GuideView::CertCourse { cert, code, second } => match course_in(
                reply,
                course_uid(code, second),
            ) {
                Some(course) => GuideView::Done(
                    cert_guide(cert, catalog::guide_paths(course.study_guide)),
                ),
                None => if second {
                    cert_exam(cert)
                } else {
                    GuideView::CertCourse { cert, code, second: true }
                },
            },
            GuideView::Exam { owner: cert, uid } => match reply {
                Ok(r) => GuideView::ExamIcon { owner: cert, uid, exam: find_exam(r.exams, uid, 0) },
                Err(e) => GuideView::Failed(e),
            },
            GuideView::ExamIcon { owner: cert, uid, exam } => exam_icon_known(
                cert,
                uid,
                exam,
                exam_icon(reply, uid, exam),
            ),
            GuideView::ExamCourse { owner: cert, uid, title, icon_url, second } => match course_in(
                reply,
                course_uid(uid, second),
            ) {
                Some(course) => exam_found(cert, course_guide(uid, title, icon_url, course)),
                None => if second {
                    GuideView::ExamPaths { owner: cert, uid, title, icon_url }
                } else {
                    GuideView::ExamCourse { owner: cert, uid, title, icon_url, second: true }
                },
            },
            GuideView::ExamPaths { owner: cert, uid, title, icon_url } => match reply {
                Ok(r) => exam_found(cert, titled_guide(uid, title, icon_url, r.learning_paths)),
                Err(e) => GuideView::Failed(e),
            },
            GuideView::Path { slug } => match reply {
                Ok(r) => path_found(r.learning_paths, slug),
                Err(e) => GuideView::Failed(e),
            },
            GuideView::Course { uid } => course_found(reply, uid),
            GuideView::Module { slug } => match reply {
                Ok(r) => module_found(r.modules, slug),
                Err(e) => GuideView::Failed(e),
            },
            _ => self,
        }
    }

    /// The chain after a certification's page was read, or could not be.
    pub open spec fn next_page(self, page: Option<Seq<char>>) -> GuideView {
        match self {
            GuideView::CertPage { cert } => match page {
                Some(html) => match input::exam_uid_from(text::lowered(html), 0) {
                    Some(uid) => GuideView::Exam { owner: Some(cert), uid },
                    None => GuideView::Failed(no_paths(cert.uid)),
                },
                None => GuideView::Failed(no_paths(cert.uid)),
            },
            _ => self,
        }
    }
}

fn course_uid_of(code: &str, second: bool) -> (r: String)
    ensures
        r@ == course_uid(code@, second),
{
    let mut s = "course.".to_owned();
    s.append(text::lowercase(input::exam_code_of(code).as_str()).as_str());
    if second {
        s.append("t01");
    } else {
        s.append("t00");
    }
    s
}

fn page_of_cert(cert_uid: &str, locale: &str) -> (r: String)
    ensures
        r@ == cert_page_url(cert_uid@, locale@),
{
    let cs = text::chars_of(cert_uid);
    let mut s = "https://learn.microsoft.com/".to_owned();
    s.append(locale);
    s.append("/credentials/certifications/");
    match text::strip_prefix(cs.as_slice(), "certification.") {
        Some(slug) => {
            text::push_chars(&mut s, slug);
        },
        None => {
            s.append(cert_uid);
        },
    }
    s.append("/");
    s
}

fn cert_book(cert: RawCert, path_uids: Vec<String>) -> (r: GuideState)
    ensures
        r.deep_view() == GuideView::Done(cert_guide(cert.deep_view(), path_uids.deep_view())),
{
    GuideState::Done(
        StudyGuide {
            title: cert.title,
            identifier: cert.uid,
            icon_url: cert.icon_url,
            path_uids,
            single: None,
        },
    )
}

fn fail_cert(cert_uid: &str) -> (r: GuideState)
    ensures
        r.deep_view() == GuideView::Failed(no_paths(cert_uid@)),
{
    let mut m = cert_uid.to_owned();
    m.append(" (no study guide and could not resolve an exam; pass the exam code, e.g. az-104)");
    GuideState::Failed(ResolveError::NoPaths(m))
}

fn go_to_exam(cert: RawCert) -> (r: GuideState)
    ensures
        r.deep_view() == cert_exam(cert.deep_view()),
{
    if cert.exams.len() > 0 {
        let uid = cert.exams[0].clone();
        assert(cert.exams.deep_view()[0] == cert.exams@[0]@);
        return GuideState::Exam { owner: Some(cert), uid };
    }
    if text::starts_with(text::chars_of(cert.uid.as_str()).as_slice(), "certification.") {
        return GuideState::CertPage { cert };
    }
    fail_cert(cert.uid.as_str())
}

fn go_from_cert(cert: RawCert) -> (r: GuideState)
    ensures
        r.deep_view() == cert_found(cert.deep_view()),
{
    let paths = catalog::study_guide_paths(&cert.study_guide);
    if paths.len() > 0 {
        return cert_book(cert, paths);
    }
    match resolve::curated_exam_code(cert.uid.as_str()) {
        Some(code) => GuideState::CertCourse { cert, code: code.to_owned(), second: false },
        None => go_to_exam(cert),
    }
}

fn go_from_exam(cert: Option<RawCert>, exam: StudyGuide) -> (r: GuideState)
    ensures
        r.deep_view() == exam_found(cert.deep_view(), exam.deep_view()),
{
    match cert {
        Some(c) => {
            if exam.path_uids.len() > 0 {
                cert_book(c, exam.path_uids)
            } else {
                fail_cert(c.uid.as_str())
            }
        },
        None => {
            if exam.path_uids.len() > 0 {
                GuideState::Done(exam)
            } else {
                GuideState::Failed(ResolveError::NoPaths(exam.identifier))
            }
        },
    }
}

fn take_course(reply: Result<CatalogResponse, ResolveError>, uid: &str) -> (r: Option<RawCourse>)
    ensures
        r.deep_view() == course_in(error::outcome(reply), uid@),
{
    match reply {
        Ok(mut resp) => match course_position(&resp.courses, uid) {
            Some(i) => {
                let course = resp.courses.remove(i);
                if catalog::study_guide_paths(&course.study_guide).len() > 0 {
                    Some(course)
                } else {
                    None
                }
            },
            None => None,
        },
        Err(_) => None,
    }
}

fn first_of(a: Option<String>, b: Option<String>) -> (r: Option<String>)
    ensures
        r.deep_view() == either(a.deep_view(), b.deep_view()),
{
    match a {
        Some(s) => Some(s),
        None => b,
    }
}

fn or_text(a: Option<String>, b: &str) -> (r: String)
    ensures
        r@ == text_or(a.deep_view(), b@),
{
    match a {
        Some(s) => s,
        None => b.to_owned(),
    }
}

fn book_of_course(
    uid: String,
    title: Option<String>,
    icon_url: Option<String>,
    course: RawCourse,
) -> (r: StudyGuide)
    ensures
        r.deep_view() == course_guide(
            uid@,
            title.deep_view(),
            icon_url.deep_view(),
            course.deep_view(),
        ),
{
    let path_uids = catalog::study_guide_paths(&course.study_guide);
    let badge = first_of(catalog::cert_level_badge(&course.levels), course.icon_url);
    let name = or_text(first_of(title, course.title), uid.as_str());
    StudyGuide {
        title: name,
        identifier: uid,
        icon_url: first_of(icon_url, badge),
        path_uids,
        single: None,
    }
}

fn uids_of_paths(paths: &Vec<RawPath>) -> (r: Vec<String>)
    ensures
        r.deep_view() == catalog::path_keys(paths.deep_view()),
{
    let ghost all = paths.deep_view();
    let n: usize = paths.len();
    let mut r: Vec<String> = Vec::new();
    for i in 0..n
        invariant
            n == paths@.len(),
            all == paths.deep_view(),
            r.deep_view() =~= catalog::path_keys(all).take(i as int),
    {
        assert(all[i as int] == paths@[i as int].deep_view());
        text::push_item(&mut r, paths[i].uid.clone());
    }
    r
}

fn book_of_titles(
    uid: String,
    title: Option<String>,
    icon_url: Option<String>,
    paths: &Vec<RawPath>,
) -> (r: StudyGuide)
    ensures
        r.deep_view() == titled_guide(
            uid@,
            title.deep_view(),
            icon_url.deep_view(),
            paths.deep_view(),
        ),
{
    let code = input::exam_code_label(uid.as_str());
    let found = learning_paths_by_prefix(paths, code.as_str());
    let single = if found.len() == 1 {
        assert(found.deep_view()[0] == found@[0].deep_view());
        Some(found[0].title.clone())
    } else {
        None
    };
    let mut generic = code.clone();
    generic.append(" study guide");
    let name = or_text(first_of(title, single), generic.as_str());
    StudyGuide {
        title: name,
        identifier: uid,
        icon_url,
        path_uids: uids_of_paths(&found),
        single: None,
    }
}

fn go_from_icon(
    cert: Option<RawCert>,
    uid: String,
    exam: Option<RawExam>,
    reply: Result<CatalogResponse, ResolveError>,
) -> (r: GuideState)
    ensures
        r.deep_view() == exam_icon_known(
            cert.deep_view(),
            uid@,
            exam.deep_view(),
            exam_icon(error::outcome(reply), uid@, exam.deep_view()),
        ),
{
    let linked = match &reply {
        Ok(resp) => cert_icon_for_exam(&resp.certifications, uid.as_str()),
        Err(_) => None,
    };
    match exam {
        Some(e) => {
            let icon_url = first_of(linked, e.icon_url);
            let path_uids = catalog::study_guide_paths(&e.study_guide);
            if path_uids.len() > 0 {
                let title = or_text(e.title, uid.as_str());
                go_from_exam(
                    cert,
                    StudyGuide { title, identifier: uid, icon_url, path_uids, single: None },
                )
            } else {
                GuideState::ExamCourse { owner: cert, uid, title: e.title, icon_url, second: false }
            }
        },
        None => {
            let icon_url = first_of(linked, None);
            GuideState::ExamCourse { owner: cert, uid, title: None, icon_url, second: false }
        },
    }
}

fn go_from_paths(mut paths: Vec<RawPath>, slug: String) -> (r: GuideState)
    ensures
        r.deep_view() == path_found(paths.deep_view(), slug@),
{
    match path_position(&paths, slug.as_str()) {
        Some(i) => {
            let p = paths.remove(i);
            let mut path_uids: Vec<String> = Vec::new();
            path_uids.push(p.uid.clone());
            assert(path_uids.deep_view() =~= seq![p.uid@]);
            GuideState::Done(
                StudyGuide {
                    title: p.title,
                    identifier: p.uid,
                    icon_url: p.icon_url,
                    path_uids,
                    single: None,
                },
            )
        },
        None => {
            let mut m = "learning path \"".to_owned();
            m.append(slug.as_str());
            m.append("\"");
            GuideState::Failed(ResolveError::NoPaths(m))
        },
    }
}

fn go_from_course(reply: Result<CatalogResponse, ResolveError>, uid: String) -> (r: GuideState)
    ensures
        r.deep_view() == course_found(error::outcome(reply), uid@),
{
    match reply {
        Err(e) => GuideState::Failed(e),
        Ok(resp) => match take_course(Ok(resp), uid.as_str()) {
            Some(course) => GuideState::Done(book_of_course(uid, None, None, course)),
            None => GuideState::Failed(ResolveError::NoPaths(uid)),
        },
    }
}

fn module_position(modules: &Vec<RawModule>, slug: &str) -> (r: Option<usize>)
    ensures
        match r {
            Some(i) => i < modules@.len() && find_module(modules.deep_view(), slug@, 0) == Some(
                modules@[i as int].deep_view(),
            ),
            None => find_module(modules.deep_view(), slug@, 0) is None,
        },
{
    let ghost all = modules.deep_view();
    let n: usize = modules.len();
    for i in 0..n
        invariant
            n == modules@.len(),
            all == modules.deep_view(),
            find_module(all, slug@, 0) == find_module(all, slug@, i as int),
    {
        assert(all[i as int] == modules@[i as int].deep_view());
        if let Some(u) = &modules[i].url {
            if let Some(s) = content::module_slug_from_url(u.as_str()) {
                if text::same_text(s.as_str(), slug) {
                    return Some(i);
                }
            }
        }
    }
    None
}

fn go_from_modules(mut modules: Vec<RawModule>, slug: String) -> (r: GuideState)
    ensures
        r.deep_view() == module_found(modules.deep_view(), slug@),
{
    match module_position(&modules, slug.as_str()) {
        Some(i) => {
            let m = modules.remove(i);
            let path_uids: Vec<String> = Vec::new();
            assert(path_uids.deep_view() =~= Seq::<Seq<char>>::empty());
            GuideState::Done(
                StudyGuide {
                    title: m.title.clone(),
                    identifier: m.uid.clone(),
                    icon_url: None,
                    path_uids,
                    single: Some(m),
                },
            )
        },
        None => GuideState::Failed(ResolveError::ModuleNotFound(slug)),
    }
}

impl GuideState {
    /// The chain's beginning for an input.
    pub fn start(input: &str) -> (r: GuideState)
        ensures
            r.deep_view() == guide_start(input@),
    {
        match input::parse_input(input) {
            Ok(LearnInput::Cert(uid)) => GuideState::Cert { uid },
            Ok(LearnInput::Exam(uid)) => GuideState::Exam { owner: None, uid },
            Ok(LearnInput::Path(slug)) => GuideState::Path { slug },
            Ok(LearnInput::Course(uid)) => GuideState::Course {
                uid: text::lowercase(uid.as_str()),
            },
            Ok(LearnInput::Module(slug)) => GuideState::Module { slug },
            Err(e) => GuideState::Failed(e),
        }
    }

    /// What to ask for next: nothing once the chain has come to its end.
    pub fn request(&self, locale: &str) -> (r: Option<Request>)
        ensures
            r.deep_view() == self.deep_view().request(locale@),
    {
        match self {
            GuideState::Cert { uid } => Some(
                Request::Catalog(catalog::url_of_one("certifications", uid.as_str(), locale)),
            ),
            GuideState::CertCourse { code, second, .. } => Some(
                Request::Catalog(
                    catalog::url_of_one(
                        "courses",
                        course_uid_of(code.as_str(), *second).as_str(),
                        locale,
                    ),
                ),
            ),
            GuideState::CertPage { cert } => Some(
                Request::Page(page_of_cert(cert.uid.as_str(), locale)),
            ),
            GuideState::Exam { uid, .. } => Some(
                Request::Catalog(catalog::url_of_one("exams", uid.as_str(), locale)),
            ),
            GuideState::ExamIcon { .. } => Some(
                Request::Catalog(catalog::url_of_all("certifications", locale)),
            ),
            GuideState::ExamCourse { uid, second, .. } => Some(
                Request::Catalog(
                    catalog::url_of_one(
                        "courses",
                        course_uid_of(uid.as_str(), *second).as_str(),
                        locale,
                    ),
                ),
            ),
            GuideState::ExamPaths { .. } => {
                let mut url = CATALOG_BASE.to_owned();
                url.append("?type=learningPaths&locale=");
                url.append(locale);
                Some(Request::Catalog(url))
            },
            GuideState::Path { .. } => Some(
                Request::Catalog(catalog::url_of_all("learningPaths", locale)),
            ),
            GuideState::Course { uid } => Some(
                Request::Catalog(catalog::url_of_one("courses", uid.as_str(), locale)),
            ),
            GuideState::Module { .. } => Some(
                Request::Catalog(catalog::url_of_all("modules", locale)),
            ),
            GuideState::Done(_) => None,
            GuideState::Failed(_) => None,
        }
    }

    /// Takes the catalog's answer. A chain that did not ask the catalog stays as it is.
    pub fn next(self, reply: Result<CatalogResponse, ResolveError>) -> (r: GuideState)
        ensures
            r.deep_view() == self.deep_view().next(error::outcome(reply)),
    {
        match self {
            GuideState::Cert { uid } => match reply {
                Ok(mut resp) => match cert_position(&resp.certifications, uid.as_str()) {
                    Some(i) => go_from_cert(resp.certifications.remove(i)),
                    None => GuideState::Failed(ResolveError::CertNotFound(uid)),
                },
                Err(e) => GuideState::Failed(e),
            },
            GuideState::CertCourse { cert, code, second } => {
                let course_uid = course_uid_of(code.as_str(), second);
                match take_course(reply, course_uid.as_str()) {
                    Some(course) => cert_book(
                        cert,
                        catalog::study_guide_paths(&course.study_guide),
                    ),
                    None => if second {
                        go_to_exam(cert)
                    } else {
                        GuideState::CertCourse { cert, code, second: true }
                    },
                }
            },
            GuideState::Exam { owner: cert, uid } => match reply {
                Ok(mut resp) => {
                    let exam = match exam_position(&resp.exams, uid.as_str()) {
                        Some(i) => Some(resp.exams.remove(i)),
                        None => None,
                    };
                    GuideState::ExamIcon { owner: cert, uid, exam }
                },
                Err(e) => GuideState::Failed(e),
            },
            GuideState::ExamIcon { owner: cert, uid, exam } => go_from_icon(cert, uid, exam, reply),
            GuideState::ExamCourse { owner: cert, uid, title, icon_url, second } => {
                let course_uid = course_uid_of(uid.as_str(), second);
                match take_course(reply, course_uid.as_str()) {
                    Some(course) => go_from_exam(
                        cert,
                        book_of_course(uid, title, icon_url, course),
                    ),
                    None => if second {
                        GuideState::ExamPaths { owner: cert, uid, title, icon_url }
                    } else {
                        GuideState::ExamCourse { owner: cert, uid, title, icon_url, second: true }
                    },
                }
            },
            GuideState::ExamPaths { owner: cert, uid, title, icon_url } => match reply {
                Ok(resp) => go_from_exam(
                    cert,
                    book_of_titles(uid, title, icon_url, &resp.learning_paths),
                ),
                Err(e) => GuideState::Failed(e),
            },
            GuideState::Path { slug } => match reply {
                Ok(resp) => go_from_paths(resp.learning_paths, slug),
                Err(e) => GuideState::Failed(e),
            },
            GuideState::Course { uid } => go_from_course(reply, uid),
            GuideState::Module { slug } => match reply {
                Ok(resp) => go_from_modules(resp.modules, slug),
                Err(e) => GuideState::Failed(e),
            },
            other => other,
        }
    }

    /// Takes a certification's page, or nothing where it could not be read. A chain that did not
    /// ask for a page stays as it is.
    pub fn next_page(self, page: Option<String>) -> (r: GuideState)
        ensures
            r.deep_view() == self.deep_view().next_page(page.deep_view()),
    {
        match self {
            GuideState::CertPage { cert } => match page {
                Some(html) => match input::extract_exam_uid(html.as_str()) {
                    Some(uid) => GuideState::Exam { owner: Some(cert), uid },
                    None => fail_cert(cert.uid.as_str()),
                },
                None => fail_cert(cert.uid.as_str()),
            },
            other => other,
        }
    }
}

// ---------------------------------------------------------------------------
// Laws
// ---------------------------------------------------------------------------

impl GuideView {
    /// How many answers the chain can still take, at most.
    pub open spec fn steps_left(self) -> nat {
        match self {
            GuideView::Cert { .. } => 9,
            GuideView::CertCourse { second, .. } => if second {
                7
            } else {
                8
            },
            GuideView::CertPage { .. } => 6,
            GuideView::Exam { .. } => 5,
            GuideView::ExamIcon { .. } => 4,
            GuideView::ExamCourse { second, .. } => if second {
                2
            } else {
                3
            },
            GuideView::ExamPaths { .. } => 1,
            GuideView::Path { .. } => 1,
            GuideView::Course { .. } => 1,
            GuideView::Module { .. } => 1,
            GuideView::Done(_) => 0,
            GuideView::Failed(_) => 0,
        }
    }

    /// The chain's outcome.
    pub open spec fn outcome(self) -> Result<StudyGuideView, ResolveErrorView>
        recommends
            self.ended(),
    {
        match self {
            GuideView::Failed(e) => Err(e),
            GuideView::Done(g) => Ok(g),
            _ => arbitrary(),
        }
    }
}

/// Every answer brings the chain closer to its end, whatever it is: at most nine requests are
/// made.
pub proof fn law_chain_ends(
    state: GuideView,
    reply: Result<CatalogView, ResolveErrorView>,
    page: Option<Seq<char>>,
    locale: Seq<char>,
)
    ensures
        state.steps_left() <= 9,
        state.request(locale) is None <==> state.ended(),
        state.ended() <==> state.steps_left() == 0,
        state.request(locale) matches Some(RequestView::Catalog(_)) ==> state.next(
            reply,
        ).steps_left() < state.steps_left(),
        state.request(locale) matches Some(RequestView::Page(_)) ==> state.next_page(
            page,
        ).steps_left() < state.steps_left(),
{
}

/// The outcome of a chain that is answered by `catalog` and `page` until it ends.
pub open spec fn run(
    state: GuideView,
    catalog: spec_fn(Seq<char>) -> Result<CatalogView, ResolveErrorView>,
    page: spec_fn(Seq<char>) -> Option<Seq<char>>,
    locale: Seq<char>,
) -> Result<StudyGuideView, ResolveErrorView>
    decreases state.steps_left(),
{
    match state.request(locale) {
        Some(RequestView::Catalog(url)) => {
            proof {
                law_chain_ends(state, catalog(url), None, locale);
            }
            run(state.next(catalog(url)), catalog, page, locale)
        },
        Some(RequestView::Page(url)) => {
            proof {
                law_chain_ends(state, Ok(CatalogView::empty()), page(url), locale);
            }
            run(state.next_page(page(url)), catalog, page, locale)
        },
        None => state.outcome(),
    }
}

/// An exam's course: the full one, or the second one that is tried.
pub open spec fn course_of(
    catalog: spec_fn(Seq<char>) -> Result<CatalogView, ResolveErrorView>,
    code: Seq<char>,
    locale: Seq<char>,
) -> Option<RawCourseView> {
    let first = course_uid(code, false);
    let second = course_uid(code, true);
    match course_in(catalog(catalog::query_url("courses"@, seq![first], locale)), first) {
        Some(course) => Some(course),
        None => course_in(catalog(catalog::query_url("courses"@, seq![second], locale)), second),
    }
}

/// An exam's study guide: its own, its course's, or the paths that its code titles.
pub open spec fn guide_of_exam(
    catalog: spec_fn(Seq<char>) -> Result<CatalogView, ResolveErrorView>,
    uid: Seq<char>,
    locale: Seq<char>,
) -> Result<StudyGuideView, ResolveErrorView> {
    match catalog(catalog::query_url("exams"@, seq![uid], locale)) {
        Err(e) => Err(e),
        Ok(r) => {
            let exam = find_exam(r.exams, uid, 0);
            let icon = exam_icon(
                catalog(catalog::query_url("certifications"@, Seq::empty(), locale)),
                uid,
                exam,
            );
            let title = match exam {
                Some(e) => e.title,
                None => None,
            };
            match exam {
                Some(e) if catalog::guide_paths(e.study_guide).len() > 0 => Ok(
                    exam_guide(uid, e, icon),
                ),
                _ => match course_of(catalog, uid, locale) {
                    Some(course) => Ok(course_guide(uid, title, icon, course)),
                    None => match catalog(all_paths_url(locale)) {
                        Err(e) => Err(e),
                        Ok(all) => Ok(titled_guide(uid, title, icon, all.learning_paths)),
                    },
                },
            }
        },
    }
}

/// The exam of a certification without a study guide: the first it links, or the first that its
/// page mentions.
pub open spec fn exam_of_cert(
    page: spec_fn(Seq<char>) -> Option<Seq<char>>,
    cert: RawCertView,
    locale: Seq<char>,
) -> Option<Seq<char>> {
    if cert.exams.len() > 0 {
        Some(cert.exams[0])
    } else if text::has_prefix(cert.uid, "certification."@) {
        match page(cert_page_url(cert.uid, locale)) {
            Some(html) => input::exam_uid_from(text::lowered(html), 0),
            None => None,
        }
    } else {
        None
    }
}

/// A certification's study guide: its own, or one that it is lent, under its title and badge.
pub open spec fn guide_of_cert(
    catalog: spec_fn(Seq<char>) -> Result<CatalogView, ResolveErrorView>,
    page: spec_fn(Seq<char>) -> Option<Seq<char>>,
    uid: Seq<char>,
    locale: Seq<char>,
) -> Result<StudyGuideView, ResolveErrorView> {
    match catalog(catalog::query_url("certifications"@, seq![uid], locale)) {
        Err(e) => Err(e),
        Ok(r) => match find_cert(r.certifications, uid, 0) {
            None => Err(ResolveErrorView::CertNotFound(uid)),
            Some(cert) => {
                let own = catalog::guide_paths(cert.study_guide);
                let curated = match resolve::curated_code(cert.uid) {
                    Some(code) => course_of(catalog, code, locale),
                    None => None,
                };
                if own.len() > 0 {
                    Ok(cert_guide(cert, own))
                } else {
                    match curated {
                        Some(course) => Ok(
                            cert_guide(cert, catalog::guide_paths(course.study_guide)),
                        ),
                        None => match exam_of_cert(page, cert, locale) {
                            None => Err(no_paths(cert.uid)),
                            Some(exam_uid) => match guide_of_exam(catalog, exam_uid, locale) {
                                Err(e) => Err(e),
                                Ok(g) => if g.path_uids.len() > 0 {
                                    Ok(cert_guide(cert, g.path_uids))
                                } else {
                                    Err(no_paths(cert.uid))
                                },
                            },
                        },
                    }
                }
            },
        },
    }
}

/// The study guide of an input.
pub open spec fn study_guide(
    catalog: spec_fn(Seq<char>) -> Result<CatalogView, ResolveErrorView>,
    page: spec_fn(Seq<char>) -> Option<Seq<char>>,
    input: Seq<char>,
    locale: Seq<char>,
) -> Result<StudyGuideView, ResolveErrorView> {
    match input::classified(input) {
        Err(e) => Err(e),
        Ok(LearnInputView::Cert(uid)) => guide_of_cert(catalog, page, uid, locale),
        Ok(LearnInputView::Exam(uid)) => match guide_of_exam(catalog, uid, locale) {
            Err(e) => Err(e),
            Ok(g) => if g.path_uids.len() > 0 {
                Ok(g)
            } else {
                Err(ResolveErrorView::NoPaths(uid))
            },
        },
        Ok(LearnInputView::Path(slug)) => match catalog(
            catalog::query_url("learningPaths"@, Seq::empty(), locale),
        ) {
            Err(e) => Err(e),
            Ok(r) => path_found(r.learning_paths, slug).outcome(),
        },
        Ok(LearnInputView::Course(code)) => {
            let uid = text::lowered(code);
            course_found(
                catalog(catalog::query_url("courses"@, seq![uid], locale)),
                uid,
            ).outcome()
        },
        Ok(LearnInputView::Module(slug)) => match catalog(
            catalog::query_url("modules"@, Seq::empty(), locale),
        ) {
            Err(e) => Err(e),
            Ok(r) => module_found(r.modules, slug).outcome(),
        },
    }
}

proof fn lemma_run_course(
    catalog: spec_fn(Seq<char>) -> Result<CatalogView, ResolveErrorView>,
    page: spec_fn(Seq<char>) -> Option<Seq<char>>,
    cert: Option<RawCertView>,
    uid: Seq<char>,
    title: Option<Seq<char>>,
    icon_url: Option<Seq<char>>,
    locale: Seq<char>,
)
    ensures
        run(
            GuideView::ExamCourse { owner: cert, uid, title, icon_url, second: false },
            catalog,
            page,
            locale,
        ) == (match course_of(catalog, uid, locale) {
            Some(course) => exam_found(cert, course_guide(uid, title, icon_url, course)).outcome(),
            None => match catalog(all_paths_url(locale)) {
                Err(e) => Err(e),
                Ok(all) => exam_found(
                    cert,
                    titled_guide(uid, title, icon_url, all.learning_paths),
                ).outcome(),
            },
        }),
{
    reveal_with_fuel(run, 4);
}

proof fn lemma_run_exam(
    catalog: spec_fn(Seq<char>) -> Result<CatalogView, ResolveErrorView>,
    page: spec_fn(Seq<char>) -> Option<Seq<char>>,
    cert: Option<RawCertView>,
    uid: Seq<char>,
    locale: Seq<char>,
)
    ensures
        run(GuideView::Exam { owner: cert, uid }, catalog, page, locale) == (match guide_of_exam(
            catalog,
            uid,
            locale,
        ) {
            Err(e) => Err(e),
            Ok(g) => exam_found(cert, g).outcome(),
        }),
        guide_of_exam(catalog, uid, locale) matches Ok(g) ==> g.identifier == uid,
{
    reveal_with_fuel(run, 3);
    match catalog(catalog::query_url("exams"@, seq![uid], locale)) {
        Err(e) => {},
        Ok(r) => {
            let exam = find_exam(r.exams, uid, 0);
            let icon = exam_icon(
                catalog(catalog::query_url("certifications"@, Seq::empty(), locale)),
                uid,
                exam,
            );
            let title = match exam {
                Some(e) => e.title,
                None => None,
            };
            lemma_run_course(catalog, page, cert, uid, title, icon, locale);
        },
    }
}

proof fn lemma_run_cert_exam(
    catalog: spec_fn(Seq<char>) -> Result<CatalogView, ResolveErrorView>,
    page: spec_fn(Seq<char>) -> Option<Seq<char>>,
    cert: RawCertView,
    locale: Seq<char>,
)
    ensures
        run(cert_exam(cert), catalog, page, locale) == (match exam_of_cert(page, cert, locale) {
            None => Err(no_paths(cert.uid)),
            Some(uid) => match guide_of_exam(catalog, uid, locale) {
                Err(e) => Err(e),
                Ok(g) => exam_found(Some(cert), g).outcome(),
            },
        }),
{
    reveal_with_fuel(run, 2);
    if let Some(uid) = exam_of_cert(page, cert, locale) {
        lemma_run_exam(catalog, page, Some(cert), uid, locale);
    }
}

proof fn lemma_run_cert_course(
    catalog: spec_fn(Seq<char>) -> Result<CatalogView, ResolveErrorView>,
    page: spec_fn(Seq<char>) -> Option<Seq<char>>,
    cert: RawCertView,
    code: Seq<char>,
    locale: Seq<char>,
)
    ensures
        run(GuideView::CertCourse { cert, code, second: false }, catalog, page, locale) == (
        match course_of(catalog, code, locale) {
            Some(course) => Ok(cert_guide(cert, catalog::guide_paths(course.study_guide))),
            None => run(cert_exam(cert), catalog, page, locale),
        }),
{
    reveal_with_fuel(run, 3);
}

/// The chain of requests finds the study guide: answered by any catalog and any pages until it
/// ends, it comes to what the definition of a study guide says of them.
pub proof fn law_chain_finds_the_guide(
    catalog: spec_fn(Seq<char>) -> Result<CatalogView, ResolveErrorView>,
    page: spec_fn(Seq<char>) -> Option<Seq<char>>,
    input: Seq<char>,
    locale: Seq<char>,
)
    ensures
        run(guide_start(input), catalog, page, locale) == study_guide(
            catalog,
            page,
            input,
            locale,
        ),
{
    match input::classified(input) {
        Err(e) => {},
        Ok(LearnInputView::Exam(uid)) => {
            lemma_run_exam(catalog, page, None, uid, locale);
        },
        Ok(LearnInputView::Path(slug)) => {
            reveal_with_fuel(run, 2);
        },
        Ok(LearnInputView::Course(uid)) => {
            reveal_with_fuel(run, 2);
        },
        Ok(LearnInputView::Module(slug)) => {
            reveal_with_fuel(run, 2);
        },
        Ok(LearnInputView::Cert(uid)) => {
            reveal_with_fuel(run, 2);
            match catalog(catalog::query_url("certifications"@, seq![uid], locale)) {
                Err(e) => {},
                Ok(r) => {
                    if let Some(cert) = find_cert(r.certifications, uid, 0) {
                        lemma_run_cert_exam(catalog, page, cert, locale);
                        if let Some(code) = resolve::curated_code(cert.uid) {
                            lemma_run_cert_course(catalog, page, cert, code, locale);
                        }
                    }
                },
            }
        },
    }
}

/// A study guide that was found has at least one learning path, unless the book is made of a
/// module alone.
pub proof fn law_guide_has_paths(
    catalog: spec_fn(Seq<char>) -> Result<CatalogView, ResolveErrorView>,
    page: spec_fn(Seq<char>) -> Option<Seq<char>>,
    input: Seq<char>,
    locale: Seq<char>,
)
    ensures
        study_guide(catalog, page, input, locale) matches Ok(g) ==> g.path_uids.len() > 0
            || g.single is Some,
{
}

/// The certification that is taken is the first one with that uid, and there is one wherever the
/// answer has one.
pub proof fn law_first_certification(certs: Seq<RawCertView>, uid: Seq<char>, from: int)
    requires
        0 <= from,
    ensures
        match find_cert(certs, uid, from) {
            Some(c) => c.uid == uid && exists|i: int|
                from <= i < certs.len() && certs[i] == c && (forall|j: int|
                    from <= j < i ==> (#[trigger] certs[j]).uid != uid),
            None => forall|j: int| from <= j < certs.len() ==> (#[trigger] certs[j]).uid != uid,
        },
    decreases certs.len() - from,
{
    if from < certs.len() && certs[from].uid != uid {
        law_first_certification(certs, uid, from + 1);
    } else if from < certs.len() {
        assert(certs[from] == certs[from]);
    }
}

/// The exam that is taken is the first one with that uid, and there is one wherever the answer has
/// one.
pub proof fn law_first_exam(exams: Seq<RawExamView>, uid: Seq<char>, from: int)
    requires
        0 <= from,
    ensures
        match find_exam(exams, uid, from) {
            Some(e) => e.uid == Some(uid) && exists|i: int|
                from <= i < exams.len() && exams[i] == e && (forall|j: int|
                    from <= j < i ==> (#[trigger] exams[j]).uid != Some(uid)),
            None => forall|j: int|
                from <= j < exams.len() ==> (#[trigger] exams[j]).uid != Some(uid),
        },
    decreases exams.len() - from,
{
    if from < exams.len() && exams[from].uid != Some(uid) {
        law_first_exam(exams, uid, from + 1);
    } else if from < exams.len() {
        assert(exams[from] == exams[from]);
    }
}

/// The course that is taken is the first one with that uid, and there is one wherever the answer
/// has one.
pub proof fn law_first_course(courses: Seq<RawCourseView>, uid: Seq<char>, from: int)
    requires
        0 <= from,
    ensures
        match find_course(courses, uid, from) {
            Some(c) => c.uid == uid && exists|i: int|
                from <= i < courses.len() && courses[i] == c && (forall|j: int|
                    from <= j < i ==> (#[trigger] courses[j]).uid != uid),
            None => forall|j: int| from <= j < courses.len() ==> (#[trigger] courses[j]).uid != uid,
        },
    decreases courses.len() - from,
{
    if from < courses.len() && courses[from].uid != uid {
        law_first_course(courses, uid, from + 1);
    } else if from < courses.len() {
        assert(courses[from] == courses[from]);
    }
}

/// The learning path that is taken is the first one whose page has that slug, and there is one
/// wherever the answer has one.
pub proof fn law_first_path(paths: Seq<RawPathView>, slug: Seq<char>, from: int)
    requires
        0 <= from,
    ensures
        match find_path(paths, slug, from) {
            Some(p) => p.url is Some && page_slug(p.url->Some_0) == slug && paths.contains(p),
            None => forall|j: int|
                from <= j < paths.len() ==> !((#[trigger] paths[j]).url is Some && page_slug(
                    paths[j].url->Some_0,
                ) == slug),
        },
    decreases paths.len() - from,
{
    if from < paths.len() && !(paths[from].url is Some && page_slug(paths[from].url->Some_0)
        == slug) {
        law_first_path(paths, slug, from + 1);
    } else if from < paths.len() {
        assert(paths.contains(paths[from]));
    }
}

/// The module that is taken is one whose page has that slug, and there is one wherever the answer
/// has one.
pub proof fn law_first_module(modules: Seq<RawModuleView>, slug: Seq<char>, from: int)
    requires
        0 <= from,
    ensures
        match find_module(modules, slug, from) {
            Some(m) => m.url is Some && content::module_slug(m.url->Some_0) == Some(slug)
                && modules.contains(m),
            None => forall|j: int|
                from <= j < modules.len() ==> !((#[trigger] modules[j]).url is Some
                    && content::module_slug(modules[j].url->Some_0) == Some(slug)),
        },
    decreases modules.len() - from,
{
    if from < modules.len() && !(modules[from].url is Some && content::module_slug(
        modules[from].url->Some_0,
    ) == Some(slug)) {
        law_first_module(modules, slug, from + 1);
    } else if from < modules.len() {
        assert(modules.contains(modules[from]));
    }
}

/// The badge of an exam is that of a certification that links it, wherever one that has a badge
/// does, and its own otherwise.
pub proof fn law_badge_of_an_exam(
    r: CatalogView,
    uid: Seq<char>,
    exam: RawExamView,
    e: ResolveErrorView,
)
    ensures
        match linking_icon(r.certifications, uid, 0) {
            Some(icon) => exam_icon(Ok(r), uid, Some(exam)) == Some(icon) && exists|i: int|
                0 <= i < r.certifications.len() && (
                #[trigger] r.certifications[i]).exams.contains(uid)
                    && r.certifications[i].icon_url == Some(icon),
            None => exam_icon(Ok(r), uid, Some(exam)) == exam.icon_url && forall|i: int|
                0 <= i < r.certifications.len() ==> !((
                #[trigger] r.certifications[i]).exams.contains(uid)
                    && r.certifications[i].icon_url is Some),
        },
        exam_icon(Err(e), uid, Some(exam)) == exam.icon_url,
{
    lemma_linking_icon(r.certifications, uid, 0);
}

proof fn lemma_linking_icon(certs: Seq<RawCertView>, uid: Seq<char>, from: int)
    requires
        0 <= from,
    ensures
        match linking_icon(certs, uid, from) {
            Some(icon) => exists|i: int|
                from <= i < certs.len() && (#[trigger] certs[i]).exams.contains(uid)
                    && certs[i].icon_url == Some(icon),
            None => forall|i: int|
                from <= i < certs.len() ==> !((#[trigger] certs[i]).exams.contains(uid)
                    && certs[i].icon_url is Some),
        },
    decreases certs.len() - from,
{
    if from < certs.len() {
        if certs[from].exams.contains(uid) && certs[from].icon_url is Some {
            assert(certs[from].exams.contains(uid));
        } else {
            lemma_linking_icon(certs, uid, from + 1);
        }
    }
}

/// A certification's book has the certification's name and badge, also where its paths are lent
/// by an exam or a course; where it has a study guide of its own, its paths are those of it.
pub proof fn law_a_certifications_book_is_its_own(
    catalog: spec_fn(Seq<char>) -> Result<CatalogView, ResolveErrorView>,
    page: spec_fn(Seq<char>) -> Option<Seq<char>>,
    uid: Seq<char>,
    locale: Seq<char>,
)
    requires
        guide_of_cert(catalog, page, uid, locale) is Ok,
    ensures
        ({
            let g = guide_of_cert(catalog, page, uid, locale)->Ok_0;
            let reply = catalog(catalog::query_url("certifications"@, seq![uid], locale));
            &&& reply is Ok
            &&& g.identifier == uid
            &&& g.single is None
            &&& g.path_uids.len() > 0
            &&& exists|i: int|
                0 <= i < reply->Ok_0.certifications.len() && {
                    let cert = #[trigger] reply->Ok_0.certifications[i];
                    &&& cert.uid == uid
                    &&& g.title == cert.title
                    &&& g.icon_url == cert.icon_url
                    &&& catalog::guide_paths(cert.study_guide).len() > 0 ==> g.path_uids
                        == catalog::guide_paths(cert.study_guide)
                }
        }),
{
    let reply = catalog(catalog::query_url("certifications"@, seq![uid], locale));
    let certs = reply->Ok_0.certifications;
    law_first_certification(certs, uid, 0);
}

/// An exam's book is known by the exam's uid. Where the exam has a study guide of its own, the
/// book has its paths and its title; where it has none, those of its course, and its own title
/// before the course's.
pub proof fn law_an_exams_book(
    uid: Seq<char>,
    exam: RawExamView,
    title: Seq<char>,
    icon: Seq<char>,
    course: RawCourseView,
)
    ensures
        exam_guide(uid, exam, Some(icon)).identifier == uid,
        exam_guide(uid, exam, Some(icon)).icon_url == Some(icon),
        exam_guide(uid, exam, Some(icon)).path_uids == catalog::guide_paths(exam.study_guide),
        exam.title matches Some(t) ==> exam_guide(uid, exam, Some(icon)).title == t,
        course_guide(uid, Some(title), Some(icon), course).identifier == uid,
        course_guide(uid, Some(title), Some(icon), course).title == title,
        course_guide(uid, Some(title), Some(icon), course).icon_url == Some(icon),
        course_guide(uid, Some(title), Some(icon), course).path_uids == catalog::guide_paths(
            course.study_guide,
        ),
        course.title matches Some(t) ==> course_guide(uid, None, None, course).title == t,
        course.title is None ==> course_guide(uid, None, None, course).title == uid,
        catalog::level_badge(course.levels) is None ==> course_guide(
            uid,
            None,
            None,
            course,
        ).icon_url == course.icon_url,
        catalog::level_badge(course.levels) is Some ==> course_guide(
            uid,
            None,
            None,
            course,
        ).icon_url == catalog::level_badge(course.levels),
{
}

proof fn lemma_titled_first(
    paths: Seq<RawPathView>,
    code: Seq<char>,
    prerequisites: bool,
    n: nat,
    p: RawPathView,
)
    requires
        n <= paths.len(),
    ensures
        titled_first(paths, code, prerequisites, n).contains(p) <==> paths.take(n as int).contains(
            p,
        ) && titled_by(code, p.title) && is_prerequisite(p.title) == prerequisites,
    decreases n,
{
    if n > 0 {
        lemma_titled_first(paths, code, prerequisites, (n - 1) as nat, p);
        let before = titled_first(paths, code, prerequisites, (n - 1) as nat);
        let now = titled_first(paths, code, prerequisites, n);
        let x = paths[n - 1];
        let t = paths.take(n as int);
        assert(t =~= paths.take(n - 1).push(x));
        if before.contains(p) {
            let i = choose|i: int| 0 <= i < before.len() && before[i] == p;
            assert(now[i] == p);
        }
        if now.contains(p) && !before.contains(p) {
            let i = choose|i: int| 0 <= i < now.len() && now[i] == p;
            if i < before.len() {
                assert(before[i] == p);
            }
            assert(t[n - 1] == p);
        }
        if paths.take(n - 1).contains(p) {
            let front = paths.take(n - 1);
            let i = choose|i: int| 0 <= i < front.len() && front[i] == p;
            assert(t[i] == p);
        }
        if t.contains(p) && !paths.take(n - 1).contains(p) {
            let i = choose|i: int| 0 <= i < t.len() && t[i] == p;
            if i < n - 1 {
                assert(paths.take(n - 1)[i] == p);
            }
            assert(x == p);
            if titled_by(code, p.title) && is_prerequisite(p.title) == prerequisites {
                assert(now[before.len() as int] == p);
            }
        }
    }
}

/// The paths that an exam's code titles are taken, all of them and no others, prerequisites before
/// the others.
pub proof fn law_titled_paths(paths: Seq<RawPathView>, code: Seq<char>, p: RawPathView)
    ensures
        titled_paths(paths, code).contains(p) <==> paths.contains(p) && titled_by(code, p.title),
        forall|i: int, j: int|
            0 <= i < titled_paths(paths, code).len() && 0 <= j < titled_paths(paths, code).len()
                && is_prerequisite((#[trigger] titled_paths(paths, code)[i]).title)
                && !is_prerequisite((#[trigger] titled_paths(paths, code)[j]).title) ==> i < j,
{
    let n = paths.len();
    let a = titled_first(paths, code, true, n);
    let b = titled_first(paths, code, false, n);
    let all = titled_paths(paths, code);
    assert(paths.take(n as int) =~= paths);
    lemma_titled_first(paths, code, true, n, p);
    lemma_titled_first(paths, code, false, n, p);
    if a.contains(p) {
        let i = choose|i: int| 0 <= i < a.len() && a[i] == p;
        assert(all[i] == p);
    }
    if b.contains(p) {
        let i = choose|i: int| 0 <= i < b.len() && b[i] == p;
        assert(all[a.len() + i] == p);
    }
    if all.contains(p) {
        let i = choose|i: int| 0 <= i < all.len() && all[i] == p;
        if i < a.len() {
            assert(a[i] == p);
        } else {
            assert(b[i - a.len()] == p);
        }
    }
    assert forall|i: int, j: int|
        0 <= i < all.len() && 0 <= j < all.len() && is_prerequisite((#[trigger] all[i]).title)
            && !is_prerequisite((#[trigger] all[j]).title) implies i < j by {
        if i >= a.len() {
            assert(b[i - a.len()] == all[i]);
            assert(b.contains(all[i]));
            lemma_titled_first(paths, code, false, n, all[i]);
        }
        if j < a.len() {
            assert(a[j] == all[j]);
            assert(a.contains(all[j]));
            lemma_titled_first(paths, code, true, n, all[j]);
        }
    }
}

/// A title begins with an exam's code where a colon or a space follows it, or nothing; with more of
/// a word behind it, it does not.
pub proof fn law_a_code_titles(code: Seq<char>, rest: Seq<char>, c: char)
    requires
        c != ':' && c != ' ',
    ensures
        begins_with_upper(code, code),
        begins_with_upper(code, code + ": "@ + rest),
        begins_with_upper(code, code + " "@ + rest),
        !begins_with_upper(code, code + seq![c] + rest),
{
    reveal_strlit(": ");
    reveal_strlit(" ");
    let a = code + ": "@ + rest;
    let b = code + " "@ + rest;
    let d = code + seq![c] + rest;
    let n = code.len() as int;
    assert(code.subrange(0, n) =~= code);
    assert(a.subrange(0, n) =~= code);
    assert(b.subrange(0, n) =~= code);
    assert(d.subrange(0, n) =~= code);
    assert(a.skip(n)[0] == ':');
    assert(b.skip(n)[0] == ' ');
    assert(d.skip(n)[0] == c);
    assert(code.skip(n).len() == 0);
}

/// The books of an exam, a learning path and a module are of what was asked for.
pub proof fn law_a_paths_book_is_the_path(
    paths: Seq<RawPathView>,
    modules: Seq<RawModuleView>,
    slug: Seq<char>,
)
    ensures
        match path_found(paths, slug) {
            GuideView::Done(g) => exists|i: int|
                0 <= i < paths.len() && {
                    let p = #[trigger] paths[i];
                    &&& p.url is Some && page_slug(p.url->Some_0) == slug
                    &&& g.title == p.title && g.identifier == p.uid && g.icon_url == p.icon_url
                    &&& g.path_uids == seq![p.uid]
                    &&& g.single is None
                },
            GuideView::Failed(_) => forall|j: int|
                0 <= j < paths.len() ==> !((#[trigger] paths[j]).url is Some && page_slug(
                    paths[j].url->Some_0,
                ) == slug),
            _ => false,
        },
        match module_found(modules, slug) {
            GuideView::Done(g) => exists|i: int|
                0 <= i < modules.len() && {
                    let m = #[trigger] modules[i];
                    &&& m.url is Some && content::module_slug(m.url->Some_0) == Some(slug)
                    &&& g.title == m.title && g.identifier == m.uid
                    &&& g.single == Some(m)
                },
            GuideView::Failed(_) => forall|j: int|
                0 <= j < modules.len() ==> !((#[trigger] modules[j]).url is Some
                    && content::module_slug(modules[j].url->Some_0) == Some(slug)),
            _ => false,
        },
{
    law_first_path(paths, slug, 0);
    law_first_module(modules, slug, 0);
}

/// The page of a certification is that of its slug, in the locale.
pub proof fn law_page_of_a_certification(slug: Seq<char>, locale: Seq<char>)
    ensures
        cert_page_url("certification."@ + slug, locale) == "https://learn.microsoft.com/"@ + locale
            + "/credentials/certifications/"@ + slug + "/"@,
{
    text::law_affixes_are_taken_off("certification."@, slug);
}

/// The learning paths of an exam are those of its own study guide, where it has any; else those of
/// its course, where one has any; else those that its code titles.
pub proof fn law_paths_of_an_exam(
    catalog: spec_fn(Seq<char>) -> Result<CatalogView, ResolveErrorView>,
    uid: Seq<char>,
    locale: Seq<char>,
)
    requires
        guide_of_exam(catalog, uid, locale) is Ok,
    ensures
        ({
            let g = guide_of_exam(catalog, uid, locale)->Ok_0;
            let reply = catalog(catalog::query_url("exams"@, seq![uid], locale));
            let exam = find_exam(reply->Ok_0.exams, uid, 0);
            let own = match exam {
                Some(e) => catalog::guide_paths(e.study_guide),
                None => Seq::empty(),
            };
            &&& reply is Ok
            &&& g.identifier == uid
            &&& g.single is None
            &&& own.len() > 0 ==> g.path_uids == own
            &&& own.len() == 0 ==> match course_of(catalog, uid, locale) {
                Some(course) => g.path_uids == catalog::guide_paths(course.study_guide),
                None => catalog(all_paths_url(locale)) is Ok && g.path_uids == catalog::path_keys(
                    titled_paths(
                        catalog(all_paths_url(locale))->Ok_0.learning_paths,
                        input::exam_label(uid),
                    ),
                ),
            }
            &&& exam matches Some(e) ==> (e.title matches Some(t) ==> g.title == t)
        }),
{
}

/// The course of an exam is the full course, where it is there and has learning paths, and else
/// the second one.
pub proof fn law_course_of_an_exam(
    catalog: spec_fn(Seq<char>) -> Result<CatalogView, ResolveErrorView>,
    code: Seq<char>,
    locale: Seq<char>,
)
    ensures
        course_of(catalog, code, locale) matches Some(course) ==> {
            &&& catalog::guide_paths(course.study_guide).len() > 0
            &&& course.uid == "course."@ + text::lowered(input::bare_code(code)) + "t00"@
                || course.uid == "course."@ + text::lowered(input::bare_code(code)) + "t01"@
        },
        ({
            let uid = "course."@ + text::lowered(input::bare_code(code)) + "t00"@;
            course_in(catalog(catalog::query_url("courses"@, seq![uid], locale)), uid) matches Some(
                course,
            ) ==> course_of(catalog, code, locale) == Some(course)
        }),
{
    let first = course_uid(code, false);
    let second = course_uid(code, true);
    match catalog(catalog::query_url("courses"@, seq![first], locale)) {
        Ok(r) => {
            law_first_course(r.courses, first, 0);
        },
        Err(_) => {},
    }
    match catalog(catalog::query_url("courses"@, seq![second], locale)) {
        Ok(r) => {
            law_first_course(r.courses, second, 0);
        },
        Err(_) => {},
    }
}

/// A certification without learning paths of its own is lent those of its curated course, where
/// there is one, else those of its exam: the first that it links, or the first that its page
/// mentions.
pub proof fn law_paths_lent_to_a_certification(
    catalog: spec_fn(Seq<char>) -> Result<CatalogView, ResolveErrorView>,
    page: spec_fn(Seq<char>) -> Option<Seq<char>>,
    uid: Seq<char>,
    locale: Seq<char>,
    cert: RawCertView,
)
    requires
        catalog(catalog::query_url("certifications"@, seq![uid], locale)) is Ok,
        find_cert(
            catalog(catalog::query_url("certifications"@, seq![uid], locale))->Ok_0.certifications,
            uid,
            0,
        ) == Some(cert),
        catalog::guide_paths(cert.study_guide).len() == 0,
    ensures
        match resolve::curated_code(uid) {
            Some(code) => course_of(catalog, code, locale) matches Some(course) ==> guide_of_cert(
                catalog,
                page,
                uid,
                locale,
            ) is Ok && guide_of_cert(catalog, page, uid, locale)->Ok_0.path_uids
                == catalog::guide_paths(course.study_guide),
            None => cert.exams.len() > 0 && guide_of_cert(catalog, page, uid, locale) is Ok
                ==> guide_of_exam(catalog, cert.exams[0], locale) is Ok && guide_of_cert(
                catalog,
                page,
                uid,
                locale,
            )->Ok_0.path_uids == guide_of_exam(catalog, cert.exams[0], locale)->Ok_0.path_uids,
        },
{
    law_first_certification(
        catalog(catalog::query_url("certifications"@, seq![uid], locale))->Ok_0.certifications,
        uid,
        0,
    );
}

/// A book of the paths that an exam's code titles is called what the exam is called; else what the
/// one path is called, where it is one; else the code's study guide.
pub proof fn law_title_of_titled_paths(
    uid: Seq<char>,
    title: Seq<char>,
    icon_url: Option<Seq<char>>,
    paths: Seq<RawPathView>,
)
    ensures
        titled_guide(uid, Some(title), icon_url, paths).title == title,
        titled_paths(paths, input::exam_label(uid)).len() == 1 ==> titled_guide(
            uid,
            None,
            icon_url,
            paths,
        ).title == titled_paths(paths, input::exam_label(uid))[0].title,
        titled_paths(paths, input::exam_label(uid)).len() != 1 ==> titled_guide(
            uid,
            None,
            icon_url,
            paths,
        ).title == input::exam_label(uid) + " study guide"@,
        titled_guide(uid, Some(title), icon_url, paths).icon_url == icon_url,
{
}

} // verus!
