use mslx::catalog::CatalogResponse;
use mslx::catalog::RawCert;
use mslx::catalog::RawCourse;
use mslx::catalog::RawExam;
use mslx::catalog::RawModule;
use mslx::catalog::RawPath;
use mslx::catalog::RawUnit;
use mslx::catalog::StudyItem;
use mslx::guide::cert_icon_for_exam;
use mslx::guide::learning_paths_by_prefix;
use mslx::guide::Request;
use mslx::resolver::ModuleState;
use mslx::resolver::ResolveState;
use mslx::Book;
use mslx::FetchError;
use mslx::ResolveError;

const BASE: &str = "https://learn.microsoft.com/api/catalog/";

fn texts(v: &[&str]) -> Vec<String> {
    v.iter().map(|s| s.to_string()).collect()
}

fn guide(paths: &[&str]) -> Vec<StudyItem> {
    paths.iter().map(|p| StudyItem { uid: p.to_string(), kind: "learningPath".into() }).collect()
}

fn cert(uid: &str, paths: &[&str], exams: &[&str]) -> RawCert {
    RawCert {
        uid: uid.into(),
        title: format!("Title of {uid}"),
        icon_url: Some(format!("https://x/{uid}.svg")),
        study_guide: guide(paths),
        exams: texts(exams),
    }
}

fn exam(uid: &str, title: Option<&str>, paths: &[&str]) -> RawExam {
    RawExam {
        uid: Some(uid.into()),
        title: title.map(|s| s.to_string()),
        icon_url: Some("https://x/exam.svg".into()),
        study_guide: guide(paths),
    }
}

fn course(uid: &str, levels: &[&str], paths: &[&str]) -> RawCourse {
    RawCourse {
        uid: uid.into(),
        title: Some(format!("Course {uid}")),
        icon_url: Some("https://x/course.svg".into()),
        levels: texts(levels),
        study_guide: guide(paths),
    }
}

fn path(uid: &str, title: &str, url: Option<&str>) -> RawPath {
    RawPath {
        uid: uid.into(),
        title: title.into(),
        url: url.map(|s| s.to_string()),
        icon_url: Some(format!("https://x/{uid}.svg")),
        duration_in_minutes: Some(30),
        modules: vec!["m1".into()],
    }
}

// The catalog of one path with one module of two units, one of which the catalog does not know.
fn contents(url: &str) -> CatalogResponse {
    let mut r = CatalogResponse::new();
    if url.contains("type=learningPaths") {
        for uid in ["p2", "p1"] {
            r.learning_paths.push(path(uid, &format!("Path {uid}"), None));
        }
    } else if url.contains("type=modules") {
        r.modules.push(RawModule {
            uid: "m1".into(),
            title: "Module".into(),
            url: Some("https://learn.microsoft.com/training/modules/m1/?x".into()),
            duration_in_minutes: Some(10),
            units: texts(&["m1.a", "m1.not-there"]),
        });
    } else if url.contains("type=units") {
        r.units.push(RawUnit {
            uid: "m1.a".into(),
            title: "Unit A".into(),
            duration_in_minutes: Some(2),
        });
    }
    r
}

fn failure(url: &str) -> ResolveError {
    ResolveError::Fetch(FetchError { url: url.into(), message: "no".into() })
}

// Runs a resolution: `answer` gives the reply to a catalog query, `page` the page at an address.
fn run(
    input: &str,
    answer: &dyn Fn(&str) -> Result<CatalogResponse, ResolveError>,
    page: &dyn Fn(&str) -> Option<String>,
) -> (Result<Book, ResolveError>, Vec<String>) {
    let mut asked = Vec::new();
    let mut state = ResolveState::start(input, "en-us");
    loop {
        match state.request("en-us") {
            Some(Request::Catalog(url)) => {
                let reply = answer(&url);
                asked.push(url);
                state = state.next(reply, "en-us");
            }
            Some(Request::Page(url)) => {
                let reply = page(&url);
                asked.push(url);
                state = state.next_page(reply, "en-us");
            }
            None => {
                return match state {
                    ResolveState::Done(book) => (Ok(book), asked),
                    ResolveState::Failed(e) => (Err(e), asked),
                    _ => panic!("stopped half way"),
                };
            }
        }
    }
}

fn no_page(_: &str) -> Option<String> {
    None
}

fn query(kind: &str, uid: &str) -> String {
    format!("{BASE}?type={kind}&uid={uid}&locale=en-us")
}

#[test]
fn certification_with_a_study_guide() {
    let answer = |url: &str| {
        let mut r = contents(url);
        if url.contains("type=certifications") {
            r.certifications.push(cert("certification.x", &["p1", "p2"], &[]));
        }
        Ok(r)
    };
    let (book, asked) = run("x", &answer, &no_page);
    let book = book.unwrap();
    assert_eq!(book.cert_uid, "certification.x");
    assert_eq!(book.title, "Title of certification.x");
    assert_eq!(book.icon_url.as_deref(), Some("https://x/certification.x.svg"));
    // The parts follow the study guide, not the catalog.
    let titles: Vec<&str> = book.parts.iter().map(|p| p.title.as_str()).collect();
    assert_eq!(titles, ["Path p1", "Path p2"]);
    let m = &book.parts[0].modules[0];
    assert_eq!(m.url.as_deref(), Some("https://learn.microsoft.com/training/modules/m1/"));
    let units: Vec<&str> = m.units.iter().map(|u| u.title.as_str()).collect();
    assert_eq!(units, ["Unit A", "Not there"]);
    assert_eq!(
        asked,
        [
            query("certifications", "certification.x"),
            query("learningPaths", "p1,p2"),
            query("modules", "m1"),
            query("units", "m1.a,m1.not-there"),
        ]
    );
}

#[test]
fn unknown_certification() {
    let answer = |_: &str| Ok(CatalogResponse::new());
    let (r, asked) = run("certification.nope", &answer, &no_page);
    assert!(matches!(r, Err(ResolveError::CertNotFound(u)) if u == "certification.nope"));
    assert_eq!(asked, [query("certifications", "certification.nope")]);
}

#[test]
fn a_failed_fetch_ends_the_resolution() {
    let answer = |url: &str| Err(failure(url));
    let (r, asked) = run("x", &answer, &no_page);
    assert_eq!(
        r.unwrap_err().text(),
        format!("fetch failed for {}: no", query("certifications", "certification.x"))
    );
    assert_eq!(asked.len(), 1);
}

#[test]
fn empty_input_asks_nothing() {
    let answer = |_: &str| Ok(CatalogResponse::new());
    let (r, asked) = run("  ", &answer, &no_page);
    assert!(matches!(r, Err(ResolveError::BadInput(m)) if m == "empty"));
    assert!(asked.is_empty());
}

#[test]
fn certification_through_its_linked_exam() {
    let answer = |url: &str| {
        let mut r = contents(url);
        if url == query("certifications", "certification.x") {
            r.certifications.push(cert("certification.x", &[], &["exam.ab-100"]));
        } else if url.contains("type=exams") {
            r.exams.push(exam("exam.ab-100", Some("Exam"), &["p2"]));
        }
        Ok(r)
    };
    let (book, asked) = run("certification.x", &answer, &no_page);
    let book = book.unwrap();
    // The certification's own title and badge stay.
    assert_eq!(book.title, "Title of certification.x");
    assert_eq!(book.icon_url.as_deref(), Some("https://x/certification.x.svg"));
    assert_eq!(book.parts.len(), 1);
    assert_eq!(
        asked[..3],
        [
            query("certifications", "certification.x"),
            query("exams", "exam.ab-100"),
            query("certifications", ""),
        ]
    );
}

#[test]
fn certification_through_a_curated_course() {
    let answer = |url: &str| {
        let mut r = contents(url);
        if url.contains("type=certifications") {
            r.certifications.push(cert("certification.azure-fundamentals", &[], &[]));
        } else if url == query("courses", "course.az-900t01") {
            r.courses.push(course("course.az-900t01", &[], &["p1"]));
        }
        Ok(r)
    };
    let (book, asked) = run("azure-fundamentals", &answer, &no_page);
    assert_eq!(book.unwrap().title, "Title of certification.azure-fundamentals");
    assert_eq!(
        asked[..3],
        [
            query("certifications", "certification.azure-fundamentals"),
            query("courses", "course.az-900t00"),
            query("courses", "course.az-900t01"),
        ]
    );
}

#[test]
fn certification_through_its_page() {
    let answer = |url: &str| {
        let mut r = contents(url);
        if url == query("certifications", "certification.x") {
            r.certifications.push(cert("certification.x", &[], &[]));
        } else if url.contains("type=exams") {
            r.exams.push(exam("exam.az-700", None, &["p1"]));
        }
        Ok(r)
    };
    let page = |url: &str| {
        assert_eq!(url, "https://learn.microsoft.com/en-us/credentials/certifications/x/");
        Some("<a href=\"#\">exam.AZ-700</a>".to_string())
    };
    let (book, asked) = run("x", &answer, &page);
    assert_eq!(book.unwrap().cert_uid, "certification.x");
    assert_eq!(asked[2], query("exams", "exam.az-700"));
}

#[test]
fn certification_that_leads_nowhere() {
    let answer = |url: &str| {
        let mut r = CatalogResponse::new();
        if url == query("certifications", "certification.x") {
            r.certifications.push(cert("certification.x", &[], &[]));
        }
        Ok(r)
    };
    let (r, _) = run("x", &answer, &no_page);
    assert_eq!(
        r.unwrap_err().text(),
        "certification.x (no study guide and could not resolve an exam; pass the exam code, e.g. az-104) \
         has no learning paths in its study guide"
    );
}

#[test]
fn exam_takes_the_badge_of_its_certification() {
    let answer = |url: &str| {
        let mut r = contents(url);
        if url.contains("type=exams") {
            r.exams.push(exam("exam.az-305", Some("Designing"), &["p1"]));
        } else if url == query("certifications", "") {
            r.certifications.push(cert("certification.y", &[], &["exam.az-305"]));
        }
        Ok(r)
    };
    let (book, _) = run("AZ305", &answer, &no_page);
    let book = book.unwrap();
    assert_eq!(book.cert_uid, "exam.az-305");
    assert_eq!(book.title, "Designing");
    assert_eq!(book.icon_url.as_deref(), Some("https://x/certification.y.svg"));
}

#[test]
fn exam_keeps_its_own_badge_where_the_list_fails() {
    let answer = |url: &str| {
        if url == query("certifications", "") {
            return Err(failure(url));
        }
        let mut r = contents(url);
        if url.contains("type=exams") {
            r.exams.push(exam("exam.az-305", None, &["p1"]));
        }
        Ok(r)
    };
    let (book, _) = run("az-305", &answer, &no_page);
    let book = book.unwrap();
    assert_eq!(book.title, "exam.az-305");
    assert_eq!(book.icon_url.as_deref(), Some("https://x/exam.svg"));
}

#[test]
fn exam_through_its_course() {
    let answer = |url: &str| {
        let mut r = contents(url);
        if url == query("courses", "course.az-500t00") {
            r.courses.push(course("course.az-500t00", &["intermediate"], &["p1"]));
        }
        Ok(r)
    };
    let (book, asked) = run("az-500", &answer, &no_page);
    let book = book.unwrap();
    assert_eq!(book.title, "Course course.az-500t00");
    assert_eq!(
        book.icon_url.as_deref(),
        Some("https://learn.microsoft.com/en-us/media/learn/certification/badges/microsoft-certified-associate-badge.svg")
    );
    assert_eq!(asked[2], query("courses", "course.az-500t00"));
}

#[test]
fn exam_through_path_titles() {
    let answer = |url: &str| {
        if url == format!("{BASE}?type=learningPaths&locale=en-us") {
            let mut r = CatalogResponse::new();
            r.learning_paths.push(path("p1", "AZ-104: Manage", None));
            r.learning_paths.push(path("p9", "AZ-1040", None));
            r.learning_paths.push(path("p2", "az-104 Prerequisites", None));
            return Ok(r);
        }
        if url.contains("type=courses") {
            return Err(failure(url));
        }
        Ok(contents(url))
    };
    let (book, asked) = run("az-104", &answer, &no_page);
    let book = book.unwrap();
    assert_eq!(book.title, "AZ-104 study guide");
    assert_eq!(book.icon_url, None);
    let titles: Vec<&str> = book.parts.iter().map(|p| p.title.as_str()).collect();
    // The prerequisites come first.
    assert_eq!(titles, ["Path p2", "Path p1"]);
    assert_eq!(asked[4], format!("{BASE}?type=learningPaths&locale=en-us"));
    assert_eq!(asked[5], query("learningPaths", "p2,p1"));
}

#[test]
fn exam_without_any_path() {
    let answer = |_: &str| Ok(CatalogResponse::new());
    let (r, _) = run("exam.zz-999", &answer, &no_page);
    assert!(matches!(r, Err(ResolveError::NoPaths(u)) if u == "exam.zz-999"));
}

#[test]
fn single_path_by_its_slug() {
    let answer = |url: &str| {
        if url == query("learningPaths", "") {
            let mut r = CatalogResponse::new();
            r.learning_paths.push(path("p0", "Other", Some("https://x/training/paths/other/")));
            r.learning_paths.push(path("p1", "Started", Some("https://x/training/paths/started/?WT=1")));
            return Ok(r);
        }
        Ok(contents(url))
    };
    let (book, _) = run("https://learn.microsoft.com/training/paths/started/", &answer, &no_page);
    let book = book.unwrap();
    assert_eq!(book.cert_uid, "p1");
    assert_eq!(book.title, "Started");
    assert_eq!(book.icon_url.as_deref(), Some("https://x/p1.svg"));
    assert_eq!(book.parts.len(), 1);

    let (r, _) = run("https://learn.microsoft.com/training/paths/gone/", &answer, &no_page);
    assert_eq!(
        r.unwrap_err().text(),
        "learning path \"gone\" has no learning paths in its study guide"
    );
}

#[test]
fn course_by_its_page() {
    let answer = |url: &str| {
        let mut r = contents(url);
        if url == query("courses", "course.az-900t00") {
            r.courses.push(course("course.az-900t00", &["beginner"], &["p1"]));
        }
        Ok(r)
    };
    let (book, asked) = run("https://learn.microsoft.com/training/courses/AZ-900T00", &answer, &no_page);
    let book = book.unwrap();
    assert_eq!(book.cert_uid, "course.az-900t00");
    assert_eq!(book.title, "Course course.az-900t00");
    assert_eq!(
        book.icon_url.as_deref(),
        Some("https://learn.microsoft.com/en-us/media/learn/certification/badges/microsoft-certified-fundamentals-badge.svg")
    );
    assert_eq!(book.parts.len(), 1);
    assert_eq!(asked[0], query("courses", "course.az-900t00"));

    let (r, asked) = run("https://learn.microsoft.com/training/courses/none", &answer, &no_page);
    assert!(matches!(r, Err(ResolveError::NoPaths(u)) if u == "course.none"));
    assert_eq!(asked.len(), 1);

    let fails = |url: &str| Err(failure(url));
    let (r, _) = run("https://learn.microsoft.com/training/courses/az-900t00", &fails, &no_page);
    assert!(matches!(r, Err(ResolveError::Fetch(_))));
}

#[test]
fn module_by_its_page() {
    let answer = |url: &str| Ok(contents(url));
    let (book, asked) = run("https://learn.microsoft.com/en-us/training/modules/m1/", &answer, &no_page);
    let book = book.unwrap();
    assert_eq!(book.cert_uid, "m1");
    assert_eq!(book.title, "Module");
    assert_eq!(book.icon_url, None);
    assert_eq!(book.parts.len(), 1);
    assert_eq!(book.parts[0].title, "Module");
    assert_eq!(book.parts[0].modules.len(), 1);
    let units: Vec<&str> =
        book.parts[0].modules[0].units.iter().map(|u| u.title.as_str()).collect();
    assert_eq!(units, ["Unit A", "Not there"]);
    assert_eq!(asked, [query("modules", ""), query("units", "m1.a,m1.not-there")]);

    let (r, _) = run("https://learn.microsoft.com/training/modules/gone/", &answer, &no_page);
    assert!(matches!(r, Err(ResolveError::ModuleNotFound(u)) if u == "gone"));
}

#[test]
fn many_units_are_asked_for_in_batches() {
    let names: Vec<String> = (0..30).map(|i| format!("m1.u{i}")).collect();
    let answer = |url: &str| {
        let mut r = contents(url);
        if url.contains("type=certifications") {
            r.certifications.push(cert("certification.x", &["p1"], &[]));
        } else if url.contains("type=modules") {
            r.modules[0].units = names.clone();
        } else if url.contains("type=units") {
            r.units.clear();
            for n in &names {
                if url.contains(&format!("{n},")) || url.contains(&format!("{n}&")) {
                    r.units.push(RawUnit {
                        uid: n.clone(),
                        title: format!("T {n}"),
                        duration_in_minutes: None,
                    });
                }
            }
        }
        Ok(r)
    };
    let (book, asked) = run("x", &answer, &no_page);
    assert_eq!(asked.len(), 5);
    assert_eq!(asked[3], query("units", &names[..25].join(",")));
    assert_eq!(asked[4], query("units", &names[25..].join(",")));
    let units = &book.unwrap().parts[0].modules[0].units;
    assert_eq!(units.len(), 30);
    for (u, n) in units.iter().zip(&names) {
        assert_eq!(u.title, format!("T {n}"));
    }
}

#[test]
fn module_by_uid() {
    let mut state = ModuleState::start("m1");
    let mut asked = Vec::new();
    while let Some(r) = state.request("en-us") {
        match r {
            Request::Catalog(url) => {
                let reply = contents(&url);
                asked.push(url);
                state = state.next(Ok(reply), "en-us");
            }
            Request::Page(_) => panic!("no page is needed"),
        }
    }
    assert_eq!(asked, [query("modules", "m1"), query("units", "m1.a,m1.not-there")]);
    match state {
        ModuleState::Done(m) => {
            assert_eq!(m.title, "Module");
            assert_eq!(m.units.len(), 2);
        }
        _ => panic!("not done"),
    }
}

#[test]
fn unknown_module() {
    let state = ModuleState::start("zz").next(Ok(contents("type=modules")), "en-us");
    assert!(state.request("en-us").is_none());
    assert!(matches!(state, ModuleState::Failed(ResolveError::ModuleNotFound(u)) if u == "zz"));
}

#[test]
fn icon_of_the_first_owner_that_has_one() {
    let mut bare = cert("certification.a", &[], &["exam.x"]);
    bare.icon_url = None;
    let certs = vec![
        cert("certification.other", &[], &["exam.y"]),
        bare,
        cert("certification.b", &[], &["exam.w", "exam.x"]),
    ];
    assert_eq!(cert_icon_for_exam(&certs, "exam.x").as_deref(), Some("https://x/certification.b.svg"));
    assert_eq!(cert_icon_for_exam(&certs, "exam.z"), None);
}

#[test]
fn prefix_takes_colon_space_or_nothing() {
    let paths = vec![
        path("a", "AZ-700 Design", None),
        path("b", "AZ-700", None),
        path("c", "AZ-700X", None),
        path("d", "Az-700: Prerequisite knowledge", None),
        path("e", "Intro to AZ-700", None),
    ];
    let found = learning_paths_by_prefix(&paths, "az-700");
    let uids: Vec<&str> = found.iter().map(|p| p.uid.as_str()).collect();
    assert_eq!(uids, ["d", "a", "b"]);
}
