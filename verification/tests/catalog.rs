use mslx::catalog::cert_level_badge;
use mslx::catalog::chunk_urls;
use mslx::catalog::dedup_ordered;
use mslx::catalog::index_by;
use mslx::catalog::module_uids;
use mslx::catalog::order_by;
use mslx::catalog::study_guide_paths;
use mslx::catalog::unit_uids;
use mslx::catalog::url_of_all;
use mslx::catalog::url_of_one;
use mslx::catalog::CatalogResponse;
use mslx::catalog::RawCourse;
use mslx::catalog::RawModule;
use mslx::catalog::RawPath;
use mslx::catalog::RawUnit;
use mslx::catalog::StudyItem;
use mslx::CatalogQuery;

fn texts(v: &[&str]) -> Vec<String> {
    v.iter().map(|s| s.to_string()).collect()
}

fn path(uid: &str, title: &str, modules: &[&str]) -> RawPath {
    RawPath {
        uid: uid.into(),
        title: title.into(),
        url: None,
        icon_url: None,
        duration_in_minutes: None,
        modules: texts(modules),
    }
}

fn module(uid: &str, title: &str, units: &[&str]) -> RawModule {
    RawModule {
        uid: uid.into(),
        title: title.into(),
        url: None,
        duration_in_minutes: None,
        units: texts(units),
    }
}

fn unit(uid: &str, title: &str) -> RawUnit {
    RawUnit { uid: uid.into(), title: title.into(), duration_in_minutes: None }
}

#[test]
fn query_url_holds_literal_commas() {
    let q = CatalogQuery {
        content_type: "modules".into(),
        uids: texts(&["a", "b", "c"]),
        locale: "en-us".into(),
    };
    assert_eq!(
        q.url(),
        "https://learn.microsoft.com/api/catalog/?type=modules&uid=a,b,c&locale=en-us"
    );
}

#[test]
fn query_of_nothing_has_an_empty_uid() {
    let q = CatalogQuery {
        content_type: "certifications".into(),
        uids: Vec::new(),
        locale: "de-de".into(),
    };
    assert_eq!(
        q.url(),
        "https://learn.microsoft.com/api/catalog/?type=certifications&uid=&locale=de-de"
    );
    assert_eq!(url_of_all("certifications", "de-de"), q.url());
}

#[test]
fn query_of_one() {
    assert_eq!(
        url_of_one("exams", "exam.az-305", "en-us"),
        "https://learn.microsoft.com/api/catalog/?type=exams&uid=exam.az-305&locale=en-us"
    );
}

#[test]
fn chunks_hold_at_most_twenty_five() {
    let uids: Vec<String> = (0..60).map(|i| format!("u{i}")).collect();
    let urls = chunk_urls("units", &uids, "en-us");
    assert_eq!(urls.len(), 3);
    for (k, url) in urls.iter().enumerate() {
        let end = if k == 2 { 60 } else { 25 * (k + 1) };
        let list = uids[25 * k..end].join(",");
        assert_eq!(
            *url,
            format!("https://learn.microsoft.com/api/catalog/?type=units&uid={list}&locale=en-us")
        );
    }
}

#[test]
fn uids_with_a_comma_are_not_fetched() {
    let uids = texts(&["a", "siem,-soar", "b"]);
    assert_eq!(
        chunk_urls("units", &uids, "en-us"),
        texts(&["https://learn.microsoft.com/api/catalog/?type=units&uid=a,b&locale=en-us"])
    );
    assert!(chunk_urls("units", &texts(&["x,y"]), "en-us").is_empty());
    assert!(chunk_urls("units", &Vec::new(), "en-us").is_empty());
}

#[test]
fn responses_are_merged_in_order() {
    let mut acc = CatalogResponse::new();
    let mut first = CatalogResponse::new();
    first.units.push(unit("a", "A"));
    let mut second = CatalogResponse::new();
    second.units.push(unit("b", "B"));
    second.modules.push(module("m", "M", &[]));
    second.courses.push(RawCourse {
        uid: "course.az-900t00".into(),
        title: None,
        icon_url: None,
        levels: Vec::new(),
        study_guide: Vec::new(),
    });
    acc.extend(first);
    acc.extend(second);
    assert_eq!(acc.units.len(), 2);
    assert_eq!(acc.units[0].uid, "a");
    assert_eq!(acc.units[1].uid, "b");
    assert_eq!(acc.modules[0].uid, "m");
    assert_eq!(acc.courses.len(), 1);
    assert_eq!(acc.courses[0].uid, "course.az-900t00");
}

#[test]
fn study_guide_keeps_learning_paths() {
    let items = vec![
        StudyItem { uid: "p1".into(), kind: "learningPath".into() },
        StudyItem { uid: "m1".into(), kind: "module".into() },
        StudyItem { uid: "p2".into(), kind: "learningPath".into() },
    ];
    assert_eq!(study_guide_paths(&items), texts(&["p1", "p2"]));
}

#[test]
fn level_badges() {
    let badge = |level: &str| cert_level_badge(&texts(&[level]));
    assert_eq!(
        badge("beginner").unwrap(),
        "https://learn.microsoft.com/en-us/media/learn/certification/badges/microsoft-certified-fundamentals-badge.svg"
    );
    assert_eq!(
        badge("intermediate").unwrap(),
        "https://learn.microsoft.com/en-us/media/learn/certification/badges/microsoft-certified-associate-badge.svg"
    );
    assert_eq!(
        badge("advanced").unwrap(),
        "https://learn.microsoft.com/en-us/media/learn/certification/badges/microsoft-certified-expert-badge.svg"
    );
    assert_eq!(badge("Beginner"), None);
    assert_eq!(cert_level_badge(&Vec::new()), None);
    // Only the first level counts.
    assert_eq!(cert_level_badge(&texts(&["other", "beginner"])), None);
}

#[test]
fn dedup_keeps_first_seen_order() {
    assert_eq!(
        dedup_ordered(&texts(&["b", "a", "b", "c", "a"])),
        texts(&["b", "a", "c"])
    );
    assert!(dedup_ordered(&Vec::new()).is_empty());
}

#[test]
fn index_finds_the_last_of_a_uid() {
    let items = vec![unit("a", "first"), unit("b", "B"), unit("a", "second")];
    assert_eq!(index_by(&items, "a"), Some(2));
    assert_eq!(index_by(&items, "b"), Some(1));
    assert_eq!(index_by(&items, "c"), None);
}

#[test]
fn paths_follow_the_order_given() {
    let paths = vec![
        path("p1", "one", &[]),
        path("p2", "two", &["m"]),
        path("p1", "one again", &[]),
    ];
    let ordered = order_by(&paths, &texts(&["p2", "missing", "p1", "p2"]));
    let titles: Vec<&str> = ordered.iter().map(|p| p.title.as_str()).collect();
    // Each uid yields a path once, and of two paths of one uid the later stands.
    assert_eq!(titles, ["two", "one again"]);
    assert_eq!(ordered[0].modules, texts(&["m"]));
}

#[test]
fn uids_of_modules_and_units_are_unique() {
    let paths = vec![path("p1", "one", &["m1", "m2"]), path("p2", "two", &["m2", "m3"])];
    assert_eq!(module_uids(&paths), texts(&["m1", "m2", "m3"]));
    let modules = vec![module("m1", "one", &["u1", "u2"]), module("m2", "two", &["u2", "u3"])];
    assert_eq!(unit_uids(&modules), texts(&["u1", "u2", "u3"]));
}
