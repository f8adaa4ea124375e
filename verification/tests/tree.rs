use mslx::catalog::RawModule;
use mslx::catalog::RawPath;
use mslx::catalog::RawUnit;
use mslx::outline::hours_rounded;
use mslx::outline::hours_with_tenth;
use mslx::outline::to_debug_json;
use mslx::render_outline;
use mslx::tree::clean_url;
use mslx::tree::module_node;
use mslx::tree::part_nodes;
use mslx::tree::placeholder_unit;
use mslx::Book;
use mslx::ModuleNode;
use mslx::Part;
use mslx::UnitNode;

fn raw_unit(uid: &str, title: &str, minutes: Option<u32>) -> RawUnit {
    RawUnit { uid: uid.into(), title: title.into(), duration_in_minutes: minutes }
}

fn raw_module(uid: &str, title: &str, units: &[&str]) -> RawModule {
    RawModule {
        uid: uid.into(),
        title: title.into(),
        url: Some(format!("https://learn.microsoft.com/en-us/training/modules/{uid}/?WT.mc_id=api")),
        duration_in_minutes: Some(20),
        units: units.iter().map(|s| s.to_string()).collect(),
    }
}

fn sample_book() -> Book {
    let units = vec![
        UnitNode {
            uid: "m.intro".into(),
            title: "Introduction".into(),
            duration_in_minutes: Some(3),
            is_knowledge_check: false,
        },
        UnitNode {
            uid: "m.knowledge-check".into(),
            title: "The \"check\"".into(),
            duration_in_minutes: None,
            is_knowledge_check: true,
        },
    ];
    Book {
        cert_uid: "certification.x".into(),
        title: "X".into(),
        icon_url: None,
        parts: vec![
            Part {
                uid: "p1".into(),
                title: "First".into(),
                url: None,
                icon_url: None,
                duration_in_minutes: Some(95),
                modules: vec![
                    ModuleNode {
                        uid: "m".into(),
                        title: "M\\1".into(),
                        url: None,
                        duration_in_minutes: Some(80),
                        units,
                    },
                    ModuleNode {
                        uid: "n".into(),
                        title: "N".into(),
                        url: None,
                        duration_in_minutes: None,
                        units: Vec::new(),
                    },
                ],
            },
            Part {
                uid: "p2".into(),
                title: "Second".into(),
                url: None,
                icon_url: None,
                duration_in_minutes: None,
                modules: Vec::new(),
            },
        ],
    }
}

#[test]
fn knowledge_checks_are_told_by_uid_or_title() {
    let kc = |uid: &str, title: &str| UnitNode::from_raw(&raw_unit(uid, title, None)).is_knowledge_check;
    assert!(kc("a.knowledge-check", "Quiz"));
    assert!(kc("a.module-assessment", "Assessment"));
    assert!(kc("a.b", "Take the Knowledge CHECK"));
    assert!(!kc("a.knowledge-check-2", "Quiz"));
    assert!(!kc("a.b", "Knowledge"));
}

#[test]
fn unit_keeps_what_the_catalog_says() {
    let u = UnitNode::from_raw(&raw_unit("a.b", "B", Some(4)));
    assert_eq!(u.uid, "a.b");
    assert_eq!(u.title, "B");
    assert_eq!(u.duration_in_minutes, Some(4));
}

#[test]
fn placeholder_reads_the_slug() {
    let u = placeholder_unit("learn.wwl.sc.define-concepts-of-siem,-soar,-xdr");
    assert_eq!(u.title, "Define concepts of siem, soar, xdr");
    assert_eq!(u.uid, "learn.wwl.sc.define-concepts-of-siem,-soar,-xdr");
    assert_eq!(u.duration_in_minutes, None);
    assert!(!u.is_knowledge_check);
    assert!(placeholder_unit("a.knowledge-check").is_knowledge_check);
    // The first letter is capitalised by Unicode's rules, even where it becomes two.
    assert_eq!(placeholder_unit("a.\u{df}-b").title, "SS b");
    // A slug without a character leaves the uid.
    assert_eq!(placeholder_unit("a.").title, "a.");
}

#[test]
fn tracking_suffix_is_dropped() {
    assert_eq!(
        clean_url(&Some("https://x/y/?WT.mc_id=api_CatalogApi".into())).unwrap(),
        "https://x/y/"
    );
    assert_eq!(clean_url(&Some("https://x/y".into())).unwrap(), "https://x/y");
    assert_eq!(clean_url(&None), None);
}

#[test]
fn module_keeps_every_unit() {
    let m = raw_module("mod", "Mod", &["mod.a", "mod.gone-away", "mod.b"]);
    let units = vec![raw_unit("mod.b", "B", Some(2)), raw_unit("mod.a", "A", None)];
    let node = module_node(&m, &units);
    assert_eq!(node.url.as_deref(), Some("https://learn.microsoft.com/en-us/training/modules/mod/"));
    assert_eq!(node.duration_in_minutes, Some(20));
    let titles: Vec<&str> = node.units.iter().map(|u| u.title.as_str()).collect();
    assert_eq!(titles, ["A", "Gone away", "B"]);
}

#[test]
fn shared_modules_stand_in_both_parts() {
    let path = |uid: &str, modules: &[&str]| RawPath {
        uid: uid.into(),
        title: uid.to_uppercase(),
        url: Some(format!("https://x/{uid}?a")),
        icon_url: Some("https://x/i.svg".into()),
        duration_in_minutes: Some(7),
        modules: modules.iter().map(|s| s.to_string()).collect(),
    };
    let paths = vec![path("p1", &["m1", "unknown"]), path("p2", &["m2", "m1"])];
    let modules = vec![raw_module("m1", "One", &["u1"]), raw_module("m2", "Two", &["u1"])];
    let units = vec![raw_unit("u1", "Unit", None)];
    let parts = part_nodes(&paths, &modules, &units);
    assert_eq!(parts.len(), 2);
    assert_eq!(parts[0].url.as_deref(), Some("https://x/p1"));
    assert_eq!(parts[0].icon_url.as_deref(), Some("https://x/i.svg"));
    assert_eq!(parts[0].duration_in_minutes, Some(7));
    assert_eq!(parts[0].modules.len(), 1);
    let titles: Vec<&str> = parts[1].modules.iter().map(|m| m.title.as_str()).collect();
    assert_eq!(titles, ["Two", "One"]);
    assert_eq!(parts[1].modules[1].units[0].title, "Unit");
}

#[test]
fn counts_of_a_book() {
    let book = sample_book();
    assert_eq!(book.total_minutes(), 80);
    assert_eq!(book.module_count(), 2);
    assert_eq!(book.unit_count(), 2);
}

#[test]
fn hours_match_the_formatted_quotient() {
    for m in 0..20000u32 {
        assert_eq!(hours_with_tenth(m), format!("{:.1}", m as f64 / 60.0), "{m} minutes");
        assert_eq!(
            hours_rounded(m).to_string(),
            format!("{:.0}", m as f64 / 60.0),
            "{m} minutes"
        );
    }
    for m in (u32::MAX - 2000)..=u32::MAX {
        assert_eq!(hours_with_tenth(m), format!("{:.1}", m as f64 / 60.0), "{m} minutes");
        assert_eq!(
            hours_rounded(m).to_string(),
            format!("{:.0}", m as f64 / 60.0),
            "{m} minutes"
        );
    }
}

#[test]
fn outline_lists_the_tree() {
    assert_eq!(
        render_outline(&sample_book()),
        "X  [certification.x]\n\
         2 parts, 2 modules, 2 units, ~80 min (~1.3 h)\n\n\
         1. First (95 min)\n    \
         - M\\1 (80 min)\n        \
         . Introduction (3 min)\n        \
         . The \"check\"  [KC] (0 min)\n    \
         - N (0 min)\n\n\
         2. Second (0 min)\n\n"
    );
}

#[test]
fn json_of_the_tree() {
    assert_eq!(
        to_debug_json(&sample_book()),
        "{\"cert_uid\":\"certification.x\",\"title\":\"X\",\"parts\":[\
         {\"uid\":\"p1\",\"title\":\"First\",\"modules\":[\
         {\"uid\":\"m\",\"title\":\"M\\\\1\",\"units\":[\
         {\"uid\":\"m.intro\",\"title\":\"Introduction\",\"kc\":false},\
         {\"uid\":\"m.knowledge-check\",\"title\":\"The \\\"check\\\"\",\"kc\":true}]},\
         {\"uid\":\"n\",\"title\":\"N\",\"units\":[]}]},\
         {\"uid\":\"p2\",\"title\":\"Second\",\"modules\":[]}]}"
    );
}
