use mslx::build_content_index;
use mslx::content::group_folders;
use mslx::content::group_url;
use mslx::content::folder_url;
use mslx::content::subtree_sha;
use mslx::content::unit_markdown_source;
use mslx::content::FolderEntry;
use mslx::content::GitEntry;
use mslx::content::GitTree;
use mslx::module_slug_from_url;
use mslx::unit_slug_from_uid;
use mslx::ContentIndex;

fn tree(entries: &[(&str, &str)], truncated: bool) -> GitTree {
    GitTree {
        tree: entries
            .iter()
            .map(|(path, kind)| GitEntry { path: path.to_string(), kind: kind.to_string() })
            .collect(),
        truncated,
    }
}

#[test]
fn module_slug_and_unit_slug() {
    assert_eq!(
        module_slug_from_url(
            "https://learn.microsoft.com/en-us/training/modules/design-governance/?WT.mc_id=api"
        )
        .unwrap(),
        "design-governance"
    );
    assert_eq!(
        unit_slug_from_uid("learn.wwl.design-governance.design-for-azure-policy"),
        "design-for-azure-policy"
    );
}

#[test]
fn index_resolves_unit_markdown_url() {
    let tree = tree(
        &[
            ("learn-pr/wwl-azure/design-governance", "tree"),
            ("learn-pr/wwl-azure/design-governance/7-design-for-azure-policy.yml", "blob"),
            ("learn-pr/wwl-azure/design-governance/10-knowledge-check.yml", "blob"),
            ("learn-pr/wwl-azure/design-governance/includes/7-design-for-azure-policy.md", "blob"),
            ("learn-pr/wwl-azure/design-governance/includes/1-introduction.md", "blob"),
        ],
        false,
    );
    let idx = build_content_index(&tree);
    let m = idx.modules.get("design-governance").unwrap();
    assert_eq!(m.folder, "learn-pr/wwl-azure/design-governance");
    assert_eq!(m.includes.len(), 2);
    assert_eq!(m.units_yml.len(), 2);
    assert_eq!(
        idx.unit_markdown_url("design-governance", "design-for-azure-policy")
            .unwrap(),
        "https://raw.githubusercontent.com/MicrosoftDocs/learn/main/learn-pr/wwl-azure/design-governance/includes/7-design-for-azure-policy.md"
    );
    assert_eq!(
        idx.unit_markdown_url("design-governance", "introduction").unwrap(),
        "https://raw.githubusercontent.com/MicrosoftDocs/learn/main/learn-pr/wwl-azure/design-governance/includes/1-introduction.md"
    );
    assert!(idx.unit_markdown_url("design-governance", "nope").is_none());
}

#[test]
fn groups_make_the_whole_index() {
    let whole = build_content_index(&tree(
        &[
            ("learn-pr/g1/m1/includes/1-a.md", "blob"),
            ("learn-pr/g1/m1/2-knowledge-check.yml", "blob"),
            ("learn-pr/g2/m2/includes/1-b.md", "blob"),
            ("learn-pr/g2/m2/includes/deep/c.md", "blob"),
            ("other/g2/m3/includes/1-b.md", "blob"),
            ("learn-pr/README.md", "blob"),
        ],
        true,
    ));
    let mut grouped = ContentIndex::new();
    grouped.add_group_tree(
        "g1",
        &tree(&[("m1/includes/1-a.md", "blob"), ("m1/2-knowledge-check.yml", "blob")], false),
    );
    grouped.add_group_tree(
        "g2",
        &tree(
            &[("m2/includes/1-b.md", "blob"), ("m2/includes/deep/c.md", "blob"), ("x.md", "blob")],
            true,
        ),
    );
    assert!(whole.truncated);
    assert!(grouped.truncated);
    assert_eq!(whole.modules.len(), 2);
    assert_eq!(grouped.modules.len(), 2);
    for slug in ["m1", "m2"] {
        let a = whole.modules.get(slug).unwrap();
        let b = grouped.modules.get(slug).unwrap();
        assert_eq!(a.folder, b.folder);
        assert_eq!(a.includes, b.includes);
        assert_eq!(a.units_yml, b.units_yml);
    }
    assert!(whole.modules.get("m3").is_none());
}

#[test]
fn files_by_slug_number_and_ordinal() {
    let mut idx = ContentIndex::new();
    idx.add_group_tree(
        "g",
        &tree(
            &[
                ("m/includes/10-last.md", "blob"),
                ("m/includes/2-first.md", "blob"),
                ("m/includes/4-middle.md", "blob"),
                ("m/includes/11-knowledge-check.md", "blob"),
                ("m/11-knowledge-check.yml", "blob"),
                ("m/index.yml", "blob"),
            ],
            false,
        ),
    );
    assert_eq!(idx.unit_include_file("m", "middle"), Some("4-middle.md"));
    assert_eq!(idx.unit_include_file("m", "iddle"), None);
    assert_eq!(idx.unit_include_file("n", "middle"), None);
    assert_eq!(idx.unit_include_file_by_number("m", 2), Some("2-first.md"));
    assert_eq!(idx.unit_include_file_by_number("m", 1), None);
    // Content files in number order, whatever order they are listed in, without the check.
    assert_eq!(idx.unit_include_file_by_ordinal("m", 1, 3), Some("2-first.md"));
    assert_eq!(idx.unit_include_file_by_ordinal("m", 2, 3), Some("4-middle.md"));
    assert_eq!(idx.unit_include_file_by_ordinal("m", 3, 3), Some("10-last.md"));
    assert_eq!(idx.unit_include_file_by_ordinal("m", 0, 3), None);
    assert_eq!(idx.unit_include_file_by_ordinal("m", 4, 3), None);
    assert_eq!(idx.unit_include_file_by_ordinal("m", 1, 4), None);
    assert_eq!(idx.knowledge_check_yml("m"), Some("11-knowledge-check.yml"));
    assert_eq!(idx.knowledge_check_yml("n"), None);
    assert_eq!(
        idx.module_raw_base("m").unwrap(),
        "https://raw.githubusercontent.com/MicrosoftDocs/learn/main/learn-pr/g/m"
    );
    assert_eq!(idx.module_raw_base("n"), None);
}

#[test]
fn unit_without_markdown_is_reported() {
    let idx = ContentIndex::new();
    assert_eq!(
        unit_markdown_source(&idx, "m", "learn.m.u").unwrap_err().text(),
        "could not derive a certification uid from input: no markdown found for unit learn.m.u in module 'm'"
    );
}

#[test]
fn urls_without_a_module() {
    assert_eq!(module_slug_from_url("https://x/modules"), None);
    assert_eq!(module_slug_from_url("https://x/modules//a/b"), Some("a".into()));
    assert_eq!(module_slug_from_url("https://x/?modules/a"), None);
    assert_eq!(unit_slug_from_uid("nodots"), "nodots");
    assert_eq!(unit_slug_from_uid("dot."), "");
}

#[test]
fn walks_the_repository() {
    let entry = |path: Option<&str>, kind: Option<&str>, sha: Option<&str>| FolderEntry {
        path: path.map(String::from),
        kind: kind.map(String::from),
        sha: sha.map(String::from),
    };
    let listing = vec![
        entry(Some("a"), Some("tree"), Some("1")),
        entry(Some("b"), Some("blob"), Some("2")),
        entry(Some("c"), Some("tree"), None),
        entry(None, Some("tree"), Some("4")),
        entry(Some("learn-pr"), None, Some("5")),
        entry(Some("d"), Some("tree"), Some("6")),
    ];
    assert_eq!(subtree_sha(&listing, "learn-pr"), Some("5".into()));
    assert_eq!(subtree_sha(&listing, "c"), None);
    assert_eq!(subtree_sha(&listing, "z"), None);
    let groups: Vec<(String, String)> =
        group_folders(&listing).into_iter().map(|g| (g.name, g.sha)).collect();
    assert_eq!(groups, vec![("a".into(), "1".into()), ("d".into(), "6".into())]);
    assert_eq!(
        folder_url("main"),
        "https://api.github.com/repos/MicrosoftDocs/learn/git/trees/main"
    );
    assert_eq!(
        group_url("6"),
        "https://api.github.com/repos/MicrosoftDocs/learn/git/trees/6?recursive=1"
    );
}
