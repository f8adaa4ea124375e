//! The content index: from a module's slug to its files in the public content repository, so
//! that a unit's uid leads to the raw URL of its markdown.

use crate::error;
use crate::error::ResolveError;
use crate::error::ResolveErrorView;
use crate::input;
use crate::text;
use vstd::prelude::*;
use vstd::slice::slice_subrange;
use vstd::string::*;

verus! {

broadcast use vstd::seq_lib::group_seq_properties;

/// Recursive git tree of the public content repo (one fetch, cacheable).
pub const LEARN_TREE_URL: &'static str =
    "https://api.github.com/repos/MicrosoftDocs/learn/git/trees/main?recursive=1";

/// Raw content base for that repo's `main` branch (sends `access-control-allow-origin: *`).
pub const LEARN_RAW_BASE: &'static str =
    "https://raw.githubusercontent.com/MicrosoftDocs/learn/main";

// ---------------------------------------------------------------------------
// Git trees
// ---------------------------------------------------------------------------

/// One entry of a git tree: a file is a `blob`.
pub struct GitEntry {
    pub path: String,
    pub kind: String,
}

/// What a [`GitEntry`] holds.
pub struct GitEntryView {
    pub path: Seq<char>,
    pub kind: Seq<char>,
}

impl DeepView for GitEntry {
    type V = GitEntryView;

    open spec fn deep_view(&self) -> GitEntryView {
        GitEntryView { path: self.path@, kind: self.kind@ }
    }
}

/// A git tree as listed by the trees API. GitHub truncates very large ones.
pub struct GitTree {
    pub tree: Vec<GitEntry>,
    pub truncated: bool,
}

// ---------------------------------------------------------------------------
// Walking the repository
// ---------------------------------------------------------------------------

/// The git trees API of the content repo.
pub const TREE_API: &'static str = "https://api.github.com/repos/MicrosoftDocs/learn/git/trees";

/// One entry of a listed folder, as far as the listing tells.
#[derive(Debug)]
pub struct FolderEntry {
    pub path: Option<String>,
    pub kind: Option<String>,
    pub sha: Option<String>,
}

/// What a [`FolderEntry`] holds.
pub struct FolderEntryView {
    pub path: Option<Seq<char>>,
    pub kind: Option<Seq<char>>,
    pub sha: Option<Seq<char>>,
}

impl DeepView for FolderEntry {
    type V = FolderEntryView;

    open spec fn deep_view(&self) -> FolderEntryView {
        FolderEntryView {
            path: self.path.deep_view(),
            kind: self.kind.deep_view(),
            sha: self.sha.deep_view(),
        }
    }
}

/// A group of modules: a folder below `learn-pr`.
#[derive(Debug)]
pub struct Group {
    pub name: String,
    pub sha: String,
}

/// What a [`Group`] holds.
pub struct GroupView {
    pub name: Seq<char>,
    pub sha: Seq<char>,
}

impl DeepView for Group {
    type V = GroupView;

    open spec fn deep_view(&self) -> GroupView {
        GroupView { name: self.name@, sha: self.sha@ }
    }
}

/// The sha of the first entry with that path, from position `from` on.
pub open spec fn sha_of(entries: Seq<FolderEntryView>, path: Seq<char>, from: int) -> Option<
    Seq<char>,
>
    decreases entries.len() - from,
{
    if from < 0 || from >= entries.len() {
        None
    } else if entries[from].path == Some(path) {
        entries[from].sha
    } else {
        sha_of(entries, path, from + 1)
    }
}

/// The folders among the first `n` entries that have a path and a sha.
pub open spec fn groups_first(entries: Seq<FolderEntryView>, n: nat) -> Seq<GroupView>
    decreases n,
{
    if n == 0 {
        Seq::empty()
    } else {
        let before = groups_first(entries, (n - 1) as nat);
        let e = entries[n - 1];
        match (e.path, e.sha) {
            (Some(name), Some(sha)) if e.kind == Some("tree"@) => before.push(
                GroupView { name, sha },
            ),
            _ => before,
        }
    }
}

fn is_text(o: &Option<String>, s: &str) -> (r: bool)
    ensures
        r == (o.deep_view() == Some(s@)),
{
    match o {
        Some(t) => text::same_text(t.as_str(), s),
        None => false,
    }
}

/// The sha of the entry with that path in a listed folder.
pub fn subtree_sha(entries: &Vec<FolderEntry>, path: &str) -> (r: Option<String>)
    ensures
        r.deep_view() == sha_of(entries.deep_view(), path@, 0),
{
    let ghost all = entries.deep_view();
    let n: usize = entries.len();
    for i in 0..n
        invariant
            n == entries@.len(),
            all == entries.deep_view(),
            sha_of(all, path@, 0) == sha_of(all, path@, i as int),
    {
        assert(all[i as int] == entries@[i as int].deep_view());
        if is_text(&entries[i].path, path) {
            return text::copy_opt_text(&entries[i].sha);
        }
    }
    None
}

/// The groups in a listing of `learn-pr`.
pub fn group_folders(entries: &Vec<FolderEntry>) -> (r: Vec<Group>)
    ensures
        r.deep_view() == groups_first(entries.deep_view(), entries@.len()),
{
    let ghost all = entries.deep_view();
    let n: usize = entries.len();
    let mut r: Vec<Group> = Vec::new();
    for i in 0..n
        invariant
            n == entries@.len(),
            all == entries.deep_view(),
            r.deep_view() =~= groups_first(all, i as nat),
    {
        let e = &entries[i];
        assert(all[i as int] == e.deep_view());
        if is_text(&e.kind, "tree") {
            if let Some(name) = &e.path {
                if let Some(sha) = &e.sha {
                    text::push_item(&mut r, Group { name: name.clone(), sha: sha.clone() });
                }
            }
        }
    }
    r
}

/// The URL that lists a folder, by its sha or branch.
pub fn folder_url(sha: &str) -> (r: String)
    ensures
        r@ == TREE_API@ + "/"@ + sha@,
{
    let mut s = TREE_API.to_owned();
    s.append("/");
    s.append(sha);
    s
}

/// The URL that lists everything below a group's folder.
pub fn group_url(sha: &str) -> (r: String)
    ensures
        r@ == TREE_API@ + "/"@ + sha@ + "?recursive=1"@,
{
    let mut s = folder_url(sha);
    s.append("?recursive=1");
    s
}

// ---------------------------------------------------------------------------
// Module files
// ---------------------------------------------------------------------------

/// Files belonging to one module folder under `learn-pr/<group>/<module-slug>/`.
#[derive(Debug, Clone)]
pub struct ModuleFiles {
    /// e.g. `learn-pr/wwl-azure/design-governance`
    pub folder: String,
    /// markdown file names under `includes`, e.g. `7-design-for-azure-policy.md`
    pub includes: Vec<String>,
    /// root yaml unit files, e.g. `10-knowledge-check.yml`
    pub units_yml: Vec<String>,
}

/// What a [`ModuleFiles`] holds.
pub struct ModuleFilesView {
    pub folder: Seq<char>,
    pub includes: Seq<Seq<char>>,
    pub units_yml: Seq<Seq<char>>,
}

impl DeepView for ModuleFiles {
    type V = ModuleFilesView;

    open spec fn deep_view(&self) -> ModuleFilesView {
        ModuleFilesView {
            folder: self.folder@,
            includes: self.includes.deep_view(),
            units_yml: self.units_yml.deep_view(),
        }
    }
}

/// A module folder in which no unit file has been seen.
pub open spec fn no_files(folder: Seq<char>) -> ModuleFilesView {
    ModuleFilesView { folder, includes: Seq::empty(), units_yml: Seq::empty() }
}

/// `files` with the file at `rest`, a path below the module folder, where it is a unit file: an
/// `includes/*.md` or a `*.yml` directly in the folder.
pub open spec fn with_file(files: ModuleFilesView, rest: Seq<Seq<char>>) -> ModuleFilesView {
    if rest.len() == 2 && rest[0] == "includes"@ && text::has_suffix(rest[1], ".md"@) {
        ModuleFilesView { includes: files.includes.push(rest[1]), ..files }
    } else if rest.len() == 1 && text::has_suffix(rest[0], ".yml"@) {
        ModuleFilesView { units_yml: files.units_yml.push(rest[0]), ..files }
    } else {
        files
    }
}

impl Default for ModuleFiles {
    /// No folder and no file.
    fn default() -> (r: Self)
        ensures
            r.deep_view() == no_files(Seq::empty()),
    {
        let r = ModuleFiles { folder: String::new(), includes: Vec::new(), units_yml: Vec::new() };
        assert(r.includes.deep_view() =~= Seq::<Seq<char>>::empty());
        assert(r.units_yml.deep_view() =~= Seq::<Seq<char>>::empty());
        r
    }
}

impl ModuleFiles {
    fn add(&mut self, segs: &Vec<String>, skip: usize)
        requires
            skip <= segs@.len(),
        ensures
            final(self).deep_view() == with_file(
                old(self).deep_view(),
                segs.deep_view().skip(skip as int),
            ),
    {
        let ghost rest = segs.deep_view().skip(skip as int);
        let n: usize = segs.len() - skip;
        if n == 2 {
            assert(rest[0] == segs@[skip as int]@);
            assert(rest[1] == segs@[skip + 1]@);
            if text::same_text(segs[skip].as_str(), "includes") && text::ends_with(
                text::chars_of(segs[skip + 1].as_str()).as_slice(),
                ".md",
            ) {
                text::push_item(&mut self.includes, segs[skip + 1].clone());
            }
        } else if n == 1 {
            assert(rest[0] == segs@[skip as int]@);
            if text::ends_with(text::chars_of(segs[skip].as_str()).as_slice(), ".yml") {
                text::push_item(&mut self.units_yml, segs[skip].clone());
            }
        }
    }
}

// ---------------------------------------------------------------------------
// The table of modules
// ---------------------------------------------------------------------------

/// A module's slug and its files.
#[derive(Debug, Clone)]
pub struct ModuleEntry {
    pub slug: String,
    pub files: ModuleFiles,
}

/// What a [`ModuleEntry`] holds.
pub struct ModuleEntryView {
    pub slug: Seq<char>,
    pub files: ModuleFilesView,
}

impl DeepView for ModuleEntry {
    type V = ModuleEntryView;

    open spec fn deep_view(&self) -> ModuleEntryView {
        ModuleEntryView { slug: self.slug@, files: self.files.deep_view() }
    }
}

/// A map from module slugs to module files, kept as a list in which no slug occurs twice.
#[derive(Debug, Clone)]
pub struct ModuleTable {
    pub entries: Vec<ModuleEntry>,
}

/// The map that a list of entries stands for.
pub open spec fn map_of(entries: Seq<ModuleEntryView>) -> Map<Seq<char>, ModuleFilesView>
    decreases entries.len(),
{
    if entries.len() == 0 {
        Map::empty()
    } else {
        map_of(entries.drop_last()).insert(entries.last().slug, entries.last().files)
    }
}

/// No slug occurs twice.
pub open spec fn slugs_unique(entries: Seq<ModuleEntryView>) -> bool {
    forall|i: int, j: int|
        0 <= i < j < entries.len() ==> (#[trigger] entries[i]).slug != (#[trigger] entries[j]).slug
}

impl View for ModuleTable {
    type V = Map<Seq<char>, ModuleFilesView>;

    open spec fn view(&self) -> Map<Seq<char>, ModuleFilesView> {
        map_of(self.entries.deep_view())
    }
}

/// `slug` last occurs at `i`.
pub open spec fn last_at(entries: Seq<ModuleEntryView>, slug: Seq<char>, i: int) -> bool {
    &&& 0 <= i < entries.len()
    &&& entries[i].slug == slug
    &&& forall|j: int| i < j < entries.len() ==> (#[trigger] entries[j]).slug != slug
}

/// `slug` occurs nowhere.
pub open spec fn absent(entries: Seq<ModuleEntryView>, slug: Seq<char>) -> bool {
    forall|j: int| 0 <= j < entries.len() ==> (#[trigger] entries[j]).slug != slug
}

proof fn lemma_map_of_present(entries: Seq<ModuleEntryView>, slug: Seq<char>, i: int)
    requires
        last_at(entries, slug, i),
    ensures
        map_of(entries).dom().contains(slug),
        map_of(entries)[slug] == entries[i].files,
    decreases entries.len(),
{
    if i < entries.len() - 1 {
        assert(entries.last().slug != slug);
        lemma_map_of_present(entries.drop_last(), slug, i);
    }
}

proof fn lemma_map_of_absent(entries: Seq<ModuleEntryView>, slug: Seq<char>)
    requires
        absent(entries, slug),
    ensures
        !map_of(entries).dom().contains(slug),
    decreases entries.len(),
{
    if entries.len() > 0 {
        assert(entries.last().slug != slug);
        lemma_map_of_absent(entries.drop_last(), slug);
    }
}

proof fn lemma_map_of_update(
    entries: Seq<ModuleEntryView>,
    slug: Seq<char>,
    i: int,
    files: ModuleFilesView,
)
    requires
        last_at(entries, slug, i),
    ensures
        map_of(entries.update(i, ModuleEntryView { slug, files })) == map_of(entries).insert(
            slug,
            files,
        ),
    decreases entries.len(),
{
    let e = ModuleEntryView { slug, files };
    let new = entries.update(i, e);
    if i < entries.len() - 1 {
        lemma_map_of_update(entries.drop_last(), slug, i, files);
        assert(new.drop_last() =~= entries.drop_last().update(i, e));
        assert(new.last() == entries.last());
        assert(entries.last().slug != slug);
        assert(map_of(new) =~= map_of(entries).insert(slug, files));
    } else {
        assert(new.drop_last() =~= entries.drop_last());
        assert(map_of(new) =~= map_of(entries).insert(slug, files));
    }
}

proof fn lemma_map_of_len(entries: Seq<ModuleEntryView>)
    requires
        slugs_unique(entries),
    ensures
        map_of(entries).dom().finite(),
        map_of(entries).dom().len() == entries.len(),
    decreases entries.len(),
{
    if entries.len() > 0 {
        let front = entries.drop_last();
        lemma_map_of_len(front);
        assert forall|j: int| 0 <= j < front.len() implies (#[trigger] front[j]).slug
            != entries.last().slug by {
            assert(front[j] == entries[j]);
            assert(entries[j].slug != entries[entries.len() - 1].slug);
        }
        lemma_map_of_absent(front, entries.last().slug);
    }
}

impl ModuleTable {
    pub open spec fn wf(&self) -> bool {
        slugs_unique(self.entries.deep_view())
    }

    /// A table without modules.
    pub fn new() -> (r: Self)
        ensures
            r.wf(),
            r@ == Map::<Seq<char>, ModuleFilesView>::empty(),
    {
        ModuleTable { entries: Vec::new() }
    }

    fn slot_of(&self, slug: &str) -> (r: Option<usize>)
        ensures
            match r {
                Some(i) => last_at(self.entries.deep_view(), slug@, i as int),
                None => absent(self.entries.deep_view(), slug@),
            },
    {
        let ghost all = self.entries.deep_view();
        let mut i: usize = self.entries.len();
        while i > 0
            invariant
                i <= self.entries@.len(),
                all == self.entries.deep_view(),
                forall|j: int| i <= j < all.len() ==> (#[trigger] all[j]).slug != slug@,
            decreases i,
        {
            i -= 1;
            assert(all[i as int] == self.entries@[i as int].deep_view());
            if text::same_text(self.entries[i].slug.as_str(), slug) {
                return Some(i);
            }
        }
        None
    }

    /// The files of a module.
    pub fn get(&self, slug: &str) -> (r: Option<&ModuleFiles>)
        ensures
            match r {
                Some(files) => self@.dom().contains(slug@) && self@[slug@] == files.deep_view(),
                None => !self@.dom().contains(slug@),
            },
    {
        match self.slot_of(slug) {
            Some(i) => {
                proof {
                    lemma_map_of_present(self.entries.deep_view(), slug@, i as int);
                }
                Some(&self.entries[i].files)
            },
            None => {
                proof {
                    lemma_map_of_absent(self.entries.deep_view(), slug@);
                }
                None
            },
        }
    }

    /// How many modules the table holds.
    pub fn len(&self) -> (r: usize)
        requires
            self.wf(),
        ensures
            self@.dom().finite(),
            r == self@.dom().len(),
    {
        proof {
            lemma_map_of_len(self.entries.deep_view());
        }
        self.entries.len()
    }

    /// Sets the files of a module.
    pub fn insert(&mut self, slug: String, files: ModuleFiles)
        requires
            old(self).wf(),
        ensures
            final(self).wf(),
            final(self)@ == old(self)@.insert(slug@, files.deep_view()),
    {
        let ghost all = self.entries.deep_view();
        match self.slot_of(slug.as_str()) {
            Some(i) => {
                proof {
                    lemma_map_of_update(all, slug@, i as int, files.deep_view());
                }
                let e = ModuleEntry { slug, files };
                let ghost ev = e.deep_view();
                self.entries.set(i, e);
                assert(self.entries.deep_view() =~= all.update(i as int, ev));
            },
            None => {
                let e = ModuleEntry { slug, files };
                let ghost ev = e.deep_view();
                text::push_item(&mut self.entries, e);
                assert(self.entries.deep_view().drop_last() =~= all);
            },
        }
    }
}

/// The modules of `m` once a file of the module `slug` has been seen: a module is entered, with
/// its folder, when its first file comes.
pub open spec fn absorbed(
    m: Map<Seq<char>, ModuleFilesView>,
    slug: Seq<char>,
    folder: Seq<char>,
    rest: Seq<Seq<char>>,
) -> Map<Seq<char>, ModuleFilesView> {
    let files = if m.dom().contains(slug) {
        m[slug]
    } else {
        no_files(folder)
    };
    m.insert(slug, with_file(files, rest))
}

impl ModuleTable {
    fn absorb(&mut self, slug: &str, folder: String, segs: &Vec<String>, skip: usize)
        requires
            old(self).wf(),
            skip <= segs@.len(),
        ensures
            final(self).wf(),
            final(self)@ == absorbed(
                old(self)@,
                slug@,
                folder@,
                segs.deep_view().skip(skip as int),
            ),
    {
        let ghost all = self.entries.deep_view();
        match self.slot_of(slug) {
            Some(i) => {
                let ghost rest = segs.deep_view().skip(skip as int);
                let ghost files = with_file(all[i as int].files, rest);
                proof {
                    lemma_map_of_present(all, slug@, i as int);
                    lemma_map_of_update(all, slug@, i as int, files);
                }
                self.entries[i].files.add(segs, skip);
                assert(self.entries.deep_view() =~= all.update(
                    i as int,
                    ModuleEntryView { slug: slug@, files },
                ));
            },
            None => {
                proof {
                    lemma_map_of_absent(all, slug@);
                }
                let mut files = ModuleFiles {
                    folder,
                    includes: Vec::new(),
                    units_yml: Vec::new(),
                };
                assert(files.deep_view().includes =~= Seq::<Seq<char>>::empty());
                assert(files.deep_view().units_yml =~= Seq::<Seq<char>>::empty());
                files.add(segs, skip);
                let e = ModuleEntry { slug: slug.to_owned(), files };
                text::push_item(&mut self.entries, e);
                assert(self.entries.deep_view().drop_last() =~= all);
            },
        }
    }
}

// ---------------------------------------------------------------------------
// The index
// ---------------------------------------------------------------------------

/// Index from module slug (the catalog module URL slug) to its repo files.
#[derive(Debug, Clone)]
pub struct ContentIndex {
    pub modules: ModuleTable,
    /// GitHub truncates very large trees; if set, some modules may be missing.
    pub truncated: bool,
}

impl Default for ContentIndex {
    /// An index without modules.
    fn default() -> (r: Self)
        ensures
            r.wf(),
            r.modules@ == Map::<Seq<char>, ModuleFilesView>::empty(),
            !r.truncated,
    {
        ContentIndex::new()
    }
}

/// The modules found in the first `n` entries of a tree of the whole repository. A unit file's
/// path is `learn-pr/<group>/<module-slug>/...`.
pub open spec fn indexed_first(tree: Seq<GitEntryView>, n: nat) -> Map<Seq<char>, ModuleFilesView>
    decreases n,
{
    if n == 0 {
        Map::empty()
    } else {
        let before = indexed_first(tree, (n - 1) as nat);
        let segs = text::split(tree[n - 1].path, '/');
        if tree[n - 1].kind != "blob"@ || segs.len() < 4 || segs[0] != "learn-pr"@ {
            before
        } else {
            absorbed(
                before,
                segs[2],
                segs[0] + "/"@ + segs[1] + "/"@ + segs[2],
                segs.skip(3),
            )
        }
    }
}

/// The modules of `start` and those found in the first `n` entries of a tree of one group. A unit
/// file's path is `<module-slug>/...`.
pub open spec fn grouped_first(
    start: Map<Seq<char>, ModuleFilesView>,
    group: Seq<char>,
    tree: Seq<GitEntryView>,
    n: nat,
) -> Map<Seq<char>, ModuleFilesView>
    decreases n,
{
    if n == 0 {
        start
    } else {
        let before = grouped_first(start, group, tree, (n - 1) as nat);
        let segs = text::split(tree[n - 1].path, '/');
        if tree[n - 1].kind != "blob"@ || segs.len() < 2 {
            before
        } else {
            absorbed(
                before,
                segs[0],
                "learn-pr/"@ + group + "/"@ + segs[0],
                segs.skip(1),
            )
        }
    }
}

/// Builds the content index from the git tree of the whole repository.
pub fn build_content_index(tree: &GitTree) -> (r: ContentIndex)
    ensures
        r.wf(),
        r.modules@ == indexed_first(tree.tree.deep_view(), tree.tree@.len()),
        r.truncated == tree.truncated,
{
    let mut modules = ModuleTable::new();
    let ghost all = tree.tree.deep_view();
    let n: usize = tree.tree.len();
    for i in 0..n
        invariant
            n == tree.tree@.len(),
            all == tree.tree.deep_view(),
            modules.wf(),
            modules@ == indexed_first(all, i as nat),
    {
        assert(all[i as int] == tree.tree@[i as int].deep_view());
        let segs = text::split_char(text::chars_of(tree.tree[i].path.as_str()).as_slice(), '/');
        let ghost parts = segs.deep_view();
        if text::same_text(tree.tree[i].kind.as_str(), "blob") && segs.len() >= 4 {
            assert(parts[0] == segs@[0]@ && parts[1] == segs@[1]@ && parts[2] == segs@[2]@);
            if text::same_text(segs[0].as_str(), "learn-pr") {
                let mut folder = segs[0].clone();
                folder.append("/");
                folder.append(segs[1].as_str());
                folder.append("/");
                folder.append(segs[2].as_str());
                modules.absorb(segs[2].as_str(), folder, &segs, 3);
            }
        }
    }
    ContentIndex { modules, truncated: tree.truncated }
}

impl ContentIndex {
    pub open spec fn wf(&self) -> bool {
        self.modules.wf()
    }

    /// An index without modules.
    pub fn new() -> (r: Self)
        ensures
            r.wf(),
            r.modules@ == Map::<Seq<char>, ModuleFilesView>::empty(),
            !r.truncated,
    {
        ContentIndex { modules: ModuleTable::new(), truncated: false }
    }

    /// Absorbs a single group subtree fetched via the git trees API by its sha. Those paths are
    /// relative to `learn-pr/<group>` (e.g. `design-governance/includes/7-x.md`), so the group
    /// name is supplied to rebuild the full folder path. Called once per group, the union of all
    /// groups is a complete, untruncated index: each group is under GitHub's cap.
    pub fn add_group_tree(&mut self, group: &str, tree: &GitTree)
        requires
            old(self).wf(),
        ensures
            final(self).wf(),
            final(self).modules@ == grouped_first(
                old(self).modules@,
                group@,
                tree.tree.deep_view(),
                tree.tree@.len(),
            ),
            final(self).truncated == (old(self).truncated || tree.truncated),
    {
        let ghost start = self.modules@;
        let ghost all = tree.tree.deep_view();
        if tree.truncated {
            self.truncated = true;
        }
        let n: usize = tree.tree.len();
        for i in 0..n
            invariant
                n == tree.tree@.len(),
                all == tree.tree.deep_view(),
                self.wf(),
                self.truncated == (old(self).truncated || tree.truncated),
                self.modules@ == grouped_first(start, group@, all, i as nat),
        {
            assert(all[i as int] == tree.tree@[i as int].deep_view());
            let segs = text::split_char(text::chars_of(tree.tree[i].path.as_str()).as_slice(), '/');
            let ghost parts = segs.deep_view();
            if text::same_text(tree.tree[i].kind.as_str(), "blob") && segs.len() >= 2 {
                assert(parts[0] == segs@[0]@);
                let mut folder = "learn-pr/".to_owned();
                folder.append(group);
                folder.append("/");
                folder.append(segs[0].as_str());
                self.modules.absorb(segs[0].as_str(), folder, &segs, 1);
            }
        }
    }
}

// ---------------------------------------------------------------------------
// Looking files up
// ---------------------------------------------------------------------------

/// The first file, from position `from` on, of which `p` holds.
pub open spec fn first_such(
    files: Seq<Seq<char>>,
    p: spec_fn(Seq<char>) -> bool,
    from: int,
) -> Option<Seq<char>>
    decreases files.len() - from,
{
    if from < 0 || from >= files.len() {
        None
    } else if p(files[from]) {
        Some(files[from])
    } else {
        first_such(files, p, from + 1)
    }
}

/// A file is named after a unit's slug, with or without a number in front.
pub open spec fn names_unit(unit_slug: Seq<char>) -> spec_fn(Seq<char>) -> bool {
    |f: Seq<char>|
        f == unit_slug + ".md"@ || text::has_suffix(f, "-"@ + unit_slug + ".md"@)
}

/// A file's name begins with a number.
pub open spec fn numbered(n: nat) -> spec_fn(Seq<char>) -> bool {
    |f: Seq<char>| text::has_prefix(f, text::decimal(n) + "-"@)
}

/// A file holds a knowledge check.
pub open spec fn holds_check() -> spec_fn(Seq<char>) -> bool {
    |f: Seq<char>| text::has_suffix(f, "knowledge-check.yml"@)
}

/// The number that a file's name begins with, read from position `i` on behind digits that stand
/// for `n`; it stays at the largest `u64` once it has grown that far.
pub open spec fn number_from(f: Seq<char>, i: int, n: nat) -> nat
    decreases f.len() - i,
{
    if 0 <= i < f.len() && text::is_digit(f[i]) {
        let next = n * 10 + (f[i] as nat - '0' as nat);
        number_from(
            f,
            i + 1,
            if next <= u64::MAX {
                next as nat
            } else {
                u64::MAX as nat
            },
        )
    } else {
        n
    }
}

/// What a file is ordered by: the number it begins with. A file without a number comes last.
pub open spec fn file_number(f: Seq<char>) -> nat {
    if f.len() > 0 && text::is_digit(f[0]) {
        number_from(f, 0, 0)
    } else {
        u64::MAX as nat
    }
}

/// A file that holds a unit's prose.
pub open spec fn is_content_file(f: Seq<char>) -> bool {
    !text::has_suffix(f, "knowledge-check.md"@)
}

/// `sorted` with `f` behind the files that are not numbered higher.
pub open spec fn inserted(sorted: Seq<Seq<char>>, f: Seq<char>) -> Seq<Seq<char>>
    decreases sorted.len(),
{
    if sorted.len() == 0 || file_number(sorted.last()) <= file_number(f) {
        sorted.push(f)
    } else {
        inserted(sorted.drop_last(), f).push(sorted.last())
    }
}

/// The content files among the first `n`, in number order; those with one number keep their
/// order.
pub open spec fn content_files(files: Seq<Seq<char>>, n: nat) -> Seq<Seq<char>>
    decreases n,
{
    if n == 0 {
        Seq::empty()
    } else {
        let before = content_files(files, (n - 1) as nat);
        if is_content_file(files[n - 1]) {
            inserted(before, files[n - 1])
        } else {
            before
        }
    }
}

/// The content file of a module's `ordinal`th content unit, counted from one, where the module
/// has as many content files as content units.
pub open spec fn ordinal_file(
    files: Seq<Seq<char>>,
    ordinal: nat,
    non_kc_count: nat,
) -> Option<Seq<char>> {
    let content = content_files(files, files.len());
    if content.len() == non_kc_count && 1 <= ordinal <= content.len() {
        Some(content[ordinal - 1])
    } else {
        None
    }
}

fn number_of(f: &[char]) -> (r: u64)
    ensures
        r == file_number(f@),
{
    let n: usize = f.len();
    if n == 0 || !text::digit(f[0]) {
        return u64::MAX;
    }
    let mut v: u64 = 0;
    let mut i: usize = 0;
    while i < n && text::digit(f[i])
        invariant
            n == f@.len(),
            i <= n,
            number_from(f@, 0, 0) == number_from(f@, i as int, v as nat),
        decreases n - i,
    {
        let d: u64 = (f[i] as u64) - ('0' as u64);
        v = match v.checked_mul(10) {
            Some(m) => match m.checked_add(d) {
                Some(s) => s,
                None => u64::MAX,
            },
            None => u64::MAX,
        };
        i += 1;
    }
    v
}

/// The files at the given positions.
spec fn files_at(files: Seq<Seq<char>>, at: Seq<usize>) -> Seq<Seq<char>> {
    Seq::new(at.len(), |k: int| files[at[k] as int])
}

proof fn lemma_inserted_at(sorted: Seq<Seq<char>>, f: Seq<char>, k: int)
    requires
        0 <= k <= sorted.len(),
        k > 0 ==> file_number(sorted[k - 1]) <= file_number(f),
        forall|j: int| k <= j < sorted.len() ==> file_number(#[trigger] sorted[j]) > file_number(f),
    ensures
        inserted(sorted, f) == sorted.insert(k, f),
    decreases sorted.len(),
{
    if k == sorted.len() {
        assert(sorted.insert(k, f) =~= sorted.push(f));
    } else {
        assert(file_number(sorted[sorted.len() - 1]) > file_number(f));
        lemma_inserted_at(sorted.drop_last(), f, k);
        assert(sorted.insert(k, f) =~= sorted.drop_last().insert(k, f).push(sorted.last()));
    }
}

impl ModuleFiles {
    fn content_order(&self) -> (r: Vec<usize>)
        ensures
            files_at(self.includes.deep_view(), r@) == content_files(
                self.includes.deep_view(),
                self.includes@.len(),
            ),
            forall|k: int| 0 <= k < r@.len() ==> #[trigger] r@[k] < self.includes@.len(),
    {
        let ghost all = self.includes.deep_view();
        let n: usize = self.includes.len();
        let mut at: Vec<usize> = Vec::new();
        assert(files_at(all, at@) =~= Seq::<Seq<char>>::empty());
        for i in 0..n
            invariant
                n == self.includes@.len(),
                all == self.includes.deep_view(),
                files_at(all, at@) == content_files(all, i as nat),
                forall|k: int| 0 <= k < at@.len() ==> #[trigger] at@[k] < n,
        {
            assert(all[i as int] == self.includes@[i as int]@);
            let f = text::chars_of(self.includes[i].as_str());
            if !text::ends_with(f.as_slice(), "knowledge-check.md") {
                let num: u64 = number_of(f.as_slice());
                let ghost sorted = files_at(all, at@);
                let mut k: usize = at.len();
                let mut placed = false;
                while k > 0 && !placed
                    invariant
                        n == self.includes@.len(),
                        all == self.includes.deep_view(),
                        sorted == files_at(all, at@),
                        k <= at@.len(),
                        num == file_number(f@),
                        forall|j: int| 0 <= j < at@.len() ==> #[trigger] at@[j] < n,
                        placed ==> k > 0 && file_number(sorted[k - 1]) <= num,
                        forall|j: int|
                            k <= j < sorted.len() ==> file_number(#[trigger] sorted[j]) > num,
                    decreases k, if placed { 0int } else { 1int },
                {
                    let j: usize = at[k - 1];
                    assert(sorted[k - 1] == all[j as int]);
                    assert(all[j as int] == self.includes@[j as int]@);
                    if number_of(text::chars_of(self.includes[j].as_str()).as_slice()) <= num {
                        placed = true;
                    } else {
                        k -= 1;
                    }
                }
                proof {
                    lemma_inserted_at(sorted, f@, k as int);
                }
                let ghost before = at@;
                at.insert(k, i);
                assert(files_at(all, at@) =~= sorted.insert(k as int, f@));
                assert forall|m: int| 0 <= m < at@.len() implies #[trigger] at@[m] < n by {
                    if m < k {
                        assert(at@[m] == before[m]);
                    } else if m > k {
                        assert(at@[m] == before[m - 1]);
                    }
                }
            }
        }
        at
    }
}

/// The file that `p` picks among a module's includes.
pub open spec fn include_such(
    m: Map<Seq<char>, ModuleFilesView>,
    module_slug: Seq<char>,
    p: spec_fn(Seq<char>) -> bool,
) -> Option<Seq<char>> {
    if m.dom().contains(module_slug) {
        first_such(m[module_slug].includes, p, 0)
    } else {
        None
    }
}

/// The raw URL of a module's folder.
pub open spec fn raw_base(
    m: Map<Seq<char>, ModuleFilesView>,
    module_slug: Seq<char>,
) -> Option<Seq<char>> {
    if m.dom().contains(module_slug) {
        Some(LEARN_RAW_BASE@ + "/"@ + m[module_slug].folder)
    } else {
        None
    }
}

/// The raw URL of a unit's markdown.
pub open spec fn markdown_url(
    m: Map<Seq<char>, ModuleFilesView>,
    module_slug: Seq<char>,
    unit_slug: Seq<char>,
) -> Option<Seq<char>> {
    match include_such(m, module_slug, names_unit(unit_slug)) {
        Some(file) => Some(
            LEARN_RAW_BASE@ + "/"@ + m[module_slug].folder + "/includes/"@ + file,
        ),
        None => None,
    }
}

/// The name of a module's knowledge-check file.
pub open spec fn check_file(
    m: Map<Seq<char>, ModuleFilesView>,
    module_slug: Seq<char>,
) -> Option<Seq<char>> {
    if m.dom().contains(module_slug) {
        first_such(m[module_slug].units_yml, holds_check(), 0)
    } else {
        None
    }
}

impl ContentIndex {
    /// The markdown file name of a unit (number-prefixed, e.g. `7-design-for-azure-policy.md`),
    /// matched by slug suffix.
    pub fn unit_include_file<'a>(&'a self, module_slug: &str, unit_slug: &str) -> (r: Option<
        &'a str,
    >)
        ensures
            r.deep_view() == include_such(self.modules@, module_slug@, names_unit(unit_slug@)),
    {
        let m = match self.modules.get(module_slug) {
            Some(m) => m,
            None => {
                return None;
            },
        };
        let mut exact = unit_slug.to_owned();
        exact.append(".md");
        let mut suffixed = "-".to_owned();
        suffixed.append(unit_slug);
        suffixed.append(".md");
        let ghost all = m.includes.deep_view();
        let n: usize = m.includes.len();
        for i in 0..n
            invariant
                n == m.includes@.len(),
                all == m.includes.deep_view(),
                self.modules@.dom().contains(module_slug@),
                self.modules@[module_slug@] == m.deep_view(),
                exact@ == unit_slug@ + ".md"@,
                suffixed@ == "-"@ + unit_slug@ + ".md"@,
                first_such(all, names_unit(unit_slug@), 0) == first_such(
                    all,
                    names_unit(unit_slug@),
                    i as int,
                ),
        {
            assert(all[i as int] == m.includes@[i as int]@);
            let f = m.includes[i].as_str();
            if text::same_text(f, exact.as_str()) || text::ends_with(
                text::chars_of(f).as_slice(),
                suffixed.as_str(),
            ) {
                return Some(f);
            }
        }
        None
    }

    /// Markdown file whose numeric prefix is `n` (e.g. 9 for `9-...md`). Some units have a uid
    /// slug that differs from the file slug (e.g. `design-for-azure-landing-zones` and
    /// `9-design-for-landing-zones`); the catalog unit order matches the file numbering, so the
    /// position, counted from one, recovers those.
    pub fn unit_include_file_by_number<'a>(&'a self, module_slug: &str, n: usize) -> (r: Option<
        &'a str,
    >)
        ensures
            r.deep_view() == include_such(self.modules@, module_slug@, numbered(n as nat)),
    {
        let m = match self.modules.get(module_slug) {
            Some(m) => m,
            None => {
                return None;
            },
        };
        let mut prefix = text::decimal_text(n as u64);
        prefix.append("-");
        let ghost all = m.includes.deep_view();
        let count: usize = m.includes.len();
        for i in 0..count
            invariant
                count == m.includes@.len(),
                all == m.includes.deep_view(),
                self.modules@.dom().contains(module_slug@),
                self.modules@[module_slug@] == m.deep_view(),
                prefix@ == text::decimal(n as nat) + "-"@,
                first_such(all, numbered(n as nat), 0) == first_such(
                    all,
                    numbered(n as nat),
                    i as int,
                ),
        {
            assert(all[i as int] == m.includes@[i as int]@);
            let f = m.includes[i].as_str();
            if text::starts_with(text::chars_of(f).as_slice(), prefix.as_str()) {
                return Some(f);
            }
        }
        None
    }

    /// Markdown file of a module's `content_ordinal`th unit that is no knowledge check, counted
    /// from one: the content file at that place in number order. It survives numbering gaps and
    /// generic file names. Only where the module has as many content files as such units.
    pub fn unit_include_file_by_ordinal<'a>(
        &'a self,
        module_slug: &str,
        content_ordinal: usize,
        non_kc_count: usize,
    ) -> (r: Option<&'a str>)
        ensures
            r.deep_view() == (if self.modules@.dom().contains(module_slug@) {
                ordinal_file(
                    self.modules@[module_slug@].includes,
                    content_ordinal as nat,
                    non_kc_count as nat,
                )
            } else {
                None
            }),
    {
        let m = match self.modules.get(module_slug) {
            Some(m) => m,
            None => {
                return None;
            },
        };
        let at = m.content_order();
        if at.len() != non_kc_count || content_ordinal < 1 || content_ordinal > at.len() {
            return None;
        }
        let j: usize = at[content_ordinal - 1];
        assert(files_at(m.includes.deep_view(), at@)[content_ordinal - 1] == m.includes@[j as int]@);
        Some(m.includes[j].as_str())
    }

    /// Resolves the raw URL of a unit's prose markdown.
    pub fn unit_markdown_url(&self, module_slug: &str, unit_slug: &str) -> (r: Option<String>)
        ensures
            r.deep_view() == markdown_url(self.modules@, module_slug@, unit_slug@),
    {
        let m = match self.modules.get(module_slug) {
            Some(m) => m,
            None => {
                return None;
            },
        };
        match self.unit_include_file(module_slug, unit_slug) {
            Some(file) => {
                let mut url = LEARN_RAW_BASE.to_owned();
                url.append("/");
                url.append(m.folder.as_str());
                url.append("/includes/");
                url.append(file);
                Some(url)
            },
            None => None,
        }
    }

    /// Absolute raw URL of the module folder (base for `media/...` and the knowledge check).
    pub fn module_raw_base(&self, module_slug: &str) -> (r: Option<String>)
        ensures
            r.deep_view() == raw_base(self.modules@, module_slug@),
    {
        match self.modules.get(module_slug) {
            Some(m) => {
                let mut url = LEARN_RAW_BASE.to_owned();
                url.append("/");
                url.append(m.folder.as_str());
                Some(url)
            },
            None => None,
        }
    }

    /// The knowledge-check yaml file name for a module, if any.
    pub fn knowledge_check_yml<'a>(&'a self, module_slug: &str) -> (r: Option<&'a str>)
        ensures
            r.deep_view() == check_file(self.modules@, module_slug@),
    {
        let m = match self.modules.get(module_slug) {
            Some(m) => m,
            None => {
                return None;
            },
        };
        let ghost all = m.units_yml.deep_view();
        let n: usize = m.units_yml.len();
        for i in 0..n
            invariant
                n == m.units_yml@.len(),
                all == m.units_yml.deep_view(),
                self.modules@.dom().contains(module_slug@),
                self.modules@[module_slug@] == m.deep_view(),
                first_such(all, holds_check(), 0) == first_such(all, holds_check(), i as int),
        {
            assert(all[i as int] == m.units_yml@[i as int]@);
            let f = m.units_yml[i].as_str();
            if text::ends_with(text::chars_of(f).as_slice(), "knowledge-check.yml") {
                return Some(f);
            }
        }
        None
    }
}

// ---------------------------------------------------------------------------
// Slugs
// ---------------------------------------------------------------------------

/// The slug of a module's page.
pub open spec fn module_slug(url: Seq<char>) -> Option<Seq<char>> {
    input::segment_after(input::segments(url), "modules"@, 0)
}

/// The module slug from a catalog module URL (`.../training/modules/<slug>/...`).
pub fn module_slug_from_url(url: &str) -> (r: Option<String>)
    ensures
        r.deep_view() == module_slug(url@),
{
    let segs = input::url_segments(text::chars_of(url).as_slice());
    input::following_segment(&segs, "modules")
}

/// The unit slug (last dotted segment) of a unit uid.
pub fn unit_slug_from_uid(uid: &str) -> (r: String)
    ensures
        r@ == text::after_last(uid@, '.'),
{
    text::text_of(text::after_last_char(text::chars_of(uid).as_slice(), '.'))
}

/// The raw URL of a unit's markdown, or what to say where it has none.
pub open spec fn unit_source_url(
    m: Map<Seq<char>, ModuleFilesView>,
    module_slug: Seq<char>,
    unit_uid: Seq<char>,
) -> Result<Seq<char>, ResolveErrorView> {
    match markdown_url(m, module_slug, text::after_last(unit_uid, '.')) {
        Some(url) => Ok(url),
        None => Err(
            ResolveErrorView::BadInput(
                "no markdown found for unit "@ + unit_uid + " in module '"@ + module_slug + "'"@,
            ),
        ),
    }
}

/// Resolves a unit uid to the URL of its markdown.
pub fn unit_markdown_source(index: &ContentIndex, module_slug: &str, unit_uid: &str) -> (r: Result<
    String,
    ResolveError,
>)
    ensures
        error::outcome(r) == unit_source_url(index.modules@, module_slug@, unit_uid@),
{
    let slug = unit_slug_from_uid(unit_uid);
    match index.unit_markdown_url(module_slug, slug.as_str()) {
        Some(url) => Ok(url),
        None => {
            let mut m = "no markdown found for unit ".to_owned();
            m.append(unit_uid);
            m.append(" in module '");
            m.append(module_slug);
            m.append("'");
            Err(ResolveError::BadInput(m))
        },
    }
}

// ---------------------------------------------------------------------------
// Laws
// ---------------------------------------------------------------------------

/// An entry of a group's tree as the tree of the whole repository lists it.
pub open spec fn full_entry(group: Seq<char>, e: GitEntryView) -> GitEntryView {
    GitEntryView { path: "learn-pr/"@ + group + "/"@ + e.path, kind: e.kind }
}

/// The entries of a group's tree as the tree of the whole repository lists them.
pub open spec fn full_tree(group: Seq<char>, tree: Seq<GitEntryView>) -> Seq<GitEntryView> {
    Seq::new(tree.len(), |i: int| full_entry(group, tree[i]))
}

proof fn lemma_full_path_segments(group: Seq<char>, path: Seq<char>)
    requires
        !group.contains('/'),
    ensures
        text::split("learn-pr/"@ + group + "/"@ + path, '/') == seq!["learn-pr"@, group]
            + text::split(path, '/'),
{
    reveal_strlit("learn-pr/");
    reveal_strlit("learn-pr");
    reveal_strlit("/");
    let top = "learn-pr"@;
    assert("learn-pr/"@ =~= top.push('/'));
    assert("learn-pr/"@ + group + "/"@ + path =~= top.push('/') + (group.push('/') + path));
    text::lemma_split_cat(top, '/', group.push('/') + path);
    text::lemma_split_cat(group, '/', path);
    assert(!top.contains('/')) by {
        if top.contains('/') {
            let i = choose|i: int| 0 <= i < top.len() && top[i] == '/';
            assert(top[i] == '/');
        }
    }
    text::lemma_split_one(top, '/');
    text::lemma_split_one(group, '/');
    assert(text::split(top, '/') + (text::split(group, '/') + text::split(path, '/')) =~= seq![
        top,
        group,
    ] + text::split(path, '/'));
}

proof fn lemma_indexed_prefix(a: Seq<GitEntryView>, b: Seq<GitEntryView>, n: nat)
    requires
        n <= a.len(),
    ensures
        indexed_first(a + b, n) == indexed_first(a, n),
    decreases n,
{
    if n > 0 {
        lemma_indexed_prefix(a, b, (n - 1) as nat);
        assert((a + b)[n - 1] == a[n - 1]);
    }
}

/// Indexing the repository group by group gives what indexing it whole gives: absorbing a
/// group's tree has the effect of having listed the group's files, under their full paths, in
/// the tree of the whole repository.
pub proof fn law_groups_make_the_whole(
    listed: Seq<GitEntryView>,
    group: Seq<char>,
    tree: Seq<GitEntryView>,
)
    requires
        !group.contains('/'),
    ensures
        grouped_first(indexed_first(listed, listed.len()), group, tree, tree.len())
            == indexed_first(
            listed + full_tree(group, tree),
            (listed + full_tree(group, tree)).len(),
        ),
{
    lemma_groups_make_the_whole(listed, group, tree, tree.len());
}

proof fn lemma_groups_make_the_whole(
    listed: Seq<GitEntryView>,
    group: Seq<char>,
    tree: Seq<GitEntryView>,
    n: nat,
)
    requires
        !group.contains('/'),
        n <= tree.len(),
    ensures
        grouped_first(indexed_first(listed, listed.len()), group, tree, n) == indexed_first(
            listed + full_tree(group, tree),
            listed.len() + n,
        ),
    decreases n,
{
    let whole = listed + full_tree(group, tree);
    if n == 0 {
        lemma_indexed_prefix(listed, full_tree(group, tree), listed.len());
    } else {
        lemma_groups_make_the_whole(listed, group, tree, (n - 1) as nat);
        let e = tree[n - 1];
        assert(whole[listed.len() + n - 1] == full_entry(group, e));
        lemma_full_path_segments(group, e.path);
        text::lemma_split_len(e.path, '/');
        let short = text::split(e.path, '/');
        let long = seq!["learn-pr"@, group] + short;
        assert(long.skip(3) =~= short.skip(1));
        reveal_strlit("learn-pr/");
        reveal_strlit("learn-pr");
        reveal_strlit("/");
        assert("learn-pr"@ + "/"@ =~= "learn-pr/"@);
    }
}

/// The file that a lookup gives is the first one that fits, and it gives one whenever one fits.
pub proof fn law_first_such(
    files: Seq<Seq<char>>,
    p: spec_fn(Seq<char>) -> bool,
    from: int,
)
    requires
        0 <= from,
    ensures
        match first_such(files, p, from) {
            Some(f) => p(f) && exists|i: int|
                from <= i < files.len() && files[i] == f && (forall|j: int|
                    from <= j < i ==> !p(#[trigger] files[j])),
            None => forall|j: int| from <= j < files.len() ==> !p(#[trigger] files[j]),
        },
    decreases files.len() - from,
{
    if from < files.len() {
        if p(files[from]) {
            assert(files[from] == files[from]);
        } else {
            law_first_such(files, p, from + 1);
        }
    }
}

/// The content files of a module are its files that hold prose, each as often as it occurs, in
/// number order.
pub proof fn law_content_files(files: Seq<Seq<char>>, n: nat)
    requires
        n <= files.len(),
    ensures
        content_files(files, n).to_multiset() == files.take(n as int).filter(
            |f: Seq<char>| is_content_file(f),
        ).to_multiset(),
        forall|i: int, j: int|
            0 <= i <= j < content_files(files, n).len() ==> file_number(
                #[trigger] content_files(files, n)[i],
            ) <= file_number(#[trigger] content_files(files, n)[j]),
    decreases n,
{
    let keep = |f: Seq<char>| is_content_file(f);
    broadcast use vstd::seq_lib::group_to_multiset_ensures;

    if n == 0 {
        assert(files.take(0) =~= Seq::<Seq<char>>::empty());
        reveal(Seq::filter);
        assert(files.take(0).filter(keep) =~= Seq::<Seq<char>>::empty());
    } else {
        law_content_files(files, (n - 1) as nat);
        let before = content_files(files, (n - 1) as nat);
        let f = files[n - 1];
        let t = files.take(n as int);
        assert(t.drop_last() =~= files.take(n - 1));
        assert(t.last() == f);
        reveal(Seq::filter);
        if is_content_file(f) {
            lemma_inserted(before, f);
        }
    }
}

proof fn lemma_inserted(sorted: Seq<Seq<char>>, f: Seq<char>)
    requires
        forall|i: int, j: int|
            0 <= i <= j < sorted.len() ==> file_number(#[trigger] sorted[i]) <= file_number(
                #[trigger] sorted[j],
            ),
    ensures
        inserted(sorted, f).to_multiset() == sorted.push(f).to_multiset(),
        forall|i: int, j: int|
            0 <= i <= j < inserted(sorted, f).len() ==> file_number(
                #[trigger] inserted(sorted, f)[i],
            ) <= file_number(#[trigger] inserted(sorted, f)[j]),
    decreases sorted.len(),
{
    broadcast use vstd::seq_lib::group_to_multiset_ensures;

    if !(sorted.len() == 0 || file_number(sorted.last()) <= file_number(f)) {
        let front = sorted.drop_last();
        lemma_inserted(front, f);
        let r = inserted(front, f);
        assert(sorted =~= front.push(sorted.last()));
        assert(inserted(sorted, f).to_multiset() =~= sorted.push(f).to_multiset());
        assert forall|i: int| 0 <= i < r.len() implies file_number(#[trigger] r[i]) <= file_number(
            sorted.last(),
        ) by {
            assert(r.to_multiset().count(r[i]) > 0);
            assert(front.push(f).to_multiset().count(r[i]) > 0);
            assert(front.push(f).contains(r[i]));
            let k = choose|k: int| 0 <= k < front.push(f).len() && front.push(f)[k] == r[i];
            if k < front.len() {
                assert(sorted[k] == r[i]);
                assert(file_number(sorted[k]) <= file_number(sorted[sorted.len() - 1]));
            }
        }
    }
}

/// The entry lists a file `name` among the includes of the module `slug` of some group.
pub open spec fn lists_include(e: GitEntryView, slug: Seq<char>, name: Seq<char>) -> bool {
    &&& e.kind == "blob"@
    &&& exists|group: Seq<char>| #[trigger]
        text::split(e.path, '/') == seq!["learn-pr"@, group, slug, "includes"@, name]
    &&& text::has_suffix(name, ".md"@)
}

/// The entry lists a file `name` directly in the folder of the module `slug` of some group.
pub open spec fn lists_yml(e: GitEntryView, slug: Seq<char>, name: Seq<char>) -> bool {
    &&& e.kind == "blob"@
    &&& exists|group: Seq<char>| #[trigger]
        text::split(e.path, '/') == seq!["learn-pr"@, group, slug, name]
    &&& text::has_suffix(name, ".yml"@)
}

proof fn lemma_with_file(files: ModuleFilesView, rest: Seq<Seq<char>>)
    ensures
        with_file(files, rest).folder == files.folder,
        files.includes.is_prefix_of(with_file(files, rest).includes),
        files.units_yml.is_prefix_of(with_file(files, rest).units_yml),
{
}

/// Indexing more of a tree loses nothing: a module keeps its folder and its files, and new files
/// are added behind them.
pub proof fn law_the_index_grows(tree: Seq<GitEntryView>, n: nat, m: nat, slug: Seq<char>)
    requires
        n <= m <= tree.len(),
        indexed_first(tree, n).dom().contains(slug),
    ensures
        indexed_first(tree, m).dom().contains(slug),
        indexed_first(tree, m)[slug].folder == indexed_first(tree, n)[slug].folder,
        indexed_first(tree, n)[slug].includes.is_prefix_of(indexed_first(tree, m)[slug].includes),
        indexed_first(tree, n)[slug].units_yml.is_prefix_of(indexed_first(tree, m)[slug].units_yml),
    decreases m,
{
    if n < m {
        law_the_index_grows(tree, n, (m - 1) as nat, slug);
        let before = indexed_first(tree, (m - 1) as nat);
        let segs = text::split(tree[m - 1].path, '/');
        if before.dom().contains(segs[2]) {
            lemma_with_file(before[segs[2]], segs.skip(3));
        }
    }
}

proof fn lemma_prefix_contains(a: Seq<Seq<char>>, b: Seq<Seq<char>>, x: Seq<char>)
    requires
        a.is_prefix_of(b),
        a.contains(x),
    ensures
        b.contains(x),
{
    let i = choose|i: int| 0 <= i < a.len() && a[i] == x;
    assert(b[i] == x);
}

/// Every unit file of the repository is in the index, under its module: the markdown among the
/// includes, and what stands directly in the module's folder beside it.
pub proof fn law_every_file_is_indexed(
    tree: Seq<GitEntryView>,
    i: int,
    slug: Seq<char>,
    name: Seq<char>,
)
    requires
        0 <= i < tree.len(),
    ensures
        lists_include(tree[i], slug, name) ==> indexed_first(tree, tree.len()).dom().contains(slug)
            && indexed_first(tree, tree.len())[slug].includes.contains(name),
        lists_yml(tree[i], slug, name) ==> indexed_first(tree, tree.len()).dom().contains(slug)
            && indexed_first(tree, tree.len())[slug].units_yml.contains(name),
{
    let e = tree[i];
    let now = indexed_first(tree, (i + 1) as nat);
    let before = indexed_first(tree, i as nat);
    let segs = text::split(e.path, '/');
    let files = if before.dom().contains(slug) {
        before[slug]
    } else {
        no_files(segs[0] + "/"@ + segs[1] + "/"@ + segs[2])
    };
    if lists_include(e, slug, name) {
        let rest = segs.skip(3);
        assert(rest =~= seq!["includes"@, name]);
        let w = with_file(files, rest);
        assert(w.includes[files.includes.len() as int] == name);
        assert(now[slug] == w);
        law_the_index_grows(tree, (i + 1) as nat, tree.len(), slug);
        lemma_prefix_contains(w.includes, indexed_first(tree, tree.len())[slug].includes, name);
    }
    if lists_yml(e, slug, name) {
        let rest = segs.skip(3);
        assert(rest =~= seq![name]);
        let w = with_file(files, rest);
        assert(w.units_yml[files.units_yml.len() as int] == name);
        assert(now[slug] == w);
        law_the_index_grows(tree, (i + 1) as nat, tree.len(), slug);
        lemma_prefix_contains(w.units_yml, indexed_first(tree, tree.len())[slug].units_yml, name);
    }
}

/// The index holds nothing but the unit files of the repository.
pub proof fn law_nothing_else_is_indexed(
    tree: Seq<GitEntryView>,
    n: nat,
    slug: Seq<char>,
    name: Seq<char>,
)
    requires
        n <= tree.len(),
        indexed_first(tree, n).dom().contains(slug),
    ensures
        indexed_first(tree, n)[slug].includes.contains(name) ==> exists|i: int|
            0 <= i < n && lists_include(#[trigger] tree[i], slug, name),
        indexed_first(tree, n)[slug].units_yml.contains(name) ==> exists|i: int|
            0 <= i < n && lists_yml(#[trigger] tree[i], slug, name),
        exists|i: int|
            0 <= i < n && (#[trigger] tree[i]).kind == "blob"@ && text::split(
                tree[i].path,
                '/',
            ).len() >= 4 && text::split(tree[i].path, '/')[2] == slug
                && indexed_first(tree, n)[slug].folder == "learn-pr/"@ + text::split(
                tree[i].path,
                '/',
            )[1] + "/"@ + slug,
    decreases n,
{
    if n > 0 {
        let k = (n - 1) as nat;
        let e = tree[n - 1];
        let before = indexed_first(tree, k);
        let now = indexed_first(tree, n);
        let segs = text::split(e.path, '/');
        if before.dom().contains(slug) {
            law_nothing_else_is_indexed(tree, k, slug, name);
        }
        if now != before && segs[2] == slug {
            let rest = segs.skip(3);
            let files = if before.dom().contains(slug) {
                before[slug]
            } else {
                no_files(segs[0] + "/"@ + segs[1] + "/"@ + segs[2])
            };
            reveal_strlit("learn-pr");
            reveal_strlit("learn-pr/");
            reveal_strlit("/");
            assert("learn-pr"@ + "/"@ =~= "learn-pr/"@);
            assert(tree[n - 1] == e);
            let w = with_file(files, rest);
            if w.includes.contains(name) && !files.includes.contains(name) {
                let j = choose|j: int| 0 <= j < w.includes.len() && w.includes[j] == name;
                if j < files.includes.len() {
                    assert(files.includes[j] == name);
                }
                assert(rest[0] == segs[3] && rest[1] == segs[4]);
                assert(segs =~= seq!["learn-pr"@, segs[1], slug, "includes"@, name]);
                assert(lists_include(tree[n - 1], slug, name));
            }
            if w.units_yml.contains(name) && !files.units_yml.contains(name) {
                let j = choose|j: int| 0 <= j < w.units_yml.len() && w.units_yml[j] == name;
                if j < files.units_yml.len() {
                    assert(files.units_yml[j] == name);
                }
                assert(rest[0] == segs[3]);
                assert(segs =~= seq!["learn-pr"@, segs[1], slug, name]);
                assert(lists_yml(tree[n - 1], slug, name));
            }
        }
    }
}

/// The raw address of a module is that of its folder in the repository, and its unit files are
/// below it.
pub proof fn law_raw_addresses(
    m: Map<Seq<char>, ModuleFilesView>,
    module_slug: Seq<char>,
    unit_slug: Seq<char>,
)
    requires
        m.dom().contains(module_slug),
    ensures
        raw_base(m, module_slug) == Some(
            "https://raw.githubusercontent.com/MicrosoftDocs/learn/main/"@ + m[module_slug].folder,
        ),
        match markdown_url(m, module_slug, unit_slug) {
            Some(url) => exists|f: Seq<char>|
                m[module_slug].includes.contains(f) && (f == unit_slug + ".md"@ || text::has_suffix(
                    f,
                    "-"@ + unit_slug + ".md"@,
                )) && url == #[trigger] (raw_base(m, module_slug)->Some_0 + "/includes/"@ + f),
            None => forall|f: Seq<char>| #[trigger]
                m[module_slug].includes.contains(f) ==> f != unit_slug + ".md"@
                    && !text::has_suffix(f, "-"@ + unit_slug + ".md"@),
        },
{
    reveal_strlit("https://raw.githubusercontent.com/MicrosoftDocs/learn/main");
    reveal_strlit("https://raw.githubusercontent.com/MicrosoftDocs/learn/main/");
    reveal_strlit("/");
    assert(LEARN_RAW_BASE@ + "/"@ =~= "https://raw.githubusercontent.com/MicrosoftDocs/learn/main/"@);
    let files = m[module_slug].includes;
    let p = names_unit(unit_slug);
    law_first_such(files, p, 0);
    match first_such(files, p, 0) {
        Some(f) => {
            let i = choose|i: int|
                0 <= i < files.len() && files[i] == f && (forall|j: int|
                    0 <= j < i ==> !p(#[trigger] files[j]));
            assert(files.contains(f));
            assert(markdown_url(m, module_slug, unit_slug) == Some(
                raw_base(m, module_slug)->Some_0 + "/includes/"@ + f,
            ));
        },
        None => {
            assert forall|f: Seq<char>| #[trigger] files.contains(f) implies f != unit_slug
                + ".md"@ && !text::has_suffix(f, "-"@ + unit_slug + ".md"@) by {
                let j = choose|j: int| 0 <= j < files.len() && files[j] == f;
                assert(!p(files[j]));
            }
        },
    }
}

/// A module's knowledge check is one of the files directly in its folder, named after what it is;
/// there is one wherever such a file is.
pub proof fn law_knowledge_check_file(m: Map<Seq<char>, ModuleFilesView>, module_slug: Seq<char>)
    requires
        m.dom().contains(module_slug),
    ensures
        match check_file(m, module_slug) {
            Some(f) => m[module_slug].units_yml.contains(f) && text::has_suffix(
                f,
                "knowledge-check.yml"@,
            ),
            None => forall|f: Seq<char>| #[trigger]
                m[module_slug].units_yml.contains(f) ==> !text::has_suffix(
                    f,
                    "knowledge-check.yml"@,
                ),
        },
{
    let files = m[module_slug].units_yml;
    let p = holds_check();
    law_first_such(files, p, 0);
    match first_such(files, p, 0) {
        Some(f) => {
            let i = choose|i: int|
                0 <= i < files.len() && files[i] == f && (forall|j: int|
                    0 <= j < i ==> !p(#[trigger] files[j]));
            assert(files.contains(f));
        },
        None => {
            assert forall|f: Seq<char>| #[trigger] files.contains(f) implies !text::has_suffix(
                f,
                "knowledge-check.yml"@,
            ) by {
                let j = choose|j: int| 0 <= j < files.len() && files[j] == f;
                assert(!p(files[j]));
            }
        },
    }
}

/// The groups of the repository are its folders, in their order: each that has a name and an
/// address, and nothing else.
pub proof fn law_groups_are_the_folders(entries: Seq<FolderEntryView>, n: nat, g: GroupView)
    requires
        n <= entries.len(),
    ensures
        groups_first(entries, n).contains(g) <==> exists|i: int|
            0 <= i < n && (#[trigger] entries[i]).kind == Some("tree"@) && entries[i].path == Some(
                g.name,
            ) && entries[i].sha == Some(g.sha),
    decreases n,
{
    if n > 0 {
        law_groups_are_the_folders(entries, (n - 1) as nat, g);
        let before = groups_first(entries, (n - 1) as nat);
        let now = groups_first(entries, n);
        let e = entries[n - 1];
        if before.contains(g) {
            let i = choose|i: int| 0 <= i < before.len() && before[i] == g;
            assert(now[i] == g);
        }
        if now.contains(g) && !before.contains(g) {
            let i = choose|i: int| 0 <= i < now.len() && now[i] == g;
            if i < before.len() {
                assert(before[i] == g);
            }
            assert(entries[n - 1].kind == Some("tree"@));
        }
        if e.kind == Some("tree"@) && e.path == Some(g.name) && e.sha == Some(g.sha) {
            assert(now[before.len() as int] == g);
        }
    }
}

/// The address of a folder is that of the first entry with its name.
pub proof fn law_address_of_a_folder(
    entries: Seq<FolderEntryView>,
    path: Seq<char>,
    from: int,
    i: int,
)
    requires
        0 <= from <= i < entries.len(),
        entries[i].path == Some(path),
        forall|j: int| from <= j < i ==> (#[trigger] entries[j]).path != Some(path),
    ensures
        sha_of(entries, path, from) == entries[i].sha,
    decreases i - from,
{
    if from < i {
        law_address_of_a_folder(entries, path, from + 1, i);
    }
}

/// A unit's file is found by its slug whatever number stands in front of it, and by its number
/// whatever its name.
pub proof fn law_file_names(n: nat, slug: Seq<char>, rest: Seq<char>)
    ensures
        names_unit(slug)(text::decimal(n) + "-"@ + slug + ".md"@),
        names_unit(slug)(slug + ".md"@),
        numbered(n)(text::decimal(n) + "-"@ + rest),
        holds_check()(text::decimal(n) + "-knowledge-check.yml"@),
        !is_content_file(text::decimal(n) + "-knowledge-check.md"@),
{
    let d = text::decimal(n);
    let f = d + "-"@ + slug + ".md"@;
    let tail = "-"@ + slug + ".md"@;
    assert(f =~= d + tail);
    text::lemma_ends(d, tail);
    text::lemma_ends(d + "-"@, rest);
    reveal_strlit("-knowledge-check.yml");
    reveal_strlit("knowledge-check.yml");
    reveal_strlit("-knowledge-check.md");
    reveal_strlit("knowledge-check.md");
    reveal_strlit("-");
    let y = d + "-knowledge-check.yml"@;
    let z = d + "-knowledge-check.md"@;
    assert(y =~= d + "-"@ + "knowledge-check.yml"@);
    assert(z =~= d + "-"@ + "knowledge-check.md"@);
    text::lemma_ends(d + "-"@, "knowledge-check.yml"@);
    text::lemma_ends(d + "-"@, "knowledge-check.md"@);
}

proof fn lemma_value_monotonic(s: Seq<char>, i: int)
    requires
        text::all_digits(s),
        0 <= i <= s.len(),
    ensures
        text::value_of(s.take(i)) <= text::value_of(s),
    decreases s.len() - i,
{
    if i < s.len() {
        lemma_value_monotonic(s, i + 1);
        let t = s.take(i + 1);
        assert(t.drop_last() =~= s.take(i));
        assert(text::is_digit(s[i]));
    } else {
        assert(s.take(i) =~= s);
    }
}

proof fn lemma_number_from(s: Seq<char>, rest: Seq<char>, i: int)
    requires
        text::all_digits(s),
        rest.len() > 0 ==> !text::is_digit(rest[0]),
        text::value_of(s) <= u64::MAX,
        0 <= i <= s.len(),
    ensures
        number_from(s + rest, i, text::value_of(s.take(i))) == text::value_of(s),
    decreases s.len() - i,
{
    let f = s + rest;
    if i < s.len() {
        assert(f[i] == s[i]);
        assert(text::is_digit(s[i]));
        let t = s.take(i + 1);
        assert(t.drop_last() =~= s.take(i));
        assert(t.last() == s[i]);
        lemma_value_monotonic(s, i + 1);
        lemma_number_from(s, rest, i + 1);
    } else {
        assert(s.take(i) =~= s);
        if f.len() > i {
            assert(f[i] == rest[0]);
        }
    }
}

/// Files are ordered by the number that their name begins with.
pub proof fn law_number_of_a_file(n: nat, rest: Seq<char>)
    requires
        n <= u64::MAX,
        rest.len() > 0 ==> !text::is_digit(rest[0]),
    ensures
        file_number(text::decimal(n) + rest) == n,
{
    text::lemma_decimal(n);
    let d = text::decimal(n);
    assert(text::is_digit(d[0]));
    assert((d + rest)[0] == d[0]);
    assert(d.take(0) =~= Seq::<char>::empty());
    lemma_number_from(d, rest, 0);
}

/// Where a module has as many content files as content units, each unit has a file of its own: the
/// files are taken in number order, from the first to the last.
pub proof fn law_files_by_place(files: Seq<Seq<char>>, i: nat, j: nat)
    requires
        1 <= i <= j <= content_files(files, files.len()).len(),
    ensures
        ({
            let n = content_files(files, files.len()).len();
            &&& ordinal_file(files, i, n) is Some
            &&& ordinal_file(files, j, n) is Some
            &&& file_number(ordinal_file(files, i, n)->Some_0) <= file_number(
                ordinal_file(files, j, n)->Some_0,
            )
            &&& ordinal_file(files, 1, n) == Some(content_files(files, files.len())[0])
            &&& ordinal_file(files, n, n) == Some(content_files(files, files.len())[n - 1])
            &&& ordinal_file(files, i, n + 1) is None
            &&& ordinal_file(files, 0, n) is None
        }),
{
    law_content_files(files, files.len());
    let c = content_files(files, files.len());
    assert(file_number(c[i - 1]) <= file_number(c[j - 1]));
}

/// The markdown of a unit is that of the name behind the last dot of its uid.
pub proof fn law_markdown_of_a_unit(
    m: Map<Seq<char>, ModuleFilesView>,
    module_slug: Seq<char>,
    prefix: Seq<char>,
    name: Seq<char>,
)
    requires
        !name.contains('.'),
    ensures
        unit_source_url(m, module_slug, prefix + seq!['.'] + name) is Ok <==> markdown_url(
            m,
            module_slug,
            name,
        ) is Some,
        markdown_url(m, module_slug, name) matches Some(url) ==> unit_source_url(
            m,
            module_slug,
            prefix + seq!['.'] + name,
        ) == Ok::<Seq<char>, ResolveErrorView>(url),
{
    text::law_after_last(prefix, '.', name);
}

} // verus!
