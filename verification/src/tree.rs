//! The book tree: a certification's learning paths, their modules and the modules' units, in
//! reading order.

use crate::catalog;
use crate::catalog::RawModule;
use crate::catalog::RawModuleView;
use crate::catalog::RawPath;
use crate::catalog::RawPathView;
use crate::catalog::RawUnit;
use crate::catalog::RawUnitView;
use crate::text;
use vstd::prelude::*;
use vstd::string::*;

verus! {

broadcast use vstd::seq_lib::group_seq_properties;

/// A unit: one page of a module.
#[derive(Debug, Clone)]
pub struct UnitNode {
    pub uid: String,
    pub title: String,
    pub duration_in_minutes: Option<u32>,
    pub is_knowledge_check: bool,
}

/// What a [`UnitNode`] holds.
pub struct UnitView {
    pub uid: Seq<char>,
    pub title: Seq<char>,
    pub duration_in_minutes: Option<u32>,
    pub is_knowledge_check: bool,
}

impl DeepView for UnitNode {
    type V = UnitView;

    open spec fn deep_view(&self) -> UnitView {
        UnitView {
            uid: self.uid@,
            title: self.title@,
            duration_in_minutes: self.duration_in_minutes,
            is_knowledge_check: self.is_knowledge_check,
        }
    }
}

/// A module: an ordered list of units.
#[derive(Debug, Clone)]
pub struct ModuleNode {
    pub uid: String,
    pub title: String,
    pub url: Option<String>,
    pub duration_in_minutes: Option<u32>,
    pub units: Vec<UnitNode>,
}

/// What a [`ModuleNode`] holds.
pub struct ModuleView {
    pub uid: Seq<char>,
    pub title: Seq<char>,
    pub url: Option<Seq<char>>,
    pub duration_in_minutes: Option<u32>,
    pub units: Seq<UnitView>,
}

impl DeepView for ModuleNode {
    type V = ModuleView;

    open spec fn deep_view(&self) -> ModuleView {
        ModuleView {
            uid: self.uid@,
            title: self.title@,
            url: self.url.deep_view(),
            duration_in_minutes: self.duration_in_minutes,
            units: self.units.deep_view(),
        }
    }
}

/// A learning path: an ordered list of modules.
#[derive(Debug, Clone)]
pub struct Part {
    pub uid: String,
    pub title: String,
    pub url: Option<String>,
    /// Learning-path achievement badge image URL, if known.
    pub icon_url: Option<String>,
    pub duration_in_minutes: Option<u32>,
    pub modules: Vec<ModuleNode>,
}

/// What a [`Part`] holds.
pub struct PartView {
    pub uid: Seq<char>,
    pub title: Seq<char>,
    pub url: Option<Seq<char>>,
    pub icon_url: Option<Seq<char>>,
    pub duration_in_minutes: Option<u32>,
    pub modules: Seq<ModuleView>,
}

impl DeepView for Part {
    type V = PartView;

    open spec fn deep_view(&self) -> PartView {
        PartView {
            uid: self.uid@,
            title: self.title@,
            url: self.url.deep_view(),
            icon_url: self.icon_url.deep_view(),
            duration_in_minutes: self.duration_in_minutes,
            modules: self.modules.deep_view(),
        }
    }
}

/// A whole study guide: an ordered list of parts.
#[derive(Debug, Clone)]
pub struct Book {
    pub cert_uid: String,
    pub title: String,
    /// Certification badge image URL, if known.
    pub icon_url: Option<String>,
    pub parts: Vec<Part>,
}

/// What a [`Book`] holds.
pub struct BookView {
    pub cert_uid: Seq<char>,
    pub title: Seq<char>,
    pub icon_url: Option<Seq<char>>,
    pub parts: Seq<PartView>,
}

impl DeepView for Book {
    type V = BookView;

    open spec fn deep_view(&self) -> BookView {
        BookView {
            cert_uid: self.cert_uid@,
            title: self.title@,
            icon_url: self.icon_url.deep_view(),
            parts: self.parts.deep_view(),
        }
    }
}

// ---------------------------------------------------------------------------
// Totals
// ---------------------------------------------------------------------------

/// A duration, or nothing where it is unknown.
pub open spec fn minutes_or_zero(d: Option<u32>) -> nat {
    match d {
        Some(m) => m as nat,
        None => 0,
    }
}

pub fn known_minutes(d: Option<u32>) -> (r: u32)
    ensures
        r == minutes_or_zero(d),
{
    match d {
        Some(m) => m,
        None => 0,
    }
}

/// The known durations of the first `n` modules, added up.
pub open spec fn module_minutes(modules: Seq<ModuleView>, n: nat) -> nat
    decreases n,
{
    if n == 0 {
        0
    } else {
        module_minutes(modules, (n - 1) as nat) + minutes_or_zero(
            modules[n - 1].duration_in_minutes,
        )
    }
}

/// The known durations of the modules of the first `n` parts, added up.
pub open spec fn part_minutes(parts: Seq<PartView>, n: nat) -> nat
    decreases n,
{
    if n == 0 {
        0
    } else {
        part_minutes(parts, (n - 1) as nat) + module_minutes(
            parts[n - 1].modules,
            parts[n - 1].modules.len(),
        )
    }
}

/// How many modules the first `n` parts hold.
pub open spec fn modules_in(parts: Seq<PartView>, n: nat) -> nat
    decreases n,
{
    if n == 0 {
        0
    } else {
        modules_in(parts, (n - 1) as nat) + parts[n - 1].modules.len()
    }
}

/// How many units the first `n` modules hold.
pub open spec fn units_in_modules(modules: Seq<ModuleView>, n: nat) -> nat
    decreases n,
{
    if n == 0 {
        0
    } else {
        units_in_modules(modules, (n - 1) as nat) + modules[n - 1].units.len()
    }
}

/// How many units the first `n` parts hold.
pub open spec fn units_in(parts: Seq<PartView>, n: nat) -> nat
    decreases n,
{
    if n == 0 {
        0
    } else {
        units_in(parts, (n - 1) as nat) + units_in_modules(
            parts[n - 1].modules,
            parts[n - 1].modules.len(),
        )
    }
}

impl BookView {
    pub open spec fn total_minutes(self) -> nat {
        part_minutes(self.parts, self.parts.len())
    }

    pub open spec fn module_count(self) -> nat {
        modules_in(self.parts, self.parts.len())
    }

    pub open spec fn unit_count(self) -> nat {
        units_in(self.parts, self.parts.len())
    }

    /// The book's totals fit the machine integers that hold them.
    pub open spec fn countable(self) -> bool {
        &&& self.total_minutes() <= u32::MAX
        &&& self.module_count() <= usize::MAX
        &&& self.unit_count() <= usize::MAX
    }
}

pub proof fn lemma_module_minutes_mono(modules: Seq<ModuleView>, i: nat, j: nat)
    requires
        i <= j,
    ensures
        module_minutes(modules, i) <= module_minutes(modules, j),
    decreases j,
{
    if i < j {
        lemma_module_minutes_mono(modules, i, (j - 1) as nat);
    }
}

pub proof fn lemma_part_minutes_mono(parts: Seq<PartView>, i: nat, j: nat)
    requires
        i <= j,
    ensures
        part_minutes(parts, i) <= part_minutes(parts, j),
    decreases j,
{
    if i < j {
        lemma_part_minutes_mono(parts, i, (j - 1) as nat);
    }
}

pub proof fn lemma_modules_in_mono(parts: Seq<PartView>, i: nat, j: nat)
    requires
        i <= j,
    ensures
        modules_in(parts, i) <= modules_in(parts, j),
    decreases j,
{
    if i < j {
        lemma_modules_in_mono(parts, i, (j - 1) as nat);
    }
}

pub proof fn lemma_units_in_modules_mono(modules: Seq<ModuleView>, i: nat, j: nat)
    requires
        i <= j,
    ensures
        units_in_modules(modules, i) <= units_in_modules(modules, j),
    decreases j,
{
    if i < j {
        lemma_units_in_modules_mono(modules, i, (j - 1) as nat);
    }
}

pub proof fn lemma_units_in_mono(parts: Seq<PartView>, i: nat, j: nat)
    requires
        i <= j,
    ensures
        units_in(parts, i) <= units_in(parts, j),
    decreases j,
{
    if i < j {
        lemma_units_in_mono(parts, i, (j - 1) as nat);
    }
}

impl Book {
    /// The known durations of all modules, added up.
    pub fn total_minutes(&self) -> (r: u32)
        requires
            self.deep_view().total_minutes() <= u32::MAX,
        ensures
            r == self.deep_view().total_minutes(),
    {
        let ghost parts = self.parts.deep_view();
        let np: usize = self.parts.len();
        let mut sum: u32 = 0;
        for i in 0..np
            invariant
                np == self.parts@.len(),
                parts == self.parts.deep_view(),
                part_minutes(parts, np as nat) <= u32::MAX,
                sum == part_minutes(parts, i as nat),
        {
            let p = &self.parts[i];
            assert(parts[i as int] == p.deep_view());
            let ghost modules = p.modules.deep_view();
            let nm: usize = p.modules.len();
            proof {
                lemma_part_minutes_mono(parts, (i + 1) as nat, np as nat);
            }
            for j in 0..nm
                invariant
                    nm == p.modules@.len(),
                    modules == p.modules.deep_view(),
                    part_minutes(parts, i as nat) + module_minutes(modules, nm as nat) <= u32::MAX,
                    sum == part_minutes(parts, i as nat) + module_minutes(modules, j as nat),
            {
                let m = &p.modules[j];
                assert(modules[j as int] == m.deep_view());
                proof {
                    lemma_module_minutes_mono(modules, (j + 1) as nat, nm as nat);
                }
                sum = sum + known_minutes(m.duration_in_minutes);
            }
        }
        sum
    }

    /// How many modules the book holds.
    pub fn module_count(&self) -> (r: usize)
        requires
            self.deep_view().module_count() <= usize::MAX,
        ensures
            r == self.deep_view().module_count(),
    {
        let ghost parts = self.parts.deep_view();
        let np: usize = self.parts.len();
        let mut sum: usize = 0;
        for i in 0..np
            invariant
                np == self.parts@.len(),
                parts == self.parts.deep_view(),
                modules_in(parts, np as nat) <= usize::MAX,
                sum == modules_in(parts, i as nat),
        {
            let p = &self.parts[i];
            assert(parts[i as int] == p.deep_view());
            proof {
                lemma_modules_in_mono(parts, (i + 1) as nat, np as nat);
            }
            sum = sum + p.modules.len();
        }
        sum
    }

    /// How many units the book holds.
    pub fn unit_count(&self) -> (r: usize)
        requires
            self.deep_view().unit_count() <= usize::MAX,
        ensures
            r == self.deep_view().unit_count(),
    {
        let ghost parts = self.parts.deep_view();
        let np: usize = self.parts.len();
        let mut sum: usize = 0;
        for i in 0..np
            invariant
                np == self.parts@.len(),
                parts == self.parts.deep_view(),
                units_in(parts, np as nat) <= usize::MAX,
                sum == units_in(parts, i as nat),
        {
            let p = &self.parts[i];
            assert(parts[i as int] == p.deep_view());
            let ghost modules = p.modules.deep_view();
            let nm: usize = p.modules.len();
            proof {
                lemma_units_in_mono(parts, (i + 1) as nat, np as nat);
            }
            for j in 0..nm
                invariant
                    nm == p.modules@.len(),
                    modules == p.modules.deep_view(),
                    units_in(parts, i as nat) + units_in_modules(modules, nm as nat) <= usize::MAX,
                    sum == units_in(parts, i as nat) + units_in_modules(modules, j as nat),
            {
                let m = &p.modules[j];
                assert(modules[j as int] == m.deep_view());
                proof {
                    lemma_units_in_modules_mono(modules, (j + 1) as nat, nm as nat);
                }
                sum = sum + m.units.len();
            }
        }
        sum
    }
}

// ---------------------------------------------------------------------------
// Building the tree
// ---------------------------------------------------------------------------

/// A unit's uid, or its title in lower case, marks it as a knowledge check.
pub open spec fn marks_check(uid: Seq<char>, lower_title: Seq<char>) -> bool {
    ||| text::has_suffix(uid, ".knowledge-check"@)
    ||| text::has_suffix(uid, ".module-assessment"@)
    ||| text::contains_text(lower_title, "knowledge check"@)
}

/// A unit's uid or title marks it as a knowledge check.
pub open spec fn is_check(u: RawUnitView) -> bool {
    marks_check(u.uid, text::lowered(u.title))
}

/// Whether a unit's uid, or its title in lower case, marks it as a knowledge check.
pub fn names_check(uid: &str, lower_title: &str) -> (r: bool)
    ensures
        r == marks_check(uid@, lower_title@),
{
    let cs = text::chars_of(uid);
    text::ends_with(cs.as_slice(), ".knowledge-check") || text::ends_with(
        cs.as_slice(),
        ".module-assessment",
    ) || text::contains_str(text::chars_of(lower_title).as_slice(), "knowledge check")
}

/// The unit that the catalog describes.
pub open spec fn unit_of(u: RawUnitView) -> UnitView {
    UnitView {
        uid: u.uid,
        title: u.title,
        duration_in_minutes: u.duration_in_minutes,
        is_knowledge_check: is_check(u),
    }
}

impl UnitNode {
    /// The unit that the catalog describes.
    pub fn from_raw(r: &RawUnit) -> (n: Self)
        ensures
            n.deep_view() == unit_of(r.deep_view()),
    {
        let lower = text::lowercase(r.title.as_str());
        let is_kc = names_check(r.uid.as_str(), lower.as_str());
        UnitNode {
            uid: r.uid.clone(),
            title: r.title.clone(),
            duration_in_minutes: r.duration_in_minutes,
            is_knowledge_check: is_kc,
        }
    }
}

/// A readable title from the last segment of a uid: words for hyphens, the first letter in upper
/// case. The uid itself where that segment is empty.
pub open spec fn title_from_uid(uid: Seq<char>) -> Seq<char> {
    let words = text::replaced(text::after_last(uid, '.'), "-"@, " "@);
    if words.len() == 0 {
        uid
    } else {
        text::capitalised(words)
    }
}

/// What stands for a unit that the catalog does not describe.
pub open spec fn placeholder(uid: Seq<char>) -> UnitView {
    UnitView {
        uid,
        title: title_from_uid(uid),
        duration_in_minutes: None,
        is_knowledge_check: text::has_suffix(uid, ".knowledge-check"@),
    }
}

/// A unit referenced by a module but missing from the catalog's answer (rare): its uid stays
/// visible rather than being dropped silently.
pub fn placeholder_unit(uid: &str) -> (r: UnitNode)
    ensures
        r.deep_view() == placeholder(uid@),
{
    proof {
        reveal_strlit("-");
    }
    let cs = text::chars_of(uid);
    let words = text::replace_all(text::after_last_char(cs.as_slice(), '.'), "-", " ");
    let title = if words.as_str().is_empty() {
        uid.to_owned()
    } else {
        text::capitalise(text::chars_of(words.as_str()).as_slice())
    };
    UnitNode {
        uid: uid.to_owned(),
        title,
        duration_in_minutes: None,
        is_knowledge_check: text::ends_with(cs.as_slice(), ".knowledge-check"),
    }
}

/// A URL without the query that the API appends.
pub open spec fn cleaned(url: Option<Seq<char>>) -> Option<Seq<char>> {
    match url {
        Some(u) => Some(text::before(u, '?')),
        None => None,
    }
}

/// Strips the `?WT.mc_id=api_CatalogApi` tracking suffix the API appends to urls.
pub fn clean_url(url: &Option<String>) -> (r: Option<String>)
    ensures
        r.deep_view() == cleaned(url.deep_view()),
{
    match url {
        Some(u) => Some(
            text::text_of(text::before_char(text::chars_of(u.as_str()).as_slice(), '?')),
        ),
        None => None,
    }
}

/// The unit with that uid: as the catalog describes it, or a placeholder.
pub open spec fn unit_named(units: Seq<RawUnitView>, uid: Seq<char>) -> UnitView {
    match catalog::last_with(catalog::unit_keys(units), uid) {
        Some(i) => unit_of(units[i]),
        None => placeholder(uid),
    }
}

/// The units with those uids, in their order.
pub open spec fn units_named(units: Seq<RawUnitView>, uids: Seq<Seq<char>>) -> Seq<UnitView> {
    Seq::new(uids.len(), |i: int| unit_named(units, uids[i]))
}

/// The module that the catalog describes, with its units.
pub open spec fn module_of(m: RawModuleView, units: Seq<RawUnitView>) -> ModuleView {
    ModuleView {
        uid: m.uid,
        title: m.title,
        url: cleaned(m.url),
        duration_in_minutes: m.duration_in_minutes,
        units: units_named(units, m.units),
    }
}

/// The modules that the first `n` uids name, in their order; a uid that names none adds nothing.
pub open spec fn modules_named(
    modules: Seq<RawModuleView>,
    units: Seq<RawUnitView>,
    uids: Seq<Seq<char>>,
    n: nat,
) -> Seq<ModuleView>
    decreases n,
{
    if n == 0 {
        Seq::empty()
    } else {
        let before = modules_named(modules, units, uids, (n - 1) as nat);
        match catalog::last_with(catalog::module_keys(modules), uids[n - 1]) {
            Some(i) => before.push(module_of(modules[i], units)),
            None => before,
        }
    }
}

/// The part that a learning path makes.
pub open spec fn part_of(
    p: RawPathView,
    modules: Seq<RawModuleView>,
    units: Seq<RawUnitView>,
) -> PartView {
    PartView {
        uid: p.uid,
        title: p.title,
        url: cleaned(p.url),
        icon_url: p.icon_url,
        duration_in_minutes: p.duration_in_minutes,
        modules: modules_named(modules, units, p.modules, p.modules.len()),
    }
}

/// The parts that learning paths make, in their order.
pub open spec fn parts_of(
    paths: Seq<RawPathView>,
    modules: Seq<RawModuleView>,
    units: Seq<RawUnitView>,
) -> Seq<PartView> {
    Seq::new(paths.len(), |i: int| part_of(paths[i], modules, units))
}

/// The module that the catalog describes, with ordered, titled units.
pub fn module_node(m: &RawModule, units: &Vec<RawUnit>) -> (r: ModuleNode)
    ensures
        r.deep_view() == module_of(m.deep_view(), units.deep_view()),
{
    let ghost all = units.deep_view();
    let ghost uids = m.units.deep_view();
    assert(catalog::keys_of(units@) =~= catalog::unit_keys(all));
    let n: usize = m.units.len();
    let mut nodes: Vec<UnitNode> = Vec::new();
    for i in 0..n
        invariant
            n == m.units@.len(),
            all == units.deep_view(),
            uids == m.units.deep_view(),
            catalog::keys_of(units@) == catalog::unit_keys(all),
            nodes.deep_view() =~= units_named(all, uids).take(i as int),
    {
        assert(uids[i as int] == m.units@[i as int]@);
        let uid = m.units[i].as_str();
        match catalog::index_by(units, uid) {
            Some(k) => {
                assert(all[k as int] == units@[k as int].deep_view());
                text::push_item(&mut nodes, UnitNode::from_raw(&units[k]));
            },
            None => {
                text::push_item(&mut nodes, placeholder_unit(uid));
            },
        }
    }
    ModuleNode {
        uid: m.uid.clone(),
        title: m.title.clone(),
        url: clean_url(&m.url),
        duration_in_minutes: m.duration_in_minutes,
        units: nodes,
    }
}

fn part_node(p: &RawPath, modules: &Vec<RawModule>, units: &Vec<RawUnit>) -> (r: Part)
    ensures
        r.deep_view() == part_of(p.deep_view(), modules.deep_view(), units.deep_view()),
{
    let ghost all = modules.deep_view();
    let ghost uids = p.modules.deep_view();
    assert(catalog::keys_of(modules@) =~= catalog::module_keys(all));
    let n: usize = p.modules.len();
    let mut nodes: Vec<ModuleNode> = Vec::new();
    for i in 0..n
        invariant
            n == p.modules@.len(),
            all == modules.deep_view(),
            uids == p.modules.deep_view(),
            catalog::keys_of(modules@) == catalog::module_keys(all),
            nodes.deep_view() =~= modules_named(all, units.deep_view(), uids, i as nat),
    {
        assert(uids[i as int] == p.modules@[i as int]@);
        if let Some(k) = catalog::index_by(modules, p.modules[i].as_str()) {
            assert(all[k as int] == modules@[k as int].deep_view());
            text::push_item(&mut nodes, module_node(&modules[k], units));
        }
    }
    Part {
        uid: p.uid.clone(),
        title: p.title.clone(),
        url: clean_url(&p.url),
        icon_url: text::copy_opt_text(&p.icon_url),
        duration_in_minutes: p.duration_in_minutes,
        modules: nodes,
    }
}

/// The parts that learning paths make: order is preserved at every level.
pub fn part_nodes(paths: &Vec<RawPath>, modules: &Vec<RawModule>, units: &Vec<RawUnit>) -> (r: Vec<
    Part,
>)
    ensures
        r.deep_view() == parts_of(paths.deep_view(), modules.deep_view(), units.deep_view()),
{
    let ghost all = paths.deep_view();
    let n: usize = paths.len();
    let mut parts: Vec<Part> = Vec::new();
    for i in 0..n
        invariant
            n == paths@.len(),
            all == paths.deep_view(),
            parts.deep_view() =~= parts_of(all, modules.deep_view(), units.deep_view()).take(
                i as int,
            ),
    {
        assert(all[i as int] == paths@[i as int].deep_view());
        text::push_item(&mut parts, part_node(&paths[i], modules, units));
    }
    parts
}

/// No unit that a module references is dropped, whatever the catalog answers: the module's units
/// are those it references, in its order.
pub proof fn law_no_unit_is_dropped(m: RawModuleView, units: Seq<RawUnitView>, i: int)
    requires
        0 <= i < m.units.len(),
    ensures
        module_of(m, units).units.len() == m.units.len(),
        module_of(m, units).units[i].uid == m.units[i],
{
    catalog::lemma_last_with(catalog::unit_keys(units), m.units[i]);
}

/// The catalog holds the unit that is in the tree, as it stands there: the last one with that uid.
pub open spec fn describes_unit(units: Seq<RawUnitView>, i: int, u: UnitView) -> bool {
    &&& 0 <= i < units.len()
    &&& units[i].uid == u.uid
    &&& units[i].title == u.title
    &&& units[i].duration_in_minutes == u.duration_in_minutes
    &&& forall|j: int| i < j < units.len() ==> (#[trigger] units[j]).uid != u.uid
}

/// A unit of the tree says what the catalog says of its uid. One that the catalog does not
/// describe has no duration.
pub proof fn law_units_are_the_catalogs(m: RawModuleView, units: Seq<RawUnitView>, k: int)
    requires
        0 <= k < m.units.len(),
    ensures
        ({
            let u = module_of(m, units).units[k];
            if exists|i: int| 0 <= i < units.len() && (#[trigger] units[i]).uid == m.units[k] {
                exists|i: int| #[trigger] describes_unit(units, i, u)
            } else {
                u.duration_in_minutes is None
            }
        }),
{
    let uid = m.units[k];
    let u = module_of(m, units).units[k];
    let keys = catalog::unit_keys(units);
    catalog::lemma_last_with(keys, uid);
    match catalog::last_with(keys, uid) {
        Some(i) => {
            assert forall|j: int| i < j < units.len() implies (#[trigger] units[j]).uid
                != u.uid by {
                assert(keys[j] == units[j].uid);
            }
            assert(describes_unit(units, i, u));
        },
        None => {
            assert forall|i: int| 0 <= i < units.len() implies (#[trigger] units[i]).uid
                != uid by {
                assert(keys[i] == units[i].uid);
            }
        },
    }
}

/// The catalog holds the module that is in the tree, as it stands there, with the units that it
/// references, in its order: the last one with that uid.
pub open spec fn describes_module(modules: Seq<RawModuleView>, i: int, m: ModuleView) -> bool {
    &&& 0 <= i < modules.len()
    &&& modules[i].uid == m.uid
    &&& modules[i].title == m.title
    &&& modules[i].duration_in_minutes == m.duration_in_minutes
    &&& modules[i].url is Some <==> m.url is Some
    &&& m.units.len() == modules[i].units.len()
    &&& forall|k: int| 0 <= k < m.units.len() ==> (#[trigger] m.units[k]).uid == modules[i].units[k]
    &&& forall|j: int| i < j < modules.len() ==> (#[trigger] modules[j]).uid != m.uid
}

/// The catalog holds the module that is in the tree, as it stands there.
pub open spec fn is_described(modules: Seq<RawModuleView>, m: ModuleView) -> bool {
    exists|i: int| #[trigger] describes_module(modules, i, m)
}

proof fn lemma_modules_named(
    modules: Seq<RawModuleView>,
    units: Seq<RawUnitView>,
    uids: Seq<Seq<char>>,
    n: nat,
)
    requires
        n <= uids.len(),
    ensures
        Seq::new(
            modules_named(modules, units, uids, n).len(),
            |j: int| modules_named(modules, units, uids, n)[j].uid,
        ) == uids.take(n as int).filter(
            |u: Seq<char>| catalog::module_keys(modules).contains(u),
        ),
        forall|j: int|
            0 <= j < modules_named(modules, units, uids, n).len() ==> is_described(
                modules,
                #[trigger] modules_named(modules, units, uids, n)[j],
            ),
    decreases n,
{
    let known = |u: Seq<char>| catalog::module_keys(modules).contains(u);
    let now = modules_named(modules, units, uids, n);
    reveal(Seq::filter);
    if n == 0 {
        assert(uids.take(0).filter(known) =~= Seq::<Seq<char>>::empty());
        assert(Seq::new(now.len(), |j: int| now[j].uid) =~= Seq::<Seq<char>>::empty());
    } else {
        lemma_modules_named(modules, units, uids, (n - 1) as nat);
        let keys = catalog::module_keys(modules);
        let uid = uids[n - 1];
        let before = modules_named(modules, units, uids, (n - 1) as nat);
        assert(uids.take(n as int).drop_last() =~= uids.take(n - 1));
        assert(uids.take(n as int).last() == uid);
        catalog::lemma_last_with(keys, uid);
        match catalog::last_with(keys, uid) {
            Some(i) => {
                let m = module_of(modules[i], units);
                assert(keys.contains(uid));
                assert forall|k: int| 0 <= k < m.units.len() implies (#[trigger] m.units[k]).uid
                    == modules[i].units[k] by {
                    law_no_unit_is_dropped(modules[i], units, k);
                }
                assert forall|j: int| i < j < modules.len() implies (#[trigger] modules[j]).uid
                    != m.uid by {
                    assert(keys[j] == modules[j].uid);
                }
                assert(describes_module(modules, i, m));
                assert(is_described(modules, m));
                assert(Seq::new(now.len(), |j: int| now[j].uid) =~= Seq::new(
                    before.len(),
                    |j: int| before[j].uid,
                ).push(uid));
            },
            None => {},
        }
    }
}

/// A part of the tree is its learning path: its name, and the modules that the path references
/// and the catalog describes, each where the path has it and as the catalog describes it.
pub proof fn law_a_part_is_its_path(
    p: RawPathView,
    modules: Seq<RawModuleView>,
    units: Seq<RawUnitView>,
)
    ensures
        part_of(p, modules, units).uid == p.uid,
        part_of(p, modules, units).title == p.title,
        part_of(p, modules, units).icon_url == p.icon_url,
        part_of(p, modules, units).duration_in_minutes == p.duration_in_minutes,
        part_of(p, modules, units).url is Some <==> p.url is Some,
        Seq::new(
            part_of(p, modules, units).modules.len(),
            |j: int| part_of(p, modules, units).modules[j].uid,
        ) == p.modules.filter(
            |u: Seq<char>|
                exists|i: int| 0 <= i < modules.len() && (#[trigger] modules[i]).uid == u,
        ),
        forall|j: int|
            0 <= j < part_of(p, modules, units).modules.len() ==> is_described(
                modules,
                #[trigger] part_of(p, modules, units).modules[j],
            ),
{
    lemma_modules_named(modules, units, p.modules, p.modules.len());
    assert(p.modules.take(p.modules.len() as int) =~= p.modules);
    let keys = catalog::module_keys(modules);
    let known = |u: Seq<char>| keys.contains(u);
    let there = |u: Seq<char>|
        exists|i: int| 0 <= i < modules.len() && (#[trigger] modules[i]).uid == u;
    assert forall|u: Seq<char>| #[trigger] known(u) == there(u) by {
        if known(u) {
            let i = choose|i: int| 0 <= i < keys.len() && keys[i] == u;
            assert(modules[i].uid == u);
        }
        if there(u) {
            let i = choose|i: int| 0 <= i < modules.len() && (#[trigger] modules[i]).uid == u;
            assert(keys[i] == u);
        }
    }
    assert(known =~= there);
}

/// A module that a path references and that the catalog describes is in the part.
pub proof fn law_no_module_is_dropped(
    p: RawPathView,
    modules: Seq<RawModuleView>,
    units: Seq<RawUnitView>,
    k: int,
    i: int,
) -> (j: int)
    requires
        0 <= k < p.modules.len(),
        0 <= i < modules.len(),
        modules[i].uid == p.modules[k],
    ensures
        0 <= j < part_of(p, modules, units).modules.len(),
        part_of(p, modules, units).modules[j].uid == p.modules[k],
{
    law_a_part_is_its_path(p, modules, units);
    let there = |u: Seq<char>|
        exists|i: int| 0 <= i < modules.len() && (#[trigger] modules[i]).uid == u;
    let part = part_of(p, modules, units);
    let uids = Seq::new(part.modules.len(), |j: int| part.modules[j].uid);
    assert(there(p.modules[k]));
    lemma_filter_keeps(p.modules, there, k);
    let j = choose|j: int| 0 <= j < uids.len() && uids[j] == p.modules[k];
    assert(uids[j] == part.modules[j].uid);
    j
}

proof fn lemma_filter_keeps(s: Seq<Seq<char>>, f: spec_fn(Seq<char>) -> bool, k: int)
    requires
        0 <= k < s.len(),
        f(s[k]),
    ensures
        s.filter(f).contains(s[k]),
    decreases s.len(),
{
    reveal(Seq::filter);
    let front = s.drop_last();
    if k == s.len() - 1 {
        assert(s.filter(f) == front.filter(f).push(s[k]));
        assert(s.filter(f)[front.filter(f).len() as int] == s[k]);
    } else {
        lemma_filter_keeps(front, f, k);
        let j = choose|j: int| 0 <= j < front.filter(f).len() && front.filter(f)[j] == s[k];
        assert(s.filter(f)[j] == s[k]);
    }
}

/// The parts of the tree are the paths, one for one, in their order.
pub proof fn law_a_part_for_each_path(
    paths: Seq<RawPathView>,
    modules: Seq<RawModuleView>,
    units: Seq<RawUnitView>,
)
    ensures
        parts_of(paths, modules, units).len() == paths.len(),
        forall|p: int|
            0 <= p < paths.len() ==> #[trigger] parts_of(paths, modules, units)[p] == part_of(
                paths[p],
                modules,
                units,
            ),
{
}

proof fn lemma_before_split(s: Seq<char>, c: char)
    ensures
        text::before(s, c).len() <= s.len(),
        s.take(text::before(s, c).len() as int) == text::before(s, c),
        text::before(s, c).len() < s.len() ==> s[text::before(s, c).len() as int] == c,
        !text::before(s, c).contains(c),
    decreases s.len(),
{
    if s.len() > 0 && s[0] != c {
        let rest = s.skip(1);
        lemma_before_split(rest, c);
        let b = text::before(rest, c);
        let all = text::before(s, c);
        assert(all =~= seq![s[0]] + b);
        assert(s.take(all.len() as int) =~= seq![s[0]] + rest.take(b.len() as int));
        if b.len() < rest.len() {
            assert(s[all.len() as int] == rest[b.len() as int]);
        }
        if all.contains(c) {
            let i = choose|i: int| 0 <= i < all.len() && all[i] == c;
            assert(b[i - 1] == c);
        }
    } else {
        assert(s.take(0) =~= Seq::<char>::empty());
    }
}

/// A cleaned URL is the URL up to its query: it holds no question mark, and what was taken off is
/// nothing or begins with one.
pub proof fn law_only_the_query_is_taken_off(url: Seq<char>)
    ensures
        ({
            let clean = cleaned(Some(url))->Some_0;
            &&& cleaned(Some(url)) is Some
            &&& !clean.contains('?')
            &&& clean.len() <= url.len()
            &&& url.take(clean.len() as int) == clean
            &&& clean.len() < url.len() ==> url[clean.len() as int] == '?'
        }),
{
    lemma_before_split(url, '?');
}

/// The modules and the parts of the tree have the catalog's URLs without their queries.
pub proof fn law_tree_has_clean_urls(
    p: RawPathView,
    m: RawModuleView,
    modules: Seq<RawModuleView>,
    units: Seq<RawUnitView>,
)
    ensures
        module_of(m, units).url == cleaned(m.url),
        part_of(p, modules, units).url == cleaned(p.url),
        module_of(m, units).uid == m.uid,
        module_of(m, units).title == m.title,
        module_of(m, units).duration_in_minutes == m.duration_in_minutes,
{
}

/// A unit is a knowledge check where its uid or its title says so, and nowhere else: what the
/// title says does not matter where the uid does, and the other way round.
pub proof fn law_what_is_a_knowledge_check(stem: Seq<char>, u: RawUnitView)
    ensures
        unit_of(RawUnitView { uid: stem + ".knowledge-check"@, ..u }).is_knowledge_check,
        unit_of(RawUnitView { uid: stem + ".module-assessment"@, ..u }).is_knowledge_check,
        text::contains_text(text::lowered(u.title), "knowledge check"@) ==> unit_of(
            u,
        ).is_knowledge_check,
        unit_of(u).is_knowledge_check && !text::contains_text(
            text::lowered(u.title),
            "knowledge check"@,
        ) ==> text::has_suffix(u.uid, ".knowledge-check"@) || text::has_suffix(
            u.uid,
            ".module-assessment"@,
        ),
{
    let a = stem + ".knowledge-check"@;
    let b = stem + ".module-assessment"@;
    assert(a.subrange(stem.len() as int, a.len() as int) =~= ".knowledge-check"@);
    assert(b.subrange(stem.len() as int, b.len() as int) =~= ".module-assessment"@);
}

proof fn lemma_totals_take(a: Seq<PartView>, b: Seq<PartView>, n: nat)
    requires
        n <= a.len(),
    ensures
        modules_in(a + b, n) == modules_in(a, n),
        units_in(a + b, n) == units_in(a, n),
        part_minutes(a + b, n) == part_minutes(a, n),
    decreases n,
{
    if n > 0 {
        lemma_totals_take(a, b, (n - 1) as nat);
    }
}

proof fn lemma_totals_cat(a: Seq<PartView>, b: Seq<PartView>, n: nat)
    requires
        n <= b.len(),
    ensures
        modules_in(a + b, a.len() + n) == modules_in(a, a.len()) + modules_in(b, n),
        units_in(a + b, a.len() + n) == units_in(a, a.len()) + units_in(b, n),
        part_minutes(a + b, a.len() + n) == part_minutes(a, a.len()) + part_minutes(b, n),
    decreases n,
{
    if n == 0 {
        lemma_totals_take(a, b, a.len());
    } else {
        lemma_totals_cat(a, b, (n - 1) as nat);
        assert((a + b)[a.len() + n - 1] == b[n - 1]);
    }
}

/// The totals of a book are those of its parts, added up: none is left out or counted twice.
pub proof fn law_totals_add_up(a: Seq<PartView>, b: Seq<PartView>, part: PartView)
    ensures
        modules_in(a + b, (a + b).len()) == modules_in(a, a.len()) + modules_in(b, b.len()),
        units_in(a + b, (a + b).len()) == units_in(a, a.len()) + units_in(b, b.len()),
        part_minutes(a + b, (a + b).len()) == part_minutes(a, a.len()) + part_minutes(b, b.len()),
        modules_in(seq![part], 1) == part.modules.len(),
        units_in(seq![part], 1) == units_in_modules(part.modules, part.modules.len()),
        part_minutes(seq![part], 1) == module_minutes(part.modules, part.modules.len()),
{
    lemma_totals_cat(a, b, b.len());
    reveal_with_fuel(modules_in, 2);
    reveal_with_fuel(units_in, 2);
    reveal_with_fuel(part_minutes, 2);
}

proof fn lemma_module_totals_take(a: Seq<ModuleView>, b: Seq<ModuleView>, n: nat)
    requires
        n <= a.len(),
    ensures
        units_in_modules(a + b, n) == units_in_modules(a, n),
        module_minutes(a + b, n) == module_minutes(a, n),
    decreases n,
{
    if n > 0 {
        lemma_module_totals_take(a, b, (n - 1) as nat);
    }
}

proof fn lemma_module_totals_cat(a: Seq<ModuleView>, b: Seq<ModuleView>, n: nat)
    requires
        n <= b.len(),
    ensures
        units_in_modules(a + b, a.len() + n) == units_in_modules(a, a.len()) + units_in_modules(
            b,
            n,
        ),
        module_minutes(a + b, a.len() + n) == module_minutes(a, a.len()) + module_minutes(b, n),
    decreases n,
{
    if n == 0 {
        lemma_module_totals_take(a, b, a.len());
    } else {
        lemma_module_totals_cat(a, b, (n - 1) as nat);
        assert((a + b)[a.len() + n - 1] == b[n - 1]);
    }
}

/// The totals of a part are those of its modules, added up; a module whose duration is unknown
/// adds no minutes.
pub proof fn law_module_totals_add_up(a: Seq<ModuleView>, b: Seq<ModuleView>, m: ModuleView)
    ensures
        units_in_modules(a + b, (a + b).len()) == units_in_modules(a, a.len()) + units_in_modules(
            b,
            b.len(),
        ),
        module_minutes(a + b, (a + b).len()) == module_minutes(a, a.len()) + module_minutes(
            b,
            b.len(),
        ),
        units_in_modules(seq![m], 1) == m.units.len(),
        m.duration_in_minutes matches Some(d) ==> module_minutes(seq![m], 1) == d,
        m.duration_in_minutes is None ==> module_minutes(seq![m], 1) == 0,
{
    lemma_module_totals_cat(a, b, b.len());
    reveal_with_fuel(units_in_modules, 2);
    reveal_with_fuel(module_minutes, 2);
}

/// The counts of a book are of its parts.
pub proof fn law_counts_are_of_the_parts(b: BookView)
    ensures
        b.module_count() == modules_in(b.parts, b.parts.len()),
        b.unit_count() == units_in(b.parts, b.parts.len()),
        b.total_minutes() == part_minutes(b.parts, b.parts.len()),
{
}

proof fn lemma_modules_built(
    modules: Seq<RawModuleView>,
    units: Seq<RawUnitView>,
    uids: Seq<Seq<char>>,
    n: nat,
    j: int,
) -> (i: int)
    requires
        n <= uids.len(),
        0 <= j < modules_named(modules, units, uids, n).len(),
    ensures
        0 <= i < modules.len(),
        modules_named(modules, units, uids, n)[j] == module_of(modules[i], units),
        forall|k: int| i < k < modules.len() ==> (#[trigger] modules[k]).uid != modules[i].uid,
    decreases n,
{
    let before = modules_named(modules, units, uids, (n - 1) as nat);
    if j < before.len() {
        lemma_modules_built(modules, units, uids, (n - 1) as nat, j)
    } else {
        let keys = catalog::module_keys(modules);
        catalog::lemma_last_with(keys, uids[n - 1]);
        let i = catalog::last_with(keys, uids[n - 1])->Some_0;
        assert forall|k: int| i < k < modules.len() implies (#[trigger] modules[k]).uid
            != modules[i].uid by {
            assert(keys[k] == modules[k].uid);
        }
        i
    }
}

/// A module of a part is made from the last module that the catalog holds of its uid.
pub proof fn law_a_parts_modules_are_made_from_the_catalog(
    p: RawPathView,
    modules: Seq<RawModuleView>,
    units: Seq<RawUnitView>,
    j: int,
) -> (i: int)
    requires
        0 <= j < part_of(p, modules, units).modules.len(),
    ensures
        0 <= i < modules.len(),
        part_of(p, modules, units).modules[j] == module_of(modules[i], units),
        forall|k: int| i < k < modules.len() ==> (#[trigger] modules[k]).uid != modules[i].uid,
{
    lemma_modules_built(modules, units, p.modules, p.modules.len(), j)
}

/// A title made of a uid is its last segment, with a space for each hyphen and the first letter in
/// upper case.
pub proof fn law_a_title_for_a_uid(prefix: Seq<char>, c: char, a: Seq<char>, b: Seq<char>)
    requires
        c != '-',
        !(seq![c] + a + seq!['-'] + b).contains('.'),
        !b.contains('-'),
    ensures
        title_from_uid(prefix + seq!['.'] + (seq![c] + a + seq!['-'] + b)) == text::uppered(seq![c])
            + text::replaced(a, "-"@, " "@) + " "@ + b,
        !a.contains('-') ==> text::replaced(a, "-"@, " "@) == a,
{
    let last = seq![c] + a + seq!['-'] + b;
    let ra = text::replaced(a, "-"@, " "@);
    text::law_after_last(prefix, '.', last);
    lemma_spaces_for_hyphens(c, a, b);
    if !a.contains('-') {
        lemma_no_hyphen(a);
    }
    text::law_capitalised(c, ra + " "@ + b);
    text::lemma_cat_assoc(text::uppered(seq![c]), ra, " "@);
    text::lemma_cat_assoc(text::uppered(seq![c]), ra + " "@, b);
}

proof fn lemma_spaces_for_hyphens(c: char, a: Seq<char>, b: Seq<char>)
    requires
        c != '-',
        !b.contains('-'),
    ensures
        text::replaced(seq![c] + a + seq!['-'] + b, "-"@, " "@) == seq![c] + (text::replaced(
            a,
            "-"@,
            " "@,
        ) + " "@ + b),
{
    reveal_strlit("-");
    assert("-"@ =~= seq!['-']);
    let ra = text::replaced(a, "-"@, " "@);
    text::law_replacing_a_character(seq![c] + a, '-', b, '-', " "@);
    text::law_replacing_a_character(Seq::empty(), '-', a, c, " "@);
    lemma_no_hyphen(Seq::empty());
    lemma_no_hyphen(b);
    assert(Seq::<char>::empty() + seq![c] == seq![c]);
    text::lemma_cat_assoc(seq![c], ra, " "@);
    text::lemma_cat_assoc(seq![c], ra + " "@, b);
}

proof fn lemma_no_hyphen(s: Seq<char>)
    requires
        !s.contains('-'),
    ensures
        text::replaced(s, "-"@, " "@) == s,
{
    reveal_strlit("-");
    assert forall|i: int| !text::occurs_at(s, "-"@, i) by {
        if text::occurs_at(s, "-"@, i) {
            assert(s.subrange(i, i + 1)[0] == '-');
            assert(s[i] == '-');
        }
    }
    text::law_nothing_to_replace(s, "-"@, " "@);
}

} // verus!
