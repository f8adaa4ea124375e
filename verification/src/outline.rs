//! A book tree as text: an indented outline for people, and JSON for other programs.

use crate::text;
use crate::tree;
use crate::tree::Book;
use crate::tree::BookView;
use crate::tree::ModuleNode;
use crate::tree::ModuleView;
use crate::tree::Part;
use crate::tree::PartView;
use crate::tree::UnitNode;
use crate::tree::UnitView;
use vstd::prelude::*;
use vstd::string::*;

verus! {

broadcast use vstd::seq_lib::group_seq_properties;

// ---------------------------------------------------------------------------
// Hours
// ---------------------------------------------------------------------------

/// Sixty times two to the 52nd: a number of minutes is doubled until it gets there, so that its
/// sixtieth has the 53 bits of a double's significand before the point.
pub const FULL_SIGNIFICAND: u128 = 270215977642229760;

/// `x` doubled until its sixtieth has 53 bits before the point.
pub open spec fn scaled(x: nat) -> nat
    decreases 2 * FULL_SIGNIFICAND - x,
{
    if x == 0 || x >= FULL_SIGNIFICAND {
        x
    } else {
        scaled(2 * x)
    }
}

/// Minutes as tenths of an hour, rounded as the double nearest to the number of hours rounds. In
/// the middle between two tenths it counts on which side that double lies, and where it lies in
/// the middle itself the even tenth is taken.
pub open spec fn tenths_of_hours(minutes: nat) -> nat {
    let q = minutes / 6;
    let r = minutes % 6;
    let rem = scaled(minutes) % 60;
    if r < 3 {
        q
    } else if r > 3 {
        q + 1
    } else if rem == 0 {
        if q % 2 == 0 {
            q
        } else {
            q + 1
        }
    } else if rem < 30 {
        q
    } else {
        q + 1
    }
}

/// Minutes as hours with one decimal.
pub open spec fn hours_text(minutes: nat) -> Seq<char> {
    let t = tenths_of_hours(minutes);
    text::decimal(t / 10) + "."@ + text::decimal(t % 10)
}

/// Minutes as whole hours; half an hour goes to the even hour.
pub open spec fn whole_hours(minutes: nat) -> nat {
    let q = minutes / 60;
    let r = minutes % 60;
    if r < 30 || (r == 30 && q % 2 == 0) {
        q
    } else {
        q + 1
    }
}

fn scale(minutes: u32) -> (r: u128)
    ensures
        r == scaled(minutes as nat),
{
    let mut x: u128 = minutes as u128;
    while x != 0 && x < FULL_SIGNIFICAND
        invariant
            x < 2 * FULL_SIGNIFICAND,
            scaled(x as nat) == scaled(minutes as nat),
        decreases 2 * FULL_SIGNIFICAND - x,
    {
        x = 2 * x;
    }
    x
}

/// Minutes as hours with one decimal.
pub fn hours_with_tenth(minutes: u32) -> (r: String)
    ensures
        r@ == hours_text(minutes as nat),
{
    let q: u32 = minutes / 6;
    let r: u32 = minutes % 6;
    let rem: u128 = scale(minutes) % 60;
    let up = r > 3 || (r == 3 && (rem > 30 || rem == 30 || (rem == 0 && q % 2 != 0)));
    let t: u64 = if up {
        q as u64 + 1
    } else {
        q as u64
    };
    let mut s = text::decimal_text(t / 10);
    s.append(".");
    s.append(text::decimal_text(t % 10).as_str());
    s
}

/// Minutes as whole hours.
pub fn hours_rounded(minutes: u32) -> (r: u32)
    ensures
        r == whole_hours(minutes as nat),
{
    let q: u32 = minutes / 60;
    let r: u32 = minutes % 60;
    if r < 30 || (r == 30 && q % 2 == 0) {
        q
    } else {
        q + 1
    }
}

// ---------------------------------------------------------------------------
// The outline
// ---------------------------------------------------------------------------

/// A known or unknown duration in the outline.
pub open spec fn minutes_text(d: Option<u32>) -> Seq<char> {
    text::decimal(tree::minutes_or_zero(d))
}

pub open spec fn unit_line(u: UnitView) -> Seq<char> {
    "        . "@ + u.title + (if u.is_knowledge_check {
        "  [KC]"@
    } else {
        ""@
    }) + " ("@ + minutes_text(u.duration_in_minutes) + " min)\n"@
}

pub open spec fn unit_lines(units: Seq<UnitView>, n: nat) -> Seq<char>
    decreases n,
{
    if n == 0 {
        Seq::empty()
    } else {
        unit_lines(units, (n - 1) as nat) + unit_line(units[n - 1])
    }
}

pub open spec fn module_lines(modules: Seq<ModuleView>, n: nat) -> Seq<char>
    decreases n,
{
    if n == 0 {
        Seq::empty()
    } else {
        let m = modules[n - 1];
        module_lines(modules, (n - 1) as nat) + ("    - "@ + m.title + " ("@ + minutes_text(
            m.duration_in_minutes,
        ) + " min)\n"@) + unit_lines(m.units, m.units.len())
    }
}

pub open spec fn part_lines(parts: Seq<PartView>, n: nat) -> Seq<char>
    decreases n,
{
    if n == 0 {
        Seq::empty()
    } else {
        let p = parts[n - 1];
        part_lines(parts, (n - 1) as nat) + (text::decimal(n) + ". "@ + p.title + " ("@
            + minutes_text(p.duration_in_minutes) + " min)\n"@) + module_lines(
            p.modules,
            p.modules.len(),
        ) + "\n"@
    }
}

/// The totals line of the outline.
pub open spec fn totals_line(b: BookView) -> Seq<char> {
    text::decimal(b.parts.len()) + " parts, "@ + text::decimal(b.module_count()) + " modules, "@
        + text::decimal(b.unit_count()) + " units, ~"@ + text::decimal(b.total_minutes())
        + " min (~"@ + hours_text(b.total_minutes()) + " h)\n\n"@
}

/// The outline of a book.
pub open spec fn outline_text(b: BookView) -> Seq<char> {
    (b.title + "  ["@ + b.cert_uid + "]\n"@) + totals_line(b) + part_lines(b.parts, b.parts.len())
}

fn minutes_of(d: Option<u32>) -> (r: String)
    ensures
        r@ == minutes_text(d),
{
    text::decimal_text(tree::known_minutes(d) as u64)
}

fn outline_unit(u: &UnitNode) -> (r: String)
    ensures
        r@ == unit_line(u.deep_view()),
{
    let mut s = "        . ".to_owned();
    s.append(u.title.as_str());
    if u.is_knowledge_check {
        s.append("  [KC]");
    } else {
        s.append("");
    }
    s.append(" (");
    s.append(minutes_of(u.duration_in_minutes).as_str());
    s.append(" min)\n");
    s
}

fn outline_units(units: &Vec<UnitNode>) -> (r: String)
    ensures
        r@ == unit_lines(units.deep_view(), units@.len()),
{
    let ghost all = units.deep_view();
    let n: usize = units.len();
    let mut s = String::new();
    for i in 0..n
        invariant
            n == units@.len(),
            all == units.deep_view(),
            s@ == unit_lines(all, i as nat),
    {
        assert(all[i as int] == units@[i as int].deep_view());
        s.append(outline_unit(&units[i]).as_str());
    }
    s
}

fn outline_modules(modules: &Vec<ModuleNode>) -> (r: String)
    ensures
        r@ == module_lines(modules.deep_view(), modules@.len()),
{
    let ghost all = modules.deep_view();
    let n: usize = modules.len();
    let mut s = String::new();
    for i in 0..n
        invariant
            n == modules@.len(),
            all == modules.deep_view(),
            s@ == module_lines(all, i as nat),
    {
        let m = &modules[i];
        assert(all[i as int] == m.deep_view());
        let mut line = "    - ".to_owned();
        line.append(m.title.as_str());
        line.append(" (");
        line.append(minutes_of(m.duration_in_minutes).as_str());
        line.append(" min)\n");
        s.append(line.as_str());
        s.append(outline_units(&m.units).as_str());
    }
    s
}

/// Renders the resolved tree as an indented outline with durations and totals.
pub fn render_outline(book: &Book) -> (r: String)
    requires
        book.deep_view().countable(),
    ensures
        r@ == outline_text(book.deep_view()),
{
    let minutes: u32 = book.total_minutes();
    let mut out = book.title.clone();
    out.append("  [");
    out.append(book.cert_uid.as_str());
    out.append("]\n");
    let mut totals = text::decimal_text(book.parts.len() as u64);
    totals.append(" parts, ");
    totals.append(text::decimal_text(book.module_count() as u64).as_str());
    totals.append(" modules, ");
    totals.append(text::decimal_text(book.unit_count() as u64).as_str());
    totals.append(" units, ~");
    totals.append(text::decimal_text(minutes as u64).as_str());
    totals.append(" min (~");
    totals.append(hours_with_tenth(minutes).as_str());
    totals.append(" h)\n\n");
    out.append(totals.as_str());
    let ghost all = book.parts.deep_view();
    let n: usize = book.parts.len();
    let mut s = String::new();
    for i in 0..n
        invariant
            n == book.parts@.len(),
            all == book.parts.deep_view(),
            s@ == part_lines(all, i as nat),
    {
        let p = &book.parts[i];
        assert(all[i as int] == p.deep_view());
        let mut line = text::decimal_text(i as u64 + 1);
        line.append(". ");
        line.append(p.title.as_str());
        line.append(" (");
        line.append(minutes_of(p.duration_in_minutes).as_str());
        line.append(" min)\n");
        s.append(line.as_str());
        s.append(outline_modules(&p.modules).as_str());
        s.append("\n");
    }
    out.append(s.as_str());
    out
}

// ---------------------------------------------------------------------------
// JSON
// ---------------------------------------------------------------------------

/// A text inside a JSON string.
pub open spec fn quoted(s: Seq<char>) -> Seq<char> {
    text::replaced(text::replaced(s, "\\"@, "\\\\"@), "\""@, "\\\""@)
}

/// The separator before the `n`th item of a list, counted from one.
pub open spec fn comma_before(n: nat) -> Seq<char> {
    if n > 1 {
        ","@
    } else {
        Seq::empty()
    }
}

pub open spec fn uid_and_title(uid: Seq<char>, title: Seq<char>) -> Seq<char> {
    "{\"uid\":\""@ + quoted(uid) + "\",\"title\":\""@ + quoted(title) + "\",\""@
}

pub open spec fn units_json(units: Seq<UnitView>, n: nat) -> Seq<char>
    decreases n,
{
    if n == 0 {
        Seq::empty()
    } else {
        let u = units[n - 1];
        units_json(units, (n - 1) as nat) + comma_before(n) + uid_and_title(u.uid, u.title)
            + "kc\":"@ + (if u.is_knowledge_check {
            "true"@
        } else {
            "false"@
        }) + "}"@
    }
}

pub open spec fn modules_json(modules: Seq<ModuleView>, n: nat) -> Seq<char>
    decreases n,
{
    if n == 0 {
        Seq::empty()
    } else {
        let m = modules[n - 1];
        modules_json(modules, (n - 1) as nat) + comma_before(n) + uid_and_title(m.uid, m.title)
            + "units\":["@ + units_json(m.units, m.units.len()) + "]}"@
    }
}

pub open spec fn parts_json(parts: Seq<PartView>, n: nat) -> Seq<char>
    decreases n,
{
    if n == 0 {
        Seq::empty()
    } else {
        let p = parts[n - 1];
        parts_json(parts, (n - 1) as nat) + comma_before(n) + uid_and_title(p.uid, p.title)
            + "modules\":["@ + modules_json(p.modules, p.modules.len()) + "]}"@
    }
}

/// A book as JSON.
pub open spec fn book_json(b: BookView) -> Seq<char> {
    "{\"cert_uid\":\""@ + quoted(b.cert_uid) + "\",\"title\":\""@ + quoted(b.title)
        + "\",\"parts\":["@ + parts_json(b.parts, b.parts.len()) + "]}"@
}

fn quote(s: &str) -> (r: String)
    ensures
        r@ == quoted(s@),
{
    proof {
        reveal_strlit("\\");
        reveal_strlit("\"");
    }
    let once = text::replace_all(text::chars_of(s).as_slice(), "\\", "\\\\");
    text::replace_all(text::chars_of(once.as_str()).as_slice(), "\"", "\\\"")
}

fn push_comma(out: &mut String, i: usize)
    ensures
        final(out)@ == old(out)@ + comma_before((i + 1) as nat),
{
    if i > 0 {
        out.append(",");
    } else {
        assert(out@ =~= out@ + Seq::<char>::empty());
    }
}

fn open_object(uid: &str, title: &str) -> (r: String)
    ensures
        r@ == uid_and_title(uid@, title@),
{
    let mut s = "{\"uid\":\"".to_owned();
    s.append(quote(uid).as_str());
    s.append("\",\"title\":\"");
    s.append(quote(title).as_str());
    s.append("\",\"");
    s
}

fn json_of_units(units: &Vec<UnitNode>) -> (r: String)
    ensures
        r@ == units_json(units.deep_view(), units@.len()),
{
    let ghost all = units.deep_view();
    let n: usize = units.len();
    let mut s = String::new();
    for i in 0..n
        invariant
            n == units@.len(),
            all == units.deep_view(),
            s@ == units_json(all, i as nat),
    {
        let u = &units[i];
        assert(all[i as int] == u.deep_view());
        push_comma(&mut s, i);
        s.append(open_object(u.uid.as_str(), u.title.as_str()).as_str());
        s.append("kc\":");
        if u.is_knowledge_check {
            s.append("true");
        } else {
            s.append("false");
        }
        s.append("}");
    }
    s
}

fn json_of_modules(modules: &Vec<ModuleNode>) -> (r: String)
    ensures
        r@ == modules_json(modules.deep_view(), modules@.len()),
{
    let ghost all = modules.deep_view();
    let n: usize = modules.len();
    let mut s = String::new();
    for i in 0..n
        invariant
            n == modules@.len(),
            all == modules.deep_view(),
            s@ == modules_json(all, i as nat),
    {
        let m = &modules[i];
        assert(all[i as int] == m.deep_view());
        push_comma(&mut s, i);
        s.append(open_object(m.uid.as_str(), m.title.as_str()).as_str());
        s.append("units\":[");
        s.append(json_of_units(&m.units).as_str());
        s.append("]}");
    }
    s
}

fn json_of_parts(parts: &Vec<Part>) -> (r: String)
    ensures
        r@ == parts_json(parts.deep_view(), parts@.len()),
{
    let ghost all = parts.deep_view();
    let n: usize = parts.len();
    let mut s = String::new();
    for i in 0..n
        invariant
            n == parts@.len(),
            all == parts.deep_view(),
            s@ == parts_json(all, i as nat),
    {
        let p = &parts[i];
        assert(all[i as int] == p.deep_view());
        push_comma(&mut s, i);
        s.append(open_object(p.uid.as_str(), p.title.as_str()).as_str());
        s.append("modules\":[");
        s.append(json_of_modules(&p.modules).as_str());
        s.append("]}");
    }
    s
}

/// Minimal JSON of the resolved tree, for piping into other tools.
pub fn to_debug_json(book: &Book) -> (r: String)
    ensures
        r@ == book_json(book.deep_view()),
{
    let mut s = "{\"cert_uid\":\"".to_owned();
    s.append(quote(book.cert_uid.as_str()).as_str());
    s.append("\",\"title\":\"");
    s.append(quote(book.title.as_str()).as_str());
    s.append("\",\"parts\":[");
    s.append(json_of_parts(&book.parts).as_str());
    s.append("]}");
    s
}

// ---------------------------------------------------------------------------
// Laws
// ---------------------------------------------------------------------------

/// Hours are the nearest to the minutes: whole ones are at most half an hour off, and tenths at
/// most half of a tenth.
pub proof fn law_hours_are_the_nearest(minutes: nat)
    ensures
        60 * whole_hours(minutes) <= minutes + 30,
        minutes <= 60 * whole_hours(minutes) + 30,
        6 * tenths_of_hours(minutes) <= minutes + 3,
        minutes <= 6 * tenths_of_hours(minutes) + 3,
        minutes % 60 == 30 ==> whole_hours(minutes) % 2 == 0,
{
}

/// The lines of the first units, modules or parts are the beginning of the lines of more of them.
proof fn lemma_unit_lines_begin(units: Seq<UnitView>, n: nat, i: nat)
    requires
        i <= n <= units.len(),
    ensures
        text::has_prefix(unit_lines(units, n), unit_lines(units, i)),
    decreases n,
{
    text::lemma_ends(unit_lines(units, n), Seq::empty());
    if i < n {
        lemma_unit_lines_begin(units, (n - 1) as nat, i);
        text::lemma_prefix_cat(
            unit_lines(units, i),
            unit_lines(units, (n - 1) as nat),
            unit_line(units[n - 1]),
        );
    }
}

/// The outline lists the units of a module in its order: the lines up to a unit end with that
/// unit, with its title and its minutes, and are the beginning of all lines.
pub proof fn law_outline_lists_units_in_order(units: Seq<UnitView>, i: int)
    requires
        0 <= i < units.len(),
    ensures
        text::has_prefix(unit_lines(units, units.len()), unit_lines(units, (i + 1) as nat)),
        !units[i].is_knowledge_check ==> text::has_suffix(
            unit_lines(units, (i + 1) as nat),
            "        . "@ + units[i].title + ""@ + " ("@ + minutes_text(
                units[i].duration_in_minutes,
            ) + " min)\n"@,
        ),
        units[i].is_knowledge_check ==> text::has_suffix(
            unit_lines(units, (i + 1) as nat),
            "        . "@ + units[i].title + "  [KC]"@ + " ("@ + minutes_text(
                units[i].duration_in_minutes,
            ) + " min)\n"@,
        ),
{
    lemma_unit_lines_begin(units, units.len(), (i + 1) as nat);
    text::lemma_ends(unit_lines(units, i as nat), unit_line(units[i]));
}

proof fn lemma_module_lines_begin(modules: Seq<ModuleView>, n: nat, i: nat)
    requires
        i <= n <= modules.len(),
    ensures
        text::has_prefix(module_lines(modules, n), module_lines(modules, i)),
    decreases n,
{
    text::lemma_ends(module_lines(modules, n), Seq::empty());
    if i < n {
        lemma_module_lines_begin(modules, (n - 1) as nat, i);
        let before = module_lines(modules, (n - 1) as nat);
        let m = modules[n - 1];
        let head = "    - "@ + m.title + " ("@ + minutes_text(m.duration_in_minutes) + " min)\n"@;
        text::lemma_prefix_cat(module_lines(modules, i), before, head);
        text::lemma_prefix_cat(
            module_lines(modules, i),
            before + head,
            unit_lines(m.units, m.units.len()),
        );
    }
}

/// The outline lists the modules of a part in its order, each with its units below it.
pub proof fn law_outline_lists_modules_in_order(modules: Seq<ModuleView>, i: int)
    requires
        0 <= i < modules.len(),
    ensures
        text::has_prefix(module_lines(modules, modules.len()), module_lines(modules, (i + 1) as nat)),
        text::has_suffix(
            module_lines(modules, (i + 1) as nat),
            ("    - "@ + modules[i].title + " ("@ + minutes_text(modules[i].duration_in_minutes)
                + " min)\n"@) + unit_lines(modules[i].units, modules[i].units.len()),
        ),
{
    lemma_module_lines_begin(modules, modules.len(), (i + 1) as nat);
    let m = modules[i];
    let before = module_lines(modules, i as nat);
    let head = "    - "@ + m.title + " ("@ + minutes_text(m.duration_in_minutes) + " min)\n"@;
    let units = unit_lines(m.units, m.units.len());
    text::lemma_cat_assoc(before, head, units);
    text::lemma_ends(before, head + units);
}

proof fn lemma_part_lines_begin(parts: Seq<PartView>, n: nat, i: nat)
    requires
        i <= n <= parts.len(),
    ensures
        text::has_prefix(part_lines(parts, n), part_lines(parts, i)),
    decreases n,
{
    text::lemma_ends(part_lines(parts, n), Seq::empty());
    if i < n {
        lemma_part_lines_begin(parts, (n - 1) as nat, i);
        let before = part_lines(parts, (n - 1) as nat);
        let p = parts[n - 1];
        let head = text::decimal(n) + ". "@ + p.title + " ("@ + minutes_text(p.duration_in_minutes)
            + " min)\n"@;
        let modules = module_lines(p.modules, p.modules.len());
        text::lemma_prefix_cat(part_lines(parts, i), before, head);
        text::lemma_prefix_cat(part_lines(parts, i), before + head, modules);
        text::lemma_prefix_cat(part_lines(parts, i), before + head + modules, "\n"@);
    }
}

/// The outline lists the parts of a book in its order, numbered from one, each with its modules
/// below it.
pub proof fn law_outline_lists_parts_in_order(b: BookView, i: int)
    requires
        0 <= i < b.parts.len(),
    ensures
        text::has_suffix(outline_text(b), part_lines(b.parts, b.parts.len())),
        text::has_prefix(part_lines(b.parts, b.parts.len()), part_lines(b.parts, (i + 1) as nat)),
        text::has_suffix(
            part_lines(b.parts, (i + 1) as nat),
            (text::decimal((i + 1) as nat) + ". "@ + b.parts[i].title + " ("@ + minutes_text(
                b.parts[i].duration_in_minutes,
            ) + " min)\n"@) + module_lines(b.parts[i].modules, b.parts[i].modules.len()) + "\n"@,
        ),
{
    lemma_part_lines_begin(b.parts, b.parts.len(), (i + 1) as nat);
    let p = b.parts[i];
    let before = part_lines(b.parts, i as nat);
    let head = text::decimal((i + 1) as nat) + ". "@ + p.title + " ("@ + minutes_text(
        p.duration_in_minutes,
    ) + " min)\n"@;
    let modules = module_lines(p.modules, p.modules.len());
    text::lemma_cat_assoc(before, head, modules);
    text::lemma_cat_assoc(before, head + modules, "\n"@);
    text::lemma_ends(before, head + modules + "\n"@);
    text::lemma_ends(
        (b.title + "  ["@ + b.cert_uid + "]\n"@) + totals_line(b),
        part_lines(b.parts, b.parts.len()),
    );
}

/// The outline says what the book is and how much it holds.
pub proof fn law_outline_says_the_totals(b: BookView)
    ensures
        text::has_prefix(outline_text(b), b.title + "  ["@ + b.cert_uid + "]\n"@),
        text::contains_text(
            outline_text(b),
            text::decimal(b.parts.len()) + " parts, "@ + text::decimal(b.module_count())
                + " modules, "@ + text::decimal(b.unit_count()) + " units, ~"@ + text::decimal(
                b.total_minutes(),
            ) + " min"@,
        ),
{
    let head = b.title + "  ["@ + b.cert_uid + "]\n"@;
    let parts = part_lines(b.parts, b.parts.len());
    text::lemma_ends(head, totals_line(b));
    text::lemma_prefix_cat(head, head + totals_line(b), parts);
    let w = text::decimal(b.parts.len()) + " parts, "@ + text::decimal(b.module_count())
        + " modules, "@ + text::decimal(b.unit_count()) + " units, ~"@ + text::decimal(
        b.total_minutes(),
    ) + " min"@;
    reveal_strlit(" min (~");
    reveal_strlit(" min");
    reveal_strlit(" (~");
    assert(" min (~"@ =~= " min"@ + " (~"@);
    let front = text::decimal(b.parts.len()) + " parts, "@ + text::decimal(b.module_count())
        + " modules, "@ + text::decimal(b.unit_count()) + " units, ~"@ + text::decimal(
        b.total_minutes(),
    );
    text::lemma_cat_assoc(front, " min"@, " (~"@);
    text::lemma_contains_cat(w, " (~"@, w);
    text::lemma_contains_cat(w + " (~"@, hours_text(b.total_minutes()), w);
    text::lemma_contains_cat(w + " (~"@ + hours_text(b.total_minutes()), " h)\n\n"@, w);
    text::lemma_contains_cat(w, w, w);
    text::lemma_contains_cat(head, totals_line(b), w);
    text::lemma_contains_cat(head + totals_line(b), parts, w);
}

proof fn lemma_units_json_begin(units: Seq<UnitView>, n: nat, i: nat)
    requires
        i <= n <= units.len(),
    ensures
        text::has_prefix(units_json(units, n), units_json(units, i)),
    decreases n,
{
    text::lemma_ends(units_json(units, n), Seq::empty());
    if i < n {
        lemma_units_json_begin(units, (n - 1) as nat, i);
        let u = units[n - 1];
        let p = units_json(units, i);
        let b = units_json(units, (n - 1) as nat);
        let kc = if u.is_knowledge_check {
            "true"@
        } else {
            "false"@
        };
        text::lemma_prefix_cat(p, b, comma_before(n));
        text::lemma_prefix_cat(p, b + comma_before(n), uid_and_title(u.uid, u.title));
        text::lemma_prefix_cat(
            p,
            b + comma_before(n) + uid_and_title(u.uid, u.title),
            "kc\":"@,
        );
        text::lemma_prefix_cat(
            p,
            b + comma_before(n) + uid_and_title(u.uid, u.title) + "kc\":"@,
            kc,
        );
        text::lemma_prefix_cat(
            p,
            b + comma_before(n) + uid_and_title(u.uid, u.title) + "kc\":"@ + kc,
            "}"@,
        );
    }
}

/// The JSON of a module lists its units in its order: what is listed up to a unit ends with that
/// unit, with its uid, its title and whether it is a knowledge check, and is the beginning of the
/// list.
pub proof fn law_json_lists_units_in_order(units: Seq<UnitView>, i: int)
    requires
        0 <= i < units.len(),
    ensures
        text::has_prefix(units_json(units, units.len()), units_json(units, (i + 1) as nat)),
        units[i].is_knowledge_check ==> text::has_suffix(
            units_json(units, (i + 1) as nat),
            ("{\"uid\":\""@ + quoted(units[i].uid) + "\",\"title\":\""@ + quoted(units[i].title)
                + "\",\""@) + "kc\":"@ + "true"@ + "}"@,
        ),
        !units[i].is_knowledge_check ==> text::has_suffix(
            units_json(units, (i + 1) as nat),
            ("{\"uid\":\""@ + quoted(units[i].uid) + "\",\"title\":\""@ + quoted(units[i].title)
                + "\",\""@) + "kc\":"@ + "false"@ + "}"@,
        ),
{
    lemma_units_json_begin(units, units.len(), (i + 1) as nat);
    let u = units[i];
    let kc = if u.is_knowledge_check {
        "true"@
    } else {
        "false"@
    };
    let f = units_json(units, i as nat) + comma_before((i + 1) as nat);
    let a = uid_and_title(u.uid, u.title);
    text::lemma_cat_assoc(f, a, "kc\":"@);
    text::lemma_cat_assoc(f, a + "kc\":"@, kc);
    text::lemma_cat_assoc(f, a + "kc\":"@ + kc, "}"@);
    text::lemma_ends(f, a + "kc\":"@ + kc + "}"@);
}

proof fn lemma_modules_json_begin(modules: Seq<ModuleView>, n: nat, i: nat)
    requires
        i <= n <= modules.len(),
    ensures
        text::has_prefix(modules_json(modules, n), modules_json(modules, i)),
    decreases n,
{
    text::lemma_ends(modules_json(modules, n), Seq::empty());
    if i < n {
        lemma_modules_json_begin(modules, (n - 1) as nat, i);
        let m = modules[n - 1];
        let p = modules_json(modules, i);
        let b = modules_json(modules, (n - 1) as nat);
        let c = comma_before(n);
        let a = uid_and_title(m.uid, m.title);
        let u = units_json(m.units, m.units.len());
        text::lemma_prefix_cat(p, b, c);
        text::lemma_prefix_cat(p, b + c, a);
        text::lemma_prefix_cat(p, b + c + a, "units\":["@);
        text::lemma_prefix_cat(p, b + c + a + "units\":["@, u);
        text::lemma_prefix_cat(p, b + c + a + "units\":["@ + u, "]}"@);
    }
}

/// The JSON of a part lists its modules in its order, each with all its units.
pub proof fn law_json_lists_modules_in_order(modules: Seq<ModuleView>, i: int)
    requires
        0 <= i < modules.len(),
    ensures
        text::has_prefix(modules_json(modules, modules.len()), modules_json(modules, (i + 1) as nat)),
        text::has_suffix(
            modules_json(modules, (i + 1) as nat),
            ("{\"uid\":\""@ + quoted(modules[i].uid) + "\",\"title\":\""@ + quoted(modules[i].title)
                + "\",\""@) + "units\":["@ + units_json(modules[i].units, modules[i].units.len())
                + "]}"@,
        ),
{
    lemma_modules_json_begin(modules, modules.len(), (i + 1) as nat);
    let m = modules[i];
    let f = modules_json(modules, i as nat) + comma_before((i + 1) as nat);
    let a = uid_and_title(m.uid, m.title);
    let u = units_json(m.units, m.units.len());
    text::lemma_cat_assoc(f, a, "units\":["@);
    text::lemma_cat_assoc(f, a + "units\":["@, u);
    text::lemma_cat_assoc(f, a + "units\":["@ + u, "]}"@);
    text::lemma_ends(f, a + "units\":["@ + u + "]}"@);
}

proof fn lemma_parts_json_begin(parts: Seq<PartView>, n: nat, i: nat)
    requires
        i <= n <= parts.len(),
    ensures
        text::has_prefix(parts_json(parts, n), parts_json(parts, i)),
    decreases n,
{
    text::lemma_ends(parts_json(parts, n), Seq::empty());
    if i < n {
        lemma_parts_json_begin(parts, (n - 1) as nat, i);
        let m = parts[n - 1];
        let p = parts_json(parts, i);
        let b = parts_json(parts, (n - 1) as nat);
        let c = comma_before(n);
        let a = uid_and_title(m.uid, m.title);
        let u = modules_json(m.modules, m.modules.len());
        text::lemma_prefix_cat(p, b, c);
        text::lemma_prefix_cat(p, b + c, a);
        text::lemma_prefix_cat(p, b + c + a, "modules\":["@);
        text::lemma_prefix_cat(p, b + c + a + "modules\":["@, u);
        text::lemma_prefix_cat(p, b + c + a + "modules\":["@ + u, "]}"@);
    }
}

/// The JSON of a book names it and lists its parts in its order, each with all its modules.
pub proof fn law_json_lists_parts_in_order(b: BookView, i: int)
    requires
        0 <= i < b.parts.len(),
    ensures
        text::has_prefix(
            book_json(b),
            "{\"cert_uid\":\""@ + quoted(b.cert_uid) + "\",\"title\":\""@ + quoted(b.title)
                + "\",\"parts\":["@ + parts_json(b.parts, b.parts.len()),
        ),
        text::has_prefix(parts_json(b.parts, b.parts.len()), parts_json(b.parts, (i + 1) as nat)),
        text::has_suffix(
            parts_json(b.parts, (i + 1) as nat),
            ("{\"uid\":\""@ + quoted(b.parts[i].uid) + "\",\"title\":\""@ + quoted(
                b.parts[i].title,
            ) + "\",\""@) + "modules\":["@ + modules_json(
                b.parts[i].modules,
                b.parts[i].modules.len(),
            ) + "]}"@,
        ),
{
    lemma_parts_json_begin(b.parts, b.parts.len(), (i + 1) as nat);
    let p = b.parts[i];
    let f = parts_json(b.parts, i as nat) + comma_before((i + 1) as nat);
    let a = uid_and_title(p.uid, p.title);
    let u = modules_json(p.modules, p.modules.len());
    text::lemma_cat_assoc(f, a, "modules\":["@);
    text::lemma_cat_assoc(f, a + "modules\":["@, u);
    text::lemma_cat_assoc(f, a + "modules\":["@ + u, "]}"@);
    text::lemma_ends(f, a + "modules\":["@ + u + "]}"@);
    text::lemma_ends(
        "{\"cert_uid\":\""@ + quoted(b.cert_uid) + "\",\"title\":\""@ + quoted(b.title)
            + "\",\"parts\":["@ + parts_json(b.parts, b.parts.len()),
        "]}"@,
    );
}

/// A JSON string holds its text character by character: quotes and backslashes behind a
/// backslash, every other character as it is.
pub proof fn law_quoting_keeps_the_text(a: Seq<char>, c: char, b: Seq<char>)
    ensures
        quoted(a + seq![c] + b) == quoted(a) + (if c == '"' {
            seq!['\\', '"']
        } else if c == '\\' {
            seq!['\\', '\\']
        } else {
            seq![c]
        }) + quoted(b),
        quoted(Seq::empty()) == Seq::<char>::empty(),
{
    lemma_quotes();
    let x = text::replaced(a, "\\"@, "\\\\"@);
    let y = text::replaced(b, "\\"@, "\\\\"@);
    let back = seq!['\\'];
    let none = Seq::<char>::empty();
    text::law_replacing_a_character(a, '\\', b, c, "\\\\"@);
    lemma_nothing_quoted();
    if c == '\\' {
        lemma_twice(x, back, y);
        lemma_twice(quoted(a), back, quoted(b));
        assert(none + back == back);
        text::law_replacing_a_character(x, '"', back + y, '\\', "\\\""@);
        text::law_replacing_a_character(none, '"', y, '\\', "\\\""@);
    } else {
        text::law_replacing_a_character(x, '"', y, c, "\\\""@);
    }
}

proof fn lemma_twice(x: Seq<char>, b: Seq<char>, y: Seq<char>)
    ensures
        x + (b + b) + y == x + b + (b + y),
{
    assert(x + (b + b) + y =~= x + b + (b + y));
}

proof fn lemma_quotes()
    ensures
        "\\"@ == seq!['\\'],
        "\""@ == seq!['"'],
        "\\\\"@ == seq!['\\', '\\'],
        "\\\\"@ == seq!['\\'] + seq!['\\'],
        "\\\""@ == seq!['\\', '"'],
{
    reveal_strlit("\\");
    reveal_strlit("\\\\");
    reveal_strlit("\"");
    reveal_strlit("\\\"");
}

proof fn lemma_nothing_quoted()
    ensures
        text::replaced(Seq::empty(), "\\"@, "\\\\"@) == Seq::<char>::empty(),
        text::replaced(Seq::empty(), "\""@, "\\\""@) == Seq::<char>::empty(),
{
    reveal_strlit("\\");
    reveal_strlit("\"");
    text::law_nothing_to_replace(Seq::empty(), "\\"@, "\\\\"@);
    text::law_nothing_to_replace(Seq::empty(), "\""@, "\\\""@);
}

} // verus!
