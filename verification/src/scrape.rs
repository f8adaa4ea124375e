//! Fallback content source for modules whose markdown is not in the public content repository.
//!
//! Microsoft Learn serves each unit's original authored markdown at
//! `<unit-url>?accept=text/markdown`. It goes through the very same conversion as a unit of the
//! repository, so that both are formatted identically. Two quirks are normalised here: a YAML
//! frontmatter block and a metadata preamble are stripped, and images with a unit-relative path
//! get an absolute URL.

use crate::markdown;
use crate::text;
use vstd::prelude::*;
use vstd::slice::slice_subrange;
use vstd::string::*;

verus! {

broadcast use vstd::seq_lib::group_seq_properties;

// ---------------------------------------------------------------------------
// Frontmatter
// ---------------------------------------------------------------------------

/// Markdown without a leading YAML frontmatter block.
pub open spec fn without_frontmatter(md: Seq<char>) -> Seq<char> {
    let t = text::trim_start_of(md, "\u{feff}\r\n "@);
    match text::without_prefix(t, "---"@) {
        Some(rest) => match text::find_from(rest, "\n---"@, 0) {
            Some(end) => text::trim_start_of(rest.skip(end + "\n---"@.len()), "\r\n"@),
            None => md,
        },
        None => md,
    }
}

/// Strips a leading YAML frontmatter block (`---` ... `---`) if present.
pub fn strip_frontmatter(md: &str) -> (r: String)
    ensures
        r@ == without_frontmatter(md@),
{
    proof {
        reveal_strlit("\n---");
    }
    let cs = text::chars_of(md);
    let t = text::trimmed_start_of(cs.as_slice(), "\u{feff}\r\n ");
    if let Some(rest) = text::strip_prefix(t, "---") {
        if let Some(end) = text::find_str(rest, "\n---", 0) {
            let total: usize = rest.len();
            let body = slice_subrange(rest, end + 4, total);
            assert(body@ =~= rest@.skip(end + 4));
            return text::text_of(text::trimmed_start_of(body, "\r\n"));
        }
    }
    md.to_owned()
}

// ---------------------------------------------------------------------------
// Preamble
// ---------------------------------------------------------------------------

/// A metadata line `- N minutes`.
pub open spec fn minutes_line(t: Seq<char>) -> bool {
    match text::without_prefix(t, "- "@) {
        Some(r) => {
            let n = match text::without_suffix(r, " minutes"@) {
                Some(n) => Some(n),
                None => text::without_suffix(r, " minute"@),
            };
            n is Some && n->Some_0.len() > 0 && text::all_digits(n->Some_0)
        },
        None => false,
    }
}

pub fn is_minutes_line(t: &[char]) -> (r: bool)
    ensures
        r == minutes_line(t@),
{
    match text::strip_prefix(t, "- ") {
        Some(r) => match text::strip_suffix(r, " minutes") {
            Some(n) => n.len() > 0 && text::only_digits(n),
            None => match text::strip_suffix(r, " minute") {
                Some(n) => n.len() > 0 && text::only_digits(n),
                None => false,
            },
        },
        None => false,
    }
}

/// A line may be the title of the unit: one of the first three, and a top heading.
pub open spec fn title_line(lines: Seq<Seq<char>>, i: int) -> bool {
    i < 3 && text::has_prefix(text::trim(lines[i]), "# "@)
}

/// A title stands among the first `n` lines.
pub open spec fn title_seen(lines: Seq<Seq<char>>, n: nat) -> bool
    decreases n,
{
    n > 0 && (title_seen(lines, (n - 1) as nat) || title_line(lines, n - 1))
}

/// A line is metadata: one of the first eight, and `Completed` or a number of minutes.
pub open spec fn metadata_line(lines: Seq<Seq<char>>, i: int) -> bool {
    let t = text::trim(lines[i]);
    i < 8 && (t == "Completed"@ || minutes_line(t))
}

/// The first `n` lines without the title, which is the first that may be one, and without
/// metadata.
pub open spec fn content_lines(lines: Seq<Seq<char>>, n: nat) -> Seq<Seq<char>>
    decreases n,
{
    if n == 0 {
        Seq::empty()
    } else {
        let before = content_lines(lines, (n - 1) as nat);
        let title = title_line(lines, n - 1) && !title_seen(lines, (n - 1) as nat);
        if title || metadata_line(lines, n - 1) {
            before
        } else {
            before.push(lines[n - 1])
        }
    }
}

/// A unit's markdown without its preamble.
pub open spec fn without_preamble(body: Seq<char>) -> Seq<char> {
    let lines = text::lines(body);
    text::trim_start(text::join(content_lines(lines, lines.len()), "\n"@))
}

/// Drops the preamble Learn injects at the top of each unit's exported markdown: the leading
/// `# <title>` heading (the chapter renders the unit's title as its own heading) and the
/// `Completed` and `- N minutes` metadata. Only the first few lines are touched, so real content
/// headings are safe.
pub fn strip_unit_preamble(body: &str) -> (r: String)
    ensures
        r@ == without_preamble(body@),
{
    let lines = text::lines_of(text::chars_of(body).as_slice());
    let ghost all = lines.deep_view();
    let n: usize = lines.len();
    let mut kept: Vec<String> = Vec::new();
    let mut dropped_title = false;
    for i in 0..n
        invariant
            n == lines@.len(),
            all == lines.deep_view(),
            dropped_title == title_seen(all, i as nat),
            kept.deep_view() =~= content_lines(all, i as nat),
    {
        assert(all[i as int] == lines@[i as int]@);
        let cs = text::chars_of(lines[i].as_str());
        let t = text::trimmed(cs.as_slice());
        let title = i < 3 && text::starts_with(t, "# ");
        let metadata = i < 8 && (text::same_text(text::text_of(t).as_str(), "Completed")
            || is_minutes_line(t));
        if !((title && !dropped_title) || metadata) {
            text::push_item(&mut kept, lines[i].clone());
        }
        if title {
            dropped_title = true;
        }
    }
    let joined = text::join_texts(&kept, "\n");
    text::text_of(text::trimmed_start(text::chars_of(joined.as_str()).as_slice()))
}

// ---------------------------------------------------------------------------
// Alerts
// ---------------------------------------------------------------------------

/// The keyword of an alert.
pub open spec fn is_keyword(s: Seq<char>) -> bool {
    ||| s == "Note"@
    ||| s == "Tip"@
    ||| s == "Important"@
    ||| s == "Warning"@
    ||| s == "Caution"@
}

fn keyword(s: &str) -> (r: bool)
    ensures
        r == is_keyword(s@),
{
    text::same_text(s, "Note") || text::same_text(s, "Tip") || text::same_text(s, "Important")
        || text::same_text(s, "Warning") || text::same_text(s, "Caution")
}

pub open spec fn is_blank(line: Seq<char>) -> bool {
    text::trim(line).len() == 0
}

fn blank(line: &str) -> (r: bool)
    ensures
        r == is_blank(line@),
{
    text::trimmed(text::chars_of(line).as_slice()).len() == 0
}

/// A keyword stands alone at line `i`, between blank lines.
pub open spec fn alert_at(lines: Seq<Seq<char>>, i: int) -> bool {
    &&& is_keyword(text::trim(lines[i]))
    &&& i == 0 || is_blank(lines[i - 1])
    &&& i + 1 < lines.len() && is_blank(lines[i + 1])
}

/// The end of the paragraph that begins at line `i`.
pub open spec fn paragraph_end(lines: Seq<Seq<char>>, i: int) -> int
    decreases lines.len() - i,
{
    if 0 <= i < lines.len() && !is_blank(lines[i]) {
        paragraph_end(lines, i + 1)
    } else {
        i
    }
}

pub proof fn lemma_paragraph_end(lines: Seq<Seq<char>>, i: int)
    requires
        0 <= i <= lines.len(),
    ensures
        i <= paragraph_end(lines, i) <= lines.len(),
    decreases lines.len() - i,
{
    if i < lines.len() && !is_blank(lines[i]) {
        lemma_paragraph_end(lines, i + 1);
    }
}

/// Lines `from` to `to` as a quotation.
pub open spec fn quoted_lines(lines: Seq<Seq<char>>, from: int, to: int) -> Seq<Seq<char>> {
    Seq::new((to - from) as nat, |k: int| "> "@ + lines[from + k])
}

/// The lines from `i` on, each flattened alert with its paragraph as a quotation again.
pub open spec fn rewrapped_from(lines: Seq<Seq<char>>, i: int) -> Seq<Seq<char>>
    decreases lines.len() - i,
{
    if i < 0 || i >= lines.len() {
        Seq::empty()
    } else {
        let end = paragraph_end(lines, i + 2);
        proof {
            if i + 2 <= lines.len() {
                lemma_paragraph_end(lines, i + 2);
            }
        }
        if alert_at(lines, i) && end > i + 2 {
            seq!["> [!"@ + text::uppered(text::trim(lines[i])) + "]"@] + quoted_lines(
                lines,
                i + 2,
                end,
            ) + rewrapped_from(lines, end)
        } else {
            seq![lines[i]] + rewrapped_from(lines, i + 1)
        }
    }
}

/// Markdown with its flattened alerts restored.
pub open spec fn rewrapped(md: Seq<char>) -> Seq<char> {
    text::join(rewrapped_from(text::lines(md), 0), "\n"@)
}

/// Learn's markdown export flattens `> [!IMPORTANT]` alerts to a bare keyword line followed by
/// the body. Wraps a standalone keyword (`Note`, `Tip`, `Important`, `Warning`, `Caution`,
/// delimited by blank lines) and its following paragraph back into the `> [!KEYWORD]` form, so
/// that it renders as the bold-labelled aside a public module gets.
pub fn rewrap_alerts(md: &str) -> (r: String)
    ensures
        r@ == rewrapped(md@),
{
    let lines = text::lines_of(text::chars_of(md).as_slice());
    let ghost all = lines.deep_view();
    let n: usize = lines.len();
    let mut out: Vec<String> = Vec::new();
    let mut i: usize = 0;
    assert(out.deep_view() + rewrapped_from(all, 0) =~= rewrapped_from(all, 0));
    while i < n
        invariant
            n == lines@.len(),
            all == lines.deep_view(),
            i <= n,
            out.deep_view() + rewrapped_from(all, i as int) == rewrapped_from(all, 0),
        decreases n - i,
    {
        let ghost before = out.deep_view();
        assert(all[i as int] == lines@[i as int]@);
        if i > 0 {
            assert(all[i - 1] == lines@[i - 1]@);
        }
        if i + 1 < n {
            assert(all[i + 1] == lines@[i + 1]@);
        }
        let cs = text::chars_of(lines[i].as_str());
        let kw = text::text_of(text::trimmed(cs.as_slice()));
        let standalone = keyword(kw.as_str()) && (i == 0 || blank(lines[i - 1].as_str())) && i + 1
            < n && blank(lines[i + 1].as_str());
        let mut end: usize = i;
        if standalone {
            end = i + 2;
            while end < n && !blank(lines[end].as_str())
                invariant
                    n == lines@.len(),
                    all == lines.deep_view(),
                    i + 2 <= end <= n,
                    paragraph_end(all, i + 2) == paragraph_end(all, end as int),
                decreases n - end,
            {
                assert(all[end as int] == lines@[end as int]@);
                end += 1;
            }
            if end < n {
                assert(all[end as int] == lines@[end as int]@);
            }
            assert(end == paragraph_end(all, i + 2));
        }
        if standalone && end > i + 2 {
            let mut head = "> [!".to_owned();
            head.append(text::uppercase(kw.as_str()).as_str());
            head.append("]");
            text::push_item(&mut out, head);
            let ghost first = before.push(head@);
            for j in (i + 2)..end
                invariant
                    n == lines@.len(),
                    all == lines.deep_view(),
                    i + 2 <= end <= n,
                    out.deep_view() =~= first + quoted_lines(all, i + 2, j as int),
            {
                assert(all[j as int] == lines@[j as int]@);
                let mut line = "> ".to_owned();
                line.append(lines[j].as_str());
                text::push_item(&mut out, line);
            }
            assert(out.deep_view() + rewrapped_from(all, end as int) =~= before + (seq![head@]
                + quoted_lines(all, i + 2, end as int) + rewrapped_from(all, end as int)));
            i = end;
        } else {
            text::push_item(&mut out, lines[i].clone());
            assert(out.deep_view() + rewrapped_from(all, i + 1) =~= before + (seq![all[i as int]]
                + rewrapped_from(all, i + 1)));
            i += 1;
        }
    }
    assert(out.deep_view() =~= rewrapped_from(all, 0));
    text::join_texts(&out, "\n")
}

// ---------------------------------------------------------------------------
// Media
// ---------------------------------------------------------------------------

/// Markdown with absolute targets for `](../../...)`.
pub open spec fn absolutized(md: Seq<char>, unit_url: Seq<char>) -> Seq<char> {
    match text::find_from(unit_url, "/training/"@, 0) {
        Some(i) => text::replaced(
            md,
            "](../../"@,
            "]("@ + unit_url.take(i + "/training/"@.len()),
        ),
        None => md,
    }
}

/// Rewrites Learn's unit-relative `](../../...)` image and link targets to absolute URLs: from a
/// `/training/modules/<m>/<unit>` page, `../../` is the `/training/` root.
pub fn absolutize_media(md: &str, unit_url: &str) -> (r: String)
    ensures
        r@ == absolutized(md@, unit_url@),
{
    proof {
        reveal_strlit("/training/");
        reveal_strlit("](../../");
    }
    let url = text::chars_of(unit_url);
    let total: usize = url.len();
    match text::find_str(url.as_slice(), "/training/", 0) {
        Some(i) => {
            assert(i + 10 <= total);
            let base = slice_subrange(url.as_slice(), 0, i + 10);
            assert(base@ =~= unit_url@.take(i + 10));
            let mut target = "](".to_owned();
            text::push_chars(&mut target, base);
            text::replace_all(text::chars_of(md).as_slice(), "](../../", target.as_str())
        },
        None => md.to_owned(),
    }
}

// ---------------------------------------------------------------------------
// A whole unit
// ---------------------------------------------------------------------------

/// The body of a unit's exported markdown.
pub open spec fn unit_body(raw_md: Seq<char>) -> Seq<char> {
    rewrapped(without_preamble(without_frontmatter(raw_md)))
}

/// The XHTML of a unit's exported markdown: none where its body is empty.
pub open spec fn unit_xhtml(raw_md: Seq<char>, unit_url: Seq<char>) -> Option<Seq<char>> {
    if text::trim(unit_body(raw_md)).len() == 0 {
        None
    } else {
        Some(markdown::xhtml_of(absolutized(unit_body(raw_md), unit_url), unit_url, unit_url))
    }
}

/// Where Learn serves the markdown of the unit at `unit_url`.
pub open spec fn markdown_url(unit_url: Seq<char>) -> Seq<char> {
    unit_url + "?accept=text/markdown"@
}

/// Where Learn serves the markdown of the unit at `unit_url`.
pub fn unit_markdown_endpoint(unit_url: &str) -> (r: String)
    ensures
        r@ == markdown_url(unit_url@),
{
    let mut s = unit_url.to_owned();
    s.append("?accept=text/markdown");
    s
}

/// Converts a unit's raw Learn markdown (from `?accept=text/markdown`) into XHTML, as a unit of
/// the repository is converted. `unit_url` is the absolute unit page URL. `None` if the body is
/// empty (e.g. an error page served as markdown).
pub fn unit_markdown_to_xhtml(raw_md: &str, unit_url: &str) -> (r: Option<String>)
    ensures
        r.deep_view() == unit_xhtml(raw_md@, unit_url@),
{
    let stripped = strip_unit_preamble(strip_frontmatter(raw_md).as_str());
    let body = rewrap_alerts(stripped.as_str());
    if text::trimmed(text::chars_of(body.as_str()).as_slice()).len() == 0 {
        return None;
    }
    let abs = absolutize_media(body.as_str(), unit_url);
    Some(markdown::markdown_to_xhtml_with_unit(abs.as_str(), unit_url, unit_url))
}

proof fn lemma_title_seen_same(a: Seq<Seq<char>>, b: Seq<Seq<char>>, n: nat)
    requires
        n <= a.len(),
    ensures
        title_seen(a + b, n) == title_seen(a, n),
        content_lines(a + b, n) == content_lines(a, n),
    decreases n,
{
    if n > 0 {
        lemma_title_seen_same(a, b, (n - 1) as nat);
        assert((a + b)[n - 1] == a[n - 1]);
    }
}

proof fn lemma_content_behind(a: Seq<Seq<char>>, b: Seq<Seq<char>>, n: nat)
    requires
        a.len() >= 8,
        n <= b.len(),
    ensures
        content_lines(a + b, a.len() + n) == content_lines(a, a.len()) + b.take(n as int),
    decreases n,
{
    if n == 0 {
        lemma_title_seen_same(a, b, a.len());
        assert(content_lines(a, a.len()) + b.take(0) =~= content_lines(a, a.len()));
    } else {
        lemma_content_behind(a, b, (n - 1) as nat);
        assert((a + b)[a.len() + n - 1] == b[n - 1]);
        assert(content_lines(a + b, a.len() + n) =~= content_lines(a, a.len()) + b.take(n as int));
    }
}

/// Only the first eight lines can be a preamble: all that stands behind them is kept, in order.
pub proof fn law_content_is_kept(a: Seq<Seq<char>>, b: Seq<Seq<char>>)
    requires
        a.len() >= 8,
    ensures
        content_lines(a + b, (a + b).len()) == content_lines(a, a.len()) + b,
{
    lemma_content_behind(a, b, b.len());
    assert(b.take(b.len() as int) =~= b);
}

/// A line that is neither a title nor metadata is kept wherever it stands.
pub proof fn law_ordinary_lines_are_kept(lines: Seq<Seq<char>>, n: nat, i: int)
    requires
        0 <= i < n <= lines.len(),
        !text::has_prefix(text::trim(lines[i]), "# "@),
        text::trim(lines[i]) != "Completed"@,
        !minutes_line(text::trim(lines[i])),
    ensures
        content_lines(lines, n).contains(lines[i]),
    decreases n,
{
    let before = content_lines(lines, (n - 1) as nat);
    let now = content_lines(lines, n);
    if i < n - 1 {
        law_ordinary_lines_are_kept(lines, (n - 1) as nat, i);
        let k = choose|k: int| 0 <= k < before.len() && before[k] == lines[i];
        assert(now[k] == lines[i]);
    } else {
        assert(now[before.len() as int] == lines[i]);
    }
}

/// The title of the unit, on the first line, is dropped, and no other heading is dropped with it.
pub proof fn law_one_title_is_dropped(lines: Seq<Seq<char>>, n: nat, i: int)
    requires
        0 < i < n <= lines.len(),
        text::has_prefix(text::trim(lines[0]), "# "@),
        text::has_prefix(text::trim(lines[i]), "# "@),
    ensures
        content_lines(lines, 1) == Seq::<Seq<char>>::empty(),
        content_lines(lines, n).contains(lines[i]),
    decreases n,
{
    reveal_with_fuel(content_lines, 2);
    lemma_title_stays_seen(lines, (n - 1) as nat);
    let before = content_lines(lines, (n - 1) as nat);
    let now = content_lines(lines, n);
    assert(!title_seen(lines, 0));
    if i < n - 1 {
        law_one_title_is_dropped(lines, (n - 1) as nat, i);
        let k = choose|k: int| 0 <= k < before.len() && before[k] == lines[i];
        assert(now[k] == lines[i]);
    } else {
        reveal_strlit("# ");
        reveal_strlit("Completed");
        reveal_strlit("- ");
        let t = text::trim(lines[i]);
        assert(t.subrange(0, 2)[0] == t[0]);
        if text::has_prefix(t, "- "@) {
            assert(t.subrange(0, 2)[0] == '-');
        }
        assert(!metadata_line(lines, i));
        assert(now[before.len() as int] == lines[i]);
    }
}

proof fn lemma_title_stays_seen(lines: Seq<Seq<char>>, n: nat)
    requires
        text::has_prefix(text::trim(lines[0]), "# "@),
    ensures
        n > 0 ==> title_seen(lines, n),
    decreases n,
{
    if n > 0 {
        lemma_title_stays_seen(lines, (n - 1) as nat);
    }
}

proof fn lemma_nothing_to_rewrap(lines: Seq<Seq<char>>, i: int)
    requires
        0 <= i <= lines.len(),
        forall|k: int| 0 <= k < lines.len() ==> !is_keyword(text::trim(#[trigger] lines[k])),
    ensures
        rewrapped_from(lines, i) == lines.skip(i),
    decreases lines.len() - i,
{
    if i < lines.len() {
        lemma_nothing_to_rewrap(lines, i + 1);
        assert(seq![lines[i]] + lines.skip(i + 1) =~= lines.skip(i));
    } else {
        assert(lines.skip(i) =~= Seq::<Seq<char>>::empty());
    }
}

/// Where no line is an alert's keyword, every line stays.
pub proof fn law_text_without_alerts_is_kept(lines: Seq<Seq<char>>)
    requires
        forall|k: int| 0 <= k < lines.len() ==> !is_keyword(text::trim(#[trigger] lines[k])),
    ensures
        rewrapped_from(lines, 0) == lines,
{
    lemma_nothing_to_rewrap(lines, 0);
    assert(lines.skip(0) =~= lines);
}

proof fn lemma_rewrap_prefix(lines: Seq<Seq<char>>, i: int, n: int)
    requires
        0 <= i <= n <= lines.len(),
        forall|k: int| i <= k < n ==> !is_keyword(text::trim(#[trigger] lines[k])),
    ensures
        rewrapped_from(lines, i) == lines.subrange(i, n) + rewrapped_from(lines, n),
    decreases n - i,
{
    if i < n {
        lemma_rewrap_prefix(lines, i + 1, n);
        assert(seq![lines[i]] + (lines.subrange(i + 1, n) + rewrapped_from(lines, n))
            =~= lines.subrange(i, n) + rewrapped_from(lines, n));
    } else {
        assert(lines.subrange(i, n) + rewrapped_from(lines, n) =~= rewrapped_from(lines, n));
    }
}

proof fn lemma_paragraph(lines: Seq<Seq<char>>, i: int, end: int)
    requires
        0 <= i <= end <= lines.len(),
        forall|k: int| i <= k < end ==> !is_blank(#[trigger] lines[k]),
        end == lines.len() || is_blank(lines[end]),
    ensures
        paragraph_end(lines, i) == end,
    decreases end - i,
{
    if i < end {
        lemma_paragraph(lines, i + 1, end);
    }
}

/// A keyword alone between blank lines, and the paragraph behind it, become a quotation with that
/// label: no line of the paragraph is lost, what stands before stays, and what follows is treated
/// in the same way.
pub proof fn law_an_alert_is_a_quotation_again(lines: Seq<Seq<char>>, i: int, end: int)
    requires
        0 <= i,
        i + 2 < end <= lines.len(),
        forall|k: int| 0 <= k < i ==> !is_keyword(text::trim(#[trigger] lines[k])),
        is_keyword(text::trim(lines[i])),
        i == 0 || is_blank(lines[i - 1]),
        is_blank(lines[i + 1]),
        forall|k: int| i + 2 <= k < end ==> !is_blank(#[trigger] lines[k]),
        end == lines.len() || is_blank(lines[end]),
    ensures
        rewrapped_from(lines, 0) == lines.take(i) + (seq![
            "> [!"@ + text::uppered(text::trim(lines[i])) + "]"@,
        ] + Seq::new((end - i - 2) as nat, |k: int| "> "@ + lines[i + 2 + k])
            + rewrapped_from(lines, end)),
{
    lemma_paragraph(lines, i + 2, end);
    lemma_rewrap_prefix(lines, 0, i);
    assert(lines.subrange(0, i) =~= lines.take(i));
    assert(quoted_lines(lines, i + 2, end) =~= Seq::new(
        (end - i - 2) as nat,
        |k: int| "> "@ + lines[i + 2 + k],
    ));
}

/// Text that opens with no frontmatter stays, and so does one whose frontmatter has no end.
pub proof fn law_no_frontmatter_to_strip(md: Seq<char>)
    requires
        !text::has_prefix(text::trim_start_of(md, "\u{feff}\r\n "@), "---"@)
            || !text::contains_text(
            text::trim_start_of(md, "\u{feff}\r\n "@).skip("---"@.len() as int),
            "\n---"@,
        ),
    ensures
        without_frontmatter(md) == md,
{
    let t = text::trim_start_of(md, "\u{feff}\r\n "@);
    if text::has_prefix(t, "---"@) {
        text::lemma_find_none(t.skip("---"@.len() as int), "\n---"@, 0);
    }
}

/// Frontmatter is dropped up to its end, and what follows is kept.
pub proof fn law_frontmatter_is_stripped(front: Seq<char>, body: Seq<char>)
    requires
        !text::contains_text(front, "\n---"@),
        body.len() > 0,
        body[0] != '\r' && body[0] != '\n',
    ensures
        without_frontmatter("---"@ + front + "\n---\n"@ + body) == body,
{
    reveal_strlit("---");
    reveal_strlit("\n---");
    reveal_strlit("\n---\n");
    reveal_strlit("\u{feff}\r\n ");
    reveal_strlit("\r\n");
    let md = "---"@ + front + "\n---\n"@ + body;
    assert(md[0] == '-');
    assert(!"\u{feff}\r\n "@.contains('-'));
    assert(md.subrange(0, 3) =~= "---"@);
    let rest = md.skip(3);
    let n = front.len() as int;
    let tail = seq!['\n'] + body;
    assert(rest =~= front + ("\n---"@ + tail));
    assert(text::starts_once("\n---"@));
    assert forall|i: int| 0 <= i < n implies !text::occurs_at(rest, "\n---"@, i) by {
        text::lemma_no_straddle(front, "\n---"@ + tail, "\n---"@, i);
    }
    assert(rest.subrange(n, n + 4) =~= "\n---"@);
    text::lemma_find_first(rest, "\n---"@, 0, n);
    assert(rest.skip(n + 4) =~= tail);
    assert("\r\n"@[1] == '\n');
    assert("\r\n"@.contains('\n'));
    assert(tail.skip(1) =~= body);
    assert(!"\r\n"@.contains(body[0]));
    assert(text::trim_start_of(tail, "\r\n"@) == text::trim_start_of(body, "\r\n"@));
}

/// Every link or image that is relative to the unit's page leads to the root that the page is
/// under, and what stands around it stays.
pub proof fn law_relative_media_are_made_absolute(
    a: Seq<char>,
    b: Seq<char>,
    root: Seq<char>,
    rest: Seq<char>,
)
    requires
        !text::contains_text(a, "](../../"@),
        forall|i: int|
            0 <= i < root.len() ==> !text::occurs_at(
                root + "/training/"@ + rest,
                "/training/"@,
                i,
            ),
    ensures
        absolutized(a + "](../../"@ + b, root + "/training/"@ + rest) == a + ("]("@ + root
            + "/training/"@) + absolutized(b, root + "/training/"@ + rest),
        absolutized(a, root + "/training/"@ + rest) == a,
{
    reveal_strlit("](../../");
    reveal_strlit("/training/");
    let url = root + "/training/"@ + rest;
    let n = root.len() as int;
    assert(url.subrange(n, n + 10) =~= "/training/"@);
    text::lemma_find_first(url, "/training/"@, 0, n);
    assert(url.take(n + 10) =~= root + "/training/"@);
    let by = "]("@ + url.take(n + 10);
    assert(by =~= "]("@ + root + "/training/"@);
    let needle = "](../../"@;
    assert(text::starts_once(needle));
    assert forall|i: int| 0 <= i < a.len() implies !text::occurs_at(a + needle + b, needle, i) by {
        assert(a + needle + b =~= a + (needle + b));
        text::lemma_no_straddle(a, needle + b, needle, i);
    }
    text::law_replaced(a, b, needle, by);
    text::law_nothing_to_replace(a, needle, by);
}

/// A line with a number of minutes is metadata, in the plural and in the singular; a line without
/// a number there is not.
pub proof fn law_minutes_line(n: Seq<char>)
    ensures
        minutes_line("- "@ + (n + " minutes"@)) <==> n.len() > 0 && text::all_digits(n),
        minutes_line("- "@ + (n + " minute"@)) <==> n.len() > 0 && text::all_digits(n),
        !text::has_prefix(n, "- "@) ==> !minutes_line(n),
{
    let r = n + " minute"@;
    assert(!text::has_suffix(r, " minutes"@)) by {
        reveal_strlit(" minutes");
        reveal_strlit(" minute");
        assert(r.last() == 'e');
        if text::has_suffix(r, " minutes"@) {
            assert(r.skip(r.len() - 8).last() == r.last());
        }
    }
    text::law_affixes_are_taken_off("- "@, n + " minutes"@);
    text::law_affixes_are_taken_off("- "@, r);
    text::law_affixes_are_taken_off("- "@, n);
    text::law_affixes_are_taken_off(" minutes"@, n);
    text::law_affixes_are_taken_off(" minute"@, n);
    text::law_affixes_are_taken_off(" minutes"@, r);
    assert(text::without_suffix(n + " minutes"@, " minutes"@) == Some(n));
    assert(text::without_suffix(r, " minutes"@) is None);
    assert(text::without_suffix(r, " minute"@) == Some(n));
}

/// What the preamble of a unit is: among the first eight lines, `Completed` and a number of minutes
/// are dropped, and among the first three, the first heading is.
pub proof fn law_what_a_preamble_is(lines: Seq<Seq<char>>, i: nat)
    requires
        i < lines.len(),
    ensures
        i < 8 && text::trim(lines[i as int]) == "Completed"@ ==> content_lines(lines, i + 1)
            == content_lines(lines, i),
        i < 8 && minutes_line(text::trim(lines[i as int])) ==> content_lines(lines, i + 1)
            == content_lines(lines, i),
        i < 3 && text::has_prefix(text::trim(lines[i as int]), "# "@) && (forall|j: int|
            0 <= j < i ==> !text::has_prefix(text::trim(#[trigger] lines[j]), "# "@))
            ==> content_lines(lines, i + 1) == content_lines(lines, i),
{
    if forall|j: int| 0 <= j < i ==> !text::has_prefix(text::trim(#[trigger] lines[j]), "# "@) {
        lemma_no_title(lines, i);
    }
}

proof fn lemma_no_title(lines: Seq<Seq<char>>, n: nat)
    requires
        n <= lines.len(),
        forall|j: int| 0 <= j < n ==> !text::has_prefix(text::trim(#[trigger] lines[j]), "# "@),
    ensures
        !title_seen(lines, n),
    decreases n,
{
    if n > 0 {
        lemma_no_title(lines, (n - 1) as nat);
        assert(!text::has_prefix(text::trim(lines[n - 1]), "# "@));
    }
}

} // verus!
