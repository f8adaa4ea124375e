//! What a user asks for: a certification, an exam, a learning path, a course or a module, as a
//! page URL, a uid or a bare code.

use crate::error;
use crate::error::ResolveError;
use crate::error::ResolveErrorView;
use crate::text;
use vstd::prelude::*;
use vstd::slice::slice_subrange;
use vstd::string::*;

verus! {

broadcast use vstd::seq_lib::group_seq_properties;

/// A classified user input: a certification, an exam, a single learning path, an instructor-led
/// course, or a single module.
#[derive(Debug, Clone, PartialEq, Eq)]
pub enum LearnInput {
    Cert(String),
    Exam(String),
    /// A single learning path, identified by its URL slug (`/training/paths/<slug>/`).
    Path(String),
    /// An instructor-led course, by its uid (`course.<code>`).
    Course(String),
    /// A single module, identified by its URL slug (`/training/modules/<slug>/`).
    Module(String),
}

/// What a [`LearnInput`] holds.
pub enum LearnInputView {
    Cert(Seq<char>),
    Exam(Seq<char>),
    Path(Seq<char>),
    Course(Seq<char>),
    Module(Seq<char>),
}

impl DeepView for LearnInput {
    type V = LearnInputView;

    open spec fn deep_view(&self) -> LearnInputView {
        match self {
            LearnInput::Cert(s) => LearnInputView::Cert(s@),
            LearnInput::Exam(s) => LearnInputView::Exam(s@),
            LearnInput::Path(s) => LearnInputView::Path(s@),
            LearnInput::Course(s) => LearnInputView::Course(s@),
            LearnInput::Module(s) => LearnInputView::Module(s@),
        }
    }
}

// ---------------------------------------------------------------------------
// URL segments
// ---------------------------------------------------------------------------

/// The parts among the first `n` that hold something.
pub open spec fn nonempty_first(parts: Seq<Seq<char>>, n: nat) -> Seq<Seq<char>>
    decreases n,
{
    if n == 0 {
        Seq::empty()
    } else {
        let before = nonempty_first(parts, (n - 1) as nat);
        if parts[n - 1].len() > 0 {
            before.push(parts[n - 1])
        } else {
            before
        }
    }
}

/// The segments of a URL: what stands between slashes, up to the query, without empty ones.
pub open spec fn segments(url: Seq<char>) -> Seq<Seq<char>> {
    let parts = text::split(text::before(url, '?'), '/');
    nonempty_first(parts, parts.len())
}

/// The segment that follows the first segment `name`, looking from position `from` on.
pub open spec fn segment_after(
    segs: Seq<Seq<char>>,
    name: Seq<char>,
    from: int,
) -> Option<Seq<char>>
    decreases segs.len() - from,
{
    if from < 0 || from >= segs.len() {
        None
    } else if segs[from] == name {
        if from + 1 < segs.len() {
            Some(segs[from + 1])
        } else {
            None
        }
    } else {
        segment_after(segs, name, from + 1)
    }
}

pub fn url_segments(url: &[char]) -> (r: Vec<String>)
    ensures
        r.deep_view() == segments(url@),
{
    let parts = text::split_char(text::before_char(url, '?'), '/');
    let ghost all = parts.deep_view();
    let n: usize = parts.len();
    let mut r: Vec<String> = Vec::new();
    for i in 0..n
        invariant
            n == parts@.len(),
            all == parts.deep_view(),
            r.deep_view() =~= nonempty_first(all, i as nat),
    {
        assert(all[i as int] == parts@[i as int]@);
        if !parts[i].as_str().is_empty() {
            text::push_item(&mut r, parts[i].clone());
        }
    }
    r
}

pub fn following_segment(segs: &Vec<String>, name: &str) -> (r: Option<String>)
    ensures
        r.deep_view() == segment_after(segs.deep_view(), name@, 0),
{
    let ghost all = segs.deep_view();
    let n: usize = segs.len();
    for i in 0..n
        invariant
            n == segs@.len(),
            all == segs.deep_view(),
            segment_after(all, name@, 0) == segment_after(all, name@, i as int),
    {
        assert(all[i as int] == segs@[i as int]@);
        if text::same_text(segs[i].as_str(), name) {
            if i + 1 < n {
                assert(all[i + 1] == segs@[i + 1]@);
                return Some(segs[i + 1].clone());
            }
            return None;
        }
    }
    None
}

// ---------------------------------------------------------------------------
// Exam codes
// ---------------------------------------------------------------------------

/// The characters of `s` that count in an exam code: all but spaces and hyphens.
pub open spec fn code_chars(s: Seq<char>) -> Seq<char>
    decreases s.len(),
{
    if s.len() == 0 {
        Seq::empty()
    } else if s.last() != ' ' && s.last() != '-' {
        code_chars(s.drop_last()).push(s.last())
    } else {
        code_chars(s.drop_last())
    }
}

/// Two letters followed by two to four digits.
pub open spec fn is_code(t: Seq<char>) -> bool {
    &&& 4 <= t.len() <= 6
    &&& text::is_alnum(t[0]) && !text::is_digit(t[0])
    &&& text::is_alnum(t[1]) && !text::is_digit(t[1])
    &&& text::all_digits(t.skip(2))
}

/// The canonical form of an exam code in lower case, where `lower` is one: spaces and hyphens do
/// not count.
pub open spec fn lower_code(lower: Seq<char>) -> Option<Seq<char>> {
    let t = code_chars(lower);
    if is_code(t) {
        Some(t.take(2) + "-"@ + t.skip(2))
    } else {
        None
    }
}

/// The canonical form of an exam code, where `s` is one: case, spaces and hyphens do not count.
pub open spec fn exam_code(s: Seq<char>) -> Option<Seq<char>> {
    lower_code(text::lowered(text::trim(s)))
}

fn keep_code_chars(s: &[char]) -> (r: Vec<char>)
    ensures
        r@ == code_chars(s@),
{
    let n: usize = s.len();
    let mut r: Vec<char> = Vec::new();
    for i in 0..n
        invariant
            n == s@.len(),
            r@ == code_chars(s@.take(i as int)),
    {
        assert(s@.take(i + 1).drop_last() =~= s@.take(i as int));
        if s[i] != ' ' && s[i] != '-' {
            r.push(s[i]);
        }
    }
    assert(s@.take(n as int) =~= s@);
    r
}

/// Canonicalises a bare exam code written in any common form (`AZ-500`, `az500`, `Az 500`) to
/// the `az-500` shape. Returns `None` if it does not look like an exam code: two letters followed
/// by two to four digits, ignoring case, spaces and hyphens.
pub fn canonical_exam_code(s: &str) -> (r: Option<String>)
    ensures
        r.deep_view() == exam_code(s@),
{
    let cs = text::chars_of(s);
    canonical_lower_code(
        text::lowercase(text::text_of(text::trimmed(cs.as_slice())).as_str()).as_str(),
    )
}

/// [`canonical_exam_code`] of a code that is in lower case already.
pub fn canonical_lower_code(lower: &str) -> (r: Option<String>)
    ensures
        r.deep_view() == lower_code(lower@),
{
    let t = keep_code_chars(text::chars_of(lower).as_slice());
    let n: usize = t.len();
    if n < 4 || n > 6 {
        return None;
    }
    if !text::alnum(t[0]) || text::digit(t[0]) || !text::alnum(t[1]) || text::digit(t[1]) {
        return None;
    }
    let letters = slice_subrange(t.as_slice(), 0, 2);
    let digits = slice_subrange(t.as_slice(), 2, n);
    assert(letters@ =~= t@.take(2));
    assert(digits@ =~= t@.skip(2));
    if !text::only_digits(digits) {
        return None;
    }
    let mut code = text::text_of(letters);
    code.append("-");
    text::push_chars(&mut code, digits);
    Some(code)
}

/// The label of an exam: its code in upper case.
pub open spec fn exam_label(exam_uid: Seq<char>) -> Seq<char> {
    text::uppered(bare_code(exam_uid))
}

/// An exam uid without its `exam.` prefix.
pub open spec fn bare_code(exam_uid: Seq<char>) -> Seq<char> {
    match text::without_prefix(exam_uid, "exam."@) {
        Some(code) => code,
        None => exam_uid,
    }
}

pub fn exam_code_of(exam_uid: &str) -> (r: String)
    ensures
        r@ == bare_code(exam_uid@),
{
    let cs = text::chars_of(exam_uid);
    match text::strip_prefix(cs.as_slice(), "exam.") {
        Some(code) => text::text_of(code),
        None => exam_uid.to_owned(),
    }
}

/// `exam.az-104` becomes `AZ-104`.
pub fn exam_code_label(exam_uid: &str) -> (r: String)
    ensures
        r@ == exam_label(exam_uid@),
{
    text::uppercase(exam_code_of(exam_uid).as_str())
}

// ---------------------------------------------------------------------------
// Exam uids in a page
// ---------------------------------------------------------------------------

/// The end of the run of letters, digits and hyphens that begins at `from`.
pub open spec fn code_run_end(s: Seq<char>, from: int) -> int
    decreases s.len() - from,
{
    if 0 <= from < s.len() && (text::is_alnum(s[from]) || s[from] == '-') {
        code_run_end(s, from + 1)
    } else {
        from
    }
}

/// The first `exam.<code>` at or after `from` whose code looks like an exam code.
pub open spec fn exam_uid_from(lower: Seq<char>, from: int) -> Option<Seq<char>>
    decreases lower.len() - from,
{
    if from < 0 || from > lower.len() {
        None
    } else {
        proof {
            reveal_strlit("exam.");
            text::lemma_find_from(lower, "exam."@, from);
        }
        match text::find_from(lower, "exam."@, from) {
            Some(i) => {
                let start = i + "exam."@.len();
                let code = lower.subrange(start, code_run_end(lower, start));
                if exam_code(code) is Some {
                    Some("exam."@ + code)
                } else {
                    exam_uid_from(lower, start)
                }
            },
            None => None,
        }
    }
}

/// First `exam.<code>` in a page whose code looks like an exam (e.g. `az-700`), in lower case.
pub fn extract_exam_uid(html: &str) -> (r: Option<String>)
    ensures
        r.deep_view() == exam_uid_from(text::lowered(html@), 0),
{
    exam_uid_in(text::lowercase(html).as_str())
}

/// [`extract_exam_uid`] of a page that is in lower case already.
pub fn exam_uid_in(lower: &str) -> (r: Option<String>)
    ensures
        r.deep_view() == exam_uid_from(lower@, 0),
{
    let s = text::chars_of(lower);
    let total: usize = s.len();
    let mut from: usize = 0;
    proof {
        reveal_strlit("exam.");
    }
    loop
        invariant
            s@ == lower@,
            total == s@.len(),
            from <= total,
            "exam."@.len() == 5,
            exam_uid_from(s@, from as int) == exam_uid_from(s@, 0),
        decreases total - from,
    {
        match text::find_str(s.as_slice(), "exam.", from) {
            Some(i) => {
                let start: usize = i + 5;
                let mut end: usize = start;
                while end < total && (text::alnum(s[end]) || s[end] == '-')
                    invariant
                        total == s@.len(),
                        start <= end <= total,
                        code_run_end(s@, start as int) == code_run_end(s@, end as int),
                    decreases total - end,
                {
                    end += 1;
                }
                let code = text::text_of(slice_subrange(s.as_slice(), start, end));
                if canonical_exam_code(code.as_str()).is_some() {
                    let mut uid = "exam.".to_owned();
                    uid.append(code.as_str());
                    return Some(uid);
                }
                from = start;
            },
            None => {
                return None;
            },
        }
    }
}

// ---------------------------------------------------------------------------
// Classification
// ---------------------------------------------------------------------------

/// The input without surrounding white space and trailing slashes.
pub open spec fn input_text(input: Seq<char>) -> Seq<char> {
    text::trim_end_of(text::trim(input), '/')
}

/// What a page URL asks for.
pub open spec fn url_input(s: Seq<char>) -> Result<LearnInputView, ResolveErrorView> {
    let segs = segments(s);
    match segment_after(segs, "paths"@, 0) {
        Some(slug) => Ok(LearnInputView::Path(slug)),
        None => match segment_after(segs, "exams"@, 0) {
            Some(code) => Ok(LearnInputView::Exam("exam."@ + code)),
            None => match segment_after(segs, "certifications"@, 0) {
                Some(slug) if slug != "exams"@ => Ok(
                    LearnInputView::Cert("certification."@ + slug),
                ),
                _ => training_input(s, segs),
            },
        },
    }
}

/// What a page URL asks for that is no page of a path, an exam or a certification: a course or a
/// module.
pub open spec fn training_input(s: Seq<char>, segs: Seq<Seq<char>>) -> Result<
    LearnInputView,
    ResolveErrorView,
> {
    match segment_after(segs, "courses"@, 0) {
        Some(code) => Ok(LearnInputView::Course("course."@ + code)),
        None => match segment_after(segs, "modules"@, 0) {
            Some(slug) => Ok(LearnInputView::Module(slug)),
            None => Err(
                ResolveErrorView::BadInput(
                    s + " is not a recognised certification or exam URL"@,
                ),
            ),
        },
    }
}

/// What an input asks for.
pub open spec fn classified(input: Seq<char>) -> Result<LearnInputView, ResolveErrorView> {
    let s = input_text(input);
    if s.len() == 0 {
        Err(ResolveErrorView::BadInput("empty"@))
    } else if text::has_prefix(s, "certification."@) {
        Ok(LearnInputView::Cert(s))
    } else if text::has_prefix(s, "exam."@) {
        Ok(LearnInputView::Exam(s))
    } else if text::contains_text(s, "://"@) || text::contains_text(s, "learn.microsoft.com"@) {
        url_input(s)
    } else {
        match exam_code(s) {
            Some(code) => Ok(LearnInputView::Exam("exam."@ + code)),
            None => Ok(LearnInputView::Cert("certification."@ + s)),
        }
    }
}

fn prefixed(prefix: &str, s: &str) -> (r: String)
    ensures
        r@ == prefix@ + s@,
{
    let mut out = prefix.to_owned();
    out.append(s);
    out
}

fn parse_url(s: &[char]) -> (r: Result<LearnInput, ResolveError>)
    ensures
        error::outcome(r) == url_input(s@),
{
    let segs = url_segments(s);
    if let Some(slug) = following_segment(&segs, "paths") {
        return Ok(LearnInput::Path(slug));
    }
    if let Some(code) = following_segment(&segs, "exams") {
        return Ok(LearnInput::Exam(prefixed("exam.", code.as_str())));
    }
    if let Some(slug) = following_segment(&segs, "certifications") {
        if !text::same_text(slug.as_str(), "exams") {
            return Ok(LearnInput::Cert(prefixed("certification.", slug.as_str())));
        }
    }
    if let Some(code) = following_segment(&segs, "courses") {
        return Ok(LearnInput::Course(prefixed("course.", code.as_str())));
    }
    if let Some(slug) = following_segment(&segs, "modules") {
        return Ok(LearnInput::Module(slug));
    }
    let mut message = text::text_of(s);
    message.append(" is not a recognised certification or exam URL");
    Err(ResolveError::BadInput(message))
}

/// Classifies a user input as a certification, an exam, a learning path, a course or a module.
/// Accepts page URLs, `certification.*` and `exam.*` uids, bare certification slugs
/// (`azure-solutions-architect`) and bare exam codes (`az-104`).
pub fn parse_input(input: &str) -> (r: Result<LearnInput, ResolveError>)
    ensures
        error::outcome(r) == classified(input@),
{
    let cs = text::chars_of(input);
    let s = text::trimmed_end_of(text::trimmed(cs.as_slice()), '/');
    if s.len() == 0 {
        return Err(ResolveError::BadInput("empty".to_owned()));
    }
    if text::starts_with(s, "certification.") {
        return Ok(LearnInput::Cert(text::text_of(s)));
    }
    if text::starts_with(s, "exam.") {
        return Ok(LearnInput::Exam(text::text_of(s)));
    }
    if text::contains_str(s, "://") || text::contains_str(s, "learn.microsoft.com") {
        return parse_url(s);
    }
    let bare = text::text_of(s);
    match canonical_exam_code(bare.as_str()) {
        Some(code) => Ok(LearnInput::Exam(prefixed("exam.", code.as_str()))),
        None => Ok(LearnInput::Cert(prefixed("certification.", bare.as_str()))),
    }
}

// ---------------------------------------------------------------------------
// Laws
// ---------------------------------------------------------------------------

proof fn lemma_code_chars_cat(a: Seq<char>, b: Seq<char>)
    ensures
        code_chars(a + b) == code_chars(a) + code_chars(b),
    decreases b.len(),
{
    if b.len() == 0 {
        assert(a + b =~= a);
    } else {
        lemma_code_chars_cat(a, b.drop_last());
        assert((a + b).drop_last() =~= a + b.drop_last());
        assert((a + b).last() == b.last());
    }
}

proof fn lemma_code_chars_all(s: Seq<char>)
    requires
        forall|i: int| 0 <= i < s.len() ==> #[trigger] s[i] != ' ' && s[i] != '-',
    ensures
        code_chars(s) == s,
    decreases s.len(),
{
    if s.len() > 0 {
        lemma_code_chars_all(s.drop_last());
        assert(s.drop_last().push(s.last()) =~= s);
    }
}

proof fn lemma_code_chars_none(s: Seq<char>)
    requires
        forall|i: int| 0 <= i < s.len() ==> (#[trigger] s[i] == ' ' || s[i] == '-'),
    ensures
        code_chars(s) == Seq::<char>::empty(),
    decreases s.len(),
{
    if s.len() > 0 {
        lemma_code_chars_none(s.drop_last());
    }
}

/// What counts of a text without upper case letters holds none either.
proof fn lemma_code_chars_case(s: Seq<char>)
    requires
        forall|i: int| 0 <= i < s.len() ==> !('A' <= #[trigger] s[i] <= 'Z'),
    ensures
        forall|i: int| 0 <= i < code_chars(s).len() ==> !('A' <= #[trigger] code_chars(s)[i] <= 'Z'),
    decreases s.len(),
{
    if s.len() > 0 {
        let front = code_chars(s.drop_last());
        assert forall|i: int| 0 <= i < s.drop_last().len() implies !('A'
            <= #[trigger] s.drop_last()[i] <= 'Z') by {
            assert(s.drop_last()[i] == s[i]);
        }
        lemma_code_chars_case(s.drop_last());
        assert forall|i: int| 0 <= i < code_chars(s).len() implies !('A'
            <= #[trigger] code_chars(s)[i] <= 'Z') by {
            if i < front.len() {
                assert(code_chars(s)[i] == front[i]);
            } else {
                assert(code_chars(s)[i] == s[s.len() - 1]);
            }
        }
    }
}

/// An exam code in any common form: two letters, then hyphens or spaces or nothing, then two to
/// four digits.
pub open spec fn is_common_form(letters: Seq<char>, gap: Seq<char>, digits: Seq<char>) -> bool {
    &&& letters.len() == 2
    &&& forall|i: int|
        0 <= i < 2 ==> text::is_alnum(#[trigger] letters[i]) && !text::is_digit(letters[i])
    &&& forall|i: int| 0 <= i < gap.len() ==> (#[trigger] gap[i] == '-' || gap[i] == ' ')
    &&& 2 <= digits.len() <= 4
    &&& text::all_digits(digits)
}

proof fn lemma_common_form_is_trimmed(letters: Seq<char>, gap: Seq<char>, digits: Seq<char>)
    requires
        is_common_form(letters, gap, digits),
    ensures
        text::trim(letters + gap + digits) == letters + gap + digits,
        text::all_ascii(letters + gap + digits),
{
    let s = letters + gap + digits;
    assert(s[0] == letters[0]);
    assert(s.last() == digits.last());
    assert forall|i: int| 0 <= i < s.len() implies (#[trigger] s[i]) as nat <= 127 by {
        if i < 2 {
            assert(s[i] == letters[i]);
        } else if i < 2 + gap.len() {
            assert(s[i] == gap[i - 2]);
        } else {
            assert(s[i] == digits[i - 2 - gap.len()]);
        }
    }
}

/// A bare exam code means the same in every common form: with a hyphen, with a space or with
/// nothing between its letters and digits, in upper or in lower case.
pub proof fn law_exam_code_forms(letters: Seq<char>, gap: Seq<char>, digits: Seq<char>)
    requires
        is_common_form(letters, gap, digits),
    ensures
        exam_code(letters + gap + digits) == Some(text::ascii_lower(letters) + "-"@ + digits),
{
    let s = letters + gap + digits;
    lemma_common_form_is_trimmed(letters, gap, digits);
    let low = text::ascii_lower(letters);
    assert(text::ascii_lower(s) =~= low + gap + digits);
    lemma_code_chars_cat(low + gap, digits);
    lemma_code_chars_cat(low, gap);
    assert forall|i: int| 0 <= i < low.len() implies text::is_alnum(#[trigger] low[i]) by {
        assert(text::is_alnum(letters[i]));
    }
    lemma_code_chars_all(low);
    lemma_code_chars_all(digits);
    lemma_code_chars_none(gap);
    assert(low + Seq::<char>::empty() + digits =~= low + digits);
    let t = low + digits;
    assert(t.take(2) =~= low);
    assert(t.skip(2) =~= digits);
    assert(!text::is_digit(letters[0]) && !text::is_digit(letters[1]));
    assert(t[0] == low[0] && t[1] == low[1]);
}

/// An input that is an exam code in a common form asks for that exam.
pub proof fn law_exam_code_input(letters: Seq<char>, gap: Seq<char>, digits: Seq<char>)
    requires
        is_common_form(letters, gap, digits),
    ensures
        classified(letters + gap + digits) == Ok::<LearnInputView, ResolveErrorView>(
            LearnInputView::Exam("exam."@ + (text::ascii_lower(letters) + "-"@ + digits)),
        ),
{
    let s = letters + gap + digits;
    lemma_common_form_is_trimmed(letters, gap, digits);
    law_exam_code_forms(letters, gap, digits);
    reveal_strlit("certification.");
    reveal_strlit("exam.");
    reveal_strlit("://");
    reveal_strlit("learn.microsoft.com");
    assert(s.last() == digits.last());
    assert(input_text(s) == s);
    assert forall|i: int| 0 <= i < s.len() implies #[trigger] s[i] != '.' && s[i] != ':' by {
        if i < 2 {
            assert(s[i] == letters[i]);
        } else if i < 2 + gap.len() {
            assert(s[i] == gap[i - 2]);
        } else {
            assert(s[i] == digits[i - 2 - gap.len()]);
        }
    }
    if text::has_prefix(s, "certification."@) {
        assert(s.subrange(0, 14)[13] == s[13]);
    }
    if text::has_prefix(s, "exam."@) {
        assert(s.subrange(0, 5)[4] == s[4]);
    }
    assert forall|i: int| !text::occurs_at(s, "://"@, i) by {
        if text::occurs_at(s, "://"@, i) {
            assert(s.subrange(i, i + 3)[0] == s[i]);
        }
    }
    assert forall|i: int| !text::occurs_at(s, "learn.microsoft.com"@, i) by {
        if text::occurs_at(s, "learn.microsoft.com"@, i) {
            assert(s.subrange(i, i + 19)[5] == s[i + 5]);
        }
    }
}

/// The canonical form of an exam code is its own canonical form.
pub proof fn law_canonical_code_is_canonical(s: Seq<char>)
    requires
        text::all_ascii(s),
        exam_code(s) is Some,
    ensures
        exam_code(exam_code(s)->Some_0) == exam_code(s),
{
    lemma_trim_ascii(s);
    let low = text::ascii_lower(text::trim(s));
    let t = code_chars(low);
    lemma_code_chars_case(low);
    reveal_strlit("-");
    let letters = t.take(2);
    let digits = t.skip(2);
    assert forall|i: int| 0 <= i < 2 implies text::is_alnum(#[trigger] letters[i])
        && !text::is_digit(letters[i]) by {
        assert(letters[i] == t[i]);
    }
    assert(is_common_form(letters, "-"@, digits));
    law_exam_code_forms(letters, "-"@, digits);
    assert(text::ascii_lower(letters) =~= letters);
}

proof fn lemma_trim_ascii(s: Seq<char>)
    requires
        text::all_ascii(s),
    ensures
        text::all_ascii(text::trim(s)),
{
    lemma_trim_start_ascii(s);
    lemma_trim_end_ascii(text::trim_start(s));
}

proof fn lemma_trim_start_ascii(s: Seq<char>)
    requires
        text::all_ascii(s),
    ensures
        text::all_ascii(text::trim_start(s)),
    decreases s.len(),
{
    if s.len() > 0 && text::is_space(s[0]) {
        lemma_trim_start_ascii(s.skip(1));
    }
}

proof fn lemma_trim_end_ascii(s: Seq<char>)
    requires
        text::all_ascii(s),
    ensures
        text::all_ascii(text::trim_end(s)),
    decreases s.len(),
{
    if s.len() > 0 && text::is_space(s.last()) {
        lemma_trim_end_ascii(s.drop_last());
    }
}

proof fn lemma_trim_lead(lead: Seq<char>, s: Seq<char>)
    requires
        forall|i: int| 0 <= i < lead.len() ==> text::is_space(#[trigger] lead[i]),
    ensures
        text::trim_start(lead + s) == text::trim_start(s),
    decreases lead.len(),
{
    if lead.len() == 0 {
        assert(lead + s =~= s);
    } else {
        assert((lead + s)[0] == lead[0]);
        assert((lead + s).skip(1) =~= lead.skip(1) + s);
        lemma_trim_lead(lead.skip(1), s);
    }
}

proof fn lemma_trim_end_trail(s: Seq<char>, trail: Seq<char>)
    requires
        forall|i: int| 0 <= i < trail.len() ==> text::is_space(#[trigger] trail[i]),
    ensures
        text::trim_end(s + trail) == text::trim_end(s),
    decreases trail.len(),
{
    if trail.len() == 0 {
        assert(s + trail =~= s);
    } else {
        assert((s + trail).last() == trail[trail.len() - 1]);
        assert((s + trail).drop_last() =~= s + trail.drop_last());
        lemma_trim_end_trail(s, trail.drop_last());
    }
}

proof fn lemma_trim_trail(s: Seq<char>, trail: Seq<char>)
    requires
        forall|i: int| 0 <= i < trail.len() ==> text::is_space(#[trigger] trail[i]),
    ensures
        text::trim(s + trail) == text::trim(s),
    decreases s.len(),
{
    if s.len() == 0 {
        lemma_trim_lead(trail, s);
        assert(s + trail =~= trail + s);
    } else {
        assert((s + trail)[0] == s[0]);
        if text::is_space(s[0]) {
            assert((s + trail).skip(1) =~= s.skip(1) + trail);
            lemma_trim_trail(s.skip(1), trail);
        } else {
            lemma_trim_end_trail(s, trail);
        }
    }
}

/// White space around an input leaves its meaning alone.
pub proof fn law_input_is_trimmed(lead: Seq<char>, s: Seq<char>, trail: Seq<char>)
    requires
        forall|i: int| 0 <= i < lead.len() ==> text::is_space(#[trigger] lead[i]),
        forall|i: int| 0 <= i < trail.len() ==> text::is_space(#[trigger] trail[i]),
    ensures
        classified(lead + s + trail) == classified(s),
{
    assert(lead + s + trail =~= lead + (s + trail));
    lemma_trim_lead(lead, s + trail);
    lemma_trim_trail(s, trail);
}

proof fn lemma_trim_slashes(s: Seq<char>, slashes: Seq<char>)
    requires
        text::trim_end(s) == s,
        slashes.len() > 0,
        forall|i: int| 0 <= i < slashes.len() ==> #[trigger] slashes[i] == '/',
    ensures
        text::trim(s + slashes) == text::trim(s) + slashes,
    decreases s.len(),
{
    if s.len() == 0 {
        assert(s + slashes =~= slashes);
        assert(text::trim_start(s) =~= s);
        assert(slashes[0] == '/' && slashes[slashes.len() - 1] == '/');
    } else {
        assert(!text::is_space(s.last())) by {
            if text::is_space(s.last()) {
                lemma_trim_end_take(s.drop_last());
            }
        }
        assert((s + slashes)[0] == s[0]);
        if text::is_space(s[0]) {
            assert((s + slashes).skip(1) =~= s.skip(1) + slashes);
            assert(s.len() > 1 ==> s.skip(1).last() == s.last());
            lemma_trim_slashes(s.skip(1), slashes);
        } else {
            assert((s + slashes).last() == slashes[slashes.len() - 1]);
        }
    }
}

proof fn lemma_trim_end_take(s: Seq<char>)
    ensures
        text::trim_end(s).len() <= s.len(),
        text::trim_end(s) == s.take(text::trim_end(s).len() as int),
        forall|i: int|
            text::trim_end(s).len() <= i < s.len() ==> text::is_space(#[trigger] s[i]),
    decreases s.len(),
{
    if s.len() > 0 && text::is_space(s.last()) {
        lemma_trim_end_take(s.drop_last());
        let n = text::trim_end(s).len();
        assert(s.drop_last().take(n as int) =~= s.take(n as int));
        assert forall|i: int| n <= i < s.len() implies text::is_space(#[trigger] s[i]) by {
            if i < s.len() - 1 {
                assert(s.drop_last()[i] == s[i]);
            }
        }
    } else {
        assert(s.take(s.len() as int) =~= s);
    }
}

proof fn lemma_trim_end_of_take(s: Seq<char>, c: char)
    ensures
        text::trim_end_of(s, c).len() <= s.len(),
        text::trim_end_of(s, c) == s.take(text::trim_end_of(s, c).len() as int),
        forall|i: int| text::trim_end_of(s, c).len() <= i < s.len() ==> #[trigger] s[i] == c,
    decreases s.len(),
{
    if s.len() > 0 && s.last() == c {
        lemma_trim_end_of_take(s.drop_last(), c);
        let n = text::trim_end_of(s, c).len();
        assert(s.drop_last().take(n as int) =~= s.take(n as int));
        assert forall|i: int| n <= i < s.len() implies #[trigger] s[i] == c by {
            if i < s.len() - 1 {
                assert(s.drop_last()[i] == s[i]);
            }
        }
    } else {
        assert(s.take(s.len() as int) =~= s);
    }
}

proof fn lemma_trim_end_of_trail(s: Seq<char>, slashes: Seq<char>)
    requires
        forall|i: int| 0 <= i < slashes.len() ==> #[trigger] slashes[i] == '/',
    ensures
        text::trim_end_of(s + slashes, '/') == text::trim_end_of(s, '/'),
    decreases slashes.len(),
{
    if slashes.len() == 0 {
        assert(s + slashes =~= s);
    } else {
        assert((s + slashes).last() == slashes[slashes.len() - 1]);
        assert((s + slashes).drop_last() =~= s + slashes.drop_last());
        lemma_trim_end_of_trail(s, slashes.drop_last());
    }
}

/// Slashes at the end of an input leave its meaning alone, unless white space stands before them.
pub proof fn law_trailing_slashes_are_ignored(s: Seq<char>, slashes: Seq<char>)
    requires
        text::trim_end(s) == s,
        forall|i: int| 0 <= i < slashes.len() ==> #[trigger] slashes[i] == '/',
    ensures
        classified(s + slashes) == classified(s),
{
    if slashes.len() == 0 {
        assert(s + slashes =~= s);
    } else {
        lemma_trim_slashes(s, slashes);
        lemma_trim_end_of_trail(text::trim(s), slashes);
    }
}

/// An input is taken as the URL of a page.
pub open spec fn is_page_url(input: Seq<char>) -> bool {
    let s = input_text(input);
    &&& text::contains_text(s, "://"@) || text::contains_text(s, "learn.microsoft.com"@)
    &&& !text::has_prefix(s, "certification."@)
    &&& !text::has_prefix(s, "exam."@)
}

proof fn lemma_before(s: Seq<char>, c: char, rest: Seq<char>)
    requires
        !s.contains(c),
    ensures
        text::before(s, c) == s,
        text::before(s + seq![c] + rest, c) == s,
    decreases s.len(),
{
    let all = s + seq![c] + rest;
    if s.len() > 0 {
        assert(s.contains(s[0]));
        assert(all[0] == s[0]);
        assert(all.skip(1) =~= s.skip(1) + seq![c] + rest);
        assert(!s.skip(1).contains(c)) by {
            if s.skip(1).contains(c) {
                let i = choose|i: int| 0 <= i < s.skip(1).len() && s.skip(1)[i] == c;
                assert(s[i + 1] == c);
            }
        }
        lemma_before(s.skip(1), c, rest);
        assert(seq![s[0]] + s.skip(1) =~= s);
    } else {
        assert(all[0] == c);
    }
}

proof fn lemma_nonempty_first_same(a: Seq<Seq<char>>, b: Seq<Seq<char>>, n: nat)
    requires
        n <= a.len(),
        n <= b.len(),
        forall|i: int| 0 <= i < n ==> a[i] == b[i],
    ensures
        nonempty_first(a, n) == nonempty_first(b, n),
    decreases n,
{
    if n > 0 {
        lemma_nonempty_first_same(a, b, (n - 1) as nat);
    }
}

proof fn lemma_pieces_of_slashes(s: Seq<char>, slashes: Seq<char>)
    requires
        forall|i: int| 0 <= i < slashes.len() ==> #[trigger] slashes[i] == '/',
    ensures
        ({
            let a = text::split(s + slashes, '/');
            let b = text::split(s, '/');
            nonempty_first(a, a.len()) == nonempty_first(b, b.len())
        }),
    decreases slashes.len(),
{
    if slashes.len() == 0 {
        assert(s + slashes =~= s);
    } else {
        let shorter = s + slashes.drop_last();
        lemma_pieces_of_slashes(s, slashes.drop_last());
        assert((s + slashes).last() == slashes[slashes.len() - 1]);
        assert((s + slashes).drop_last() =~= shorter);
        let a = text::split(s + slashes, '/');
        let b = text::split(shorter, '/');
        assert(a == b.push(Seq::empty()));
        lemma_nonempty_first_same(a, b, b.len());
    }
}

proof fn lemma_no_prefix(s: Seq<char>, p: Seq<char>, rest: Seq<char>)
    requires
        !text::has_prefix(s, p),
        rest.len() > 0,
        !p.contains(rest[0]),
    ensures
        !text::has_prefix(s + rest, p),
{
    let all = s + rest;
    if text::has_prefix(all, p) {
        assert(all.subrange(0, p.len() as int) == p);
        if p.len() <= s.len() {
            assert(s.subrange(0, p.len() as int) =~= all.subrange(0, p.len() as int));
        } else {
            assert(p[s.len() as int] == all[s.len() as int]);
        }
    }
}

/// The input with a query is the input itself, some slashes, and what is left of the query.
proof fn lemma_input_text_with_query(url: Seq<char>, query: Seq<char>) -> (r: (
    Seq<char>,
    Seq<char>,
))
    requires
        text::trim(url) == url,
    ensures
        input_text(url + "?"@ + query) == input_text(url) + r.0 + seq!['?'] + r.1,
        url == input_text(url) + r.0,
        forall|i: int| 0 <= i < r.0.len() ==> #[trigger] r.0[i] == '/',
{
    reveal_strlit("?");
    let s = url + "?"@ + query;
    let k = url.len() as int;
    assert(s[k] == '?');
    lemma_trimmed_start(url);
    assert(url.len() > 0 ==> s[0] == url[0]);
    assert(text::trim_start(s) == s);
    lemma_trim_end_take(s);
    let t = text::trim_end(s);
    assert(t.len() > k);
    lemma_trim_end_of_take(t, '/');
    let w = text::trim_end_of(t, '/');
    assert(t[k] == s[k]);
    assert(w.len() > k);
    lemma_trim_end_of_take(url, '/');
    let v = text::trim_end_of(url, '/');
    let slashes = url.skip(v.len() as int);
    let rest = w.skip(k + 1);
    assert(url =~= v + slashes);
    assert(w =~= v + slashes + seq!['?'] + rest);
    (slashes, rest)
}

proof fn lemma_trimmed_start(s: Seq<char>)
    requires
        text::trim(s) == s,
    ensures
        s.len() > 0 ==> !text::is_space(s[0]),
{
    if s.len() > 0 && text::is_space(s[0]) {
        lemma_trim_start_shorter(s.skip(1));
        lemma_trim_end_take(text::trim_start(s));
    }
}

proof fn lemma_trim_start_shorter(s: Seq<char>)
    ensures
        text::trim_start(s).len() <= s.len(),
    decreases s.len(),
{
    if s.len() > 0 && text::is_space(s[0]) {
        lemma_trim_start_shorter(s.skip(1));
    }
}

proof fn lemma_tail_keeps_kind(s: Seq<char>, tail: Seq<char>)
    requires
        text::contains_text(s, "://"@) || text::contains_text(s, "learn.microsoft.com"@),
        !text::has_prefix(s, "certification."@),
        !text::has_prefix(s, "exam."@),
        tail.len() > 0,
        tail[0] == '/' || tail[0] == '?',
    ensures
        text::contains_text(s + tail, "://"@) || text::contains_text(
            s + tail,
            "learn.microsoft.com"@,
        ),
        !text::has_prefix(s + tail, "certification."@),
        !text::has_prefix(s + tail, "exam."@),
{
    assert(!"certification."@.contains(tail[0]) && !"exam."@.contains(tail[0])) by {
        reveal_strlit("certification.");
        reveal_strlit("exam.");
    }
    lemma_no_prefix(s, "certification."@, tail);
    lemma_no_prefix(s, "exam."@, tail);
    text::lemma_contains_cat(s, tail, "://"@);
    text::lemma_contains_cat(s, tail, "learn.microsoft.com"@);
}

proof fn lemma_query_keeps_segments(s: Seq<char>, slashes: Seq<char>, rest: Seq<char>)
    requires
        !(s + slashes).contains('?'),
        forall|i: int| 0 <= i < slashes.len() ==> #[trigger] slashes[i] == '/',
    ensures
        segments(s + slashes + seq!['?'] + rest) == segments(s),
{
    assert(!s.contains('?')) by {
        if s.contains('?') {
            let i = choose|i: int| 0 <= i < s.len() && s[i] == '?';
            assert((s + slashes)[i] == '?');
        }
    }
    lemma_before(s, '?', Seq::empty());
    lemma_before(s + slashes, '?', rest);
    lemma_pieces_of_slashes(s, slashes);
}

proof fn lemma_url_input_of_segments(a: Seq<char>, b: Seq<char>)
    requires
        segments(a) == segments(b),
    ensures
        url_input(a) is Ok <==> url_input(b) is Ok,
        url_input(b) is Ok ==> url_input(a) == url_input(b),
{
}

proof fn lemma_page_url(input: Seq<char>)
    requires
        is_page_url(input),
    ensures
        classified(input) == url_input(input_text(input)),
{
    let s = input_text(input);
    reveal_strlit("://");
    reveal_strlit("learn.microsoft.com");
    assert(s.len() > 0);
}

/// The query of a page URL leaves its meaning alone: with it and without it the URL asks for the
/// same, or neither is recognised.
pub proof fn law_query_is_ignored(url: Seq<char>, query: Seq<char>)
    requires
        text::trim(url) == url,
        !url.contains('?'),
        is_page_url(url),
    ensures
        classified(url + "?"@ + query) is Ok <==> classified(url) is Ok,
        classified(url) is Ok ==> classified(url + "?"@ + query) == classified(url),
{
    let with_query = url + "?"@ + query;
    let s = input_text(url);
    let (slashes, rest) = lemma_input_text_with_query(url, query);
    let tail = slashes + seq!['?'] + rest;
    assert(input_text(with_query) =~= s + tail);
    assert(tail[0] == '/' || tail[0] == '?') by {
        if slashes.len() > 0 {
            assert(tail[0] == slashes[0]);
        }
    }
    lemma_tail_keeps_kind(s, tail);
    lemma_query_keeps_segments(s, slashes, rest);
    lemma_url_input_of_segments(input_text(with_query), s);
    lemma_page_url(url);
    lemma_page_url(with_query);
}

/// The segment behind a name is the one that follows the first segment of that name.
pub proof fn law_segment_after(segs: Seq<Seq<char>>, name: Seq<char>, from: int, i: int)
    requires
        0 <= from <= i,
        i + 1 < segs.len(),
        segs[i] == name,
        forall|j: int| from <= j < i ==> #[trigger] segs[j] != name,
    ensures
        segment_after(segs, name, from) == Some(segs[i + 1]),
    decreases i - from,
{
    if from < i {
        law_segment_after(segs, name, from + 1, i);
    }
}

/// There is no segment behind a name that does not occur, or that occurs only at the end.
pub proof fn law_no_segment_after(segs: Seq<Seq<char>>, name: Seq<char>, from: int)
    requires
        0 <= from,
        forall|j: int| from <= j < segs.len() - 1 ==> #[trigger] segs[j] != name,
    ensures
        segment_after(segs, name, from) is None,
    decreases segs.len() - from,
{
    if from < segs.len() - 1 {
        assert(segs[from] != name);
    }
    if from < segs.len() {
        law_no_segment_after(segs, name, from + 1);
    }
}

proof fn lemma_nonempty_cat(a: Seq<Seq<char>>, b: Seq<Seq<char>>, n: nat)
    requires
        n <= b.len(),
    ensures
        nonempty_first(a + b, a.len() + n) == nonempty_first(a, a.len()) + nonempty_first(b, n),
    decreases n,
{
    if n == 0 {
        lemma_nonempty_first_same(a + b, a, a.len());
        assert(nonempty_first(a, a.len()) + nonempty_first(b, 0) =~= nonempty_first(a, a.len()));
    } else {
        lemma_nonempty_cat(a, b, (n - 1) as nat);
        assert((a + b)[a.len() + n - 1] == b[n - 1]);
        assert(nonempty_first(a + b, a.len() + n) =~= nonempty_first(a, a.len()) + nonempty_first(
            b,
            n,
        ));
    }
}

/// The segments of an address are those before a slash and then those behind it.
pub proof fn law_segments_between_slashes(a: Seq<char>, b: Seq<char>)
    requires
        !(a + "/"@ + b).contains('?'),
    ensures
        segments(a + "/"@ + b) == segments(a) + segments(b),
        a.len() > 0 && !a.contains('/') ==> segments(a) == seq![a],
{
    reveal_strlit("/");
    let s = a + "/"@ + b;
    assert(s =~= a.push('/') + b);
    assert(!a.contains('?')) by {
        if a.contains('?') {
            let i = choose|i: int| 0 <= i < a.len() && a[i] == '?';
            assert(s[i] == '?');
        }
    }
    assert(!b.contains('?')) by {
        if b.contains('?') {
            let i = choose|i: int| 0 <= i < b.len() && b[i] == '?';
            assert(s[a.len() + 1 + i] == '?');
        }
    }
    lemma_before(s, '?', Seq::empty());
    lemma_before(a, '?', Seq::empty());
    lemma_before(b, '?', Seq::empty());
    text::lemma_split_cat(a, '/', b);
    lemma_nonempty_cat(text::split(a, '/'), text::split(b, '/'), text::split(b, '/').len());
    if a.len() > 0 && !a.contains('/') {
        text::lemma_split_one(a, '/');
        reveal_with_fuel(nonempty_first, 2);
        assert(segments(a) =~= seq![a]);
    }
}

/// What the address of a page asks for is told by the segment behind the first of the names that
/// it has: of a learning path, an exam, a certification, a course or a module, in this order.
pub proof fn law_what_a_page_asks_for(s: Seq<char>, x: Seq<char>)
    ensures
        ({
            let at = |name: Seq<char>| segment_after(segments(s), name, 0);
            &&& at("paths"@) == Some(x) ==> url_input(s) == Ok::<_, ResolveErrorView>(
                LearnInputView::Path(x),
            )
            &&& at("paths"@) is None && at("exams"@) == Some(x) ==> url_input(s) == Ok::<
                _,
                ResolveErrorView,
            >(LearnInputView::Exam("exam."@ + x))
            &&& at("paths"@) is None && at("exams"@) is None && at("certifications"@) == Some(x)
                && x != "exams"@ ==> url_input(s) == Ok::<_, ResolveErrorView>(
                LearnInputView::Cert("certification."@ + x),
            )
            &&& at("paths"@) is None && at("exams"@) is None && at("certifications"@) is None
                && at("courses"@) == Some(x) ==> url_input(s) == Ok::<_, ResolveErrorView>(
                LearnInputView::Course("course."@ + x),
            )
            &&& at("paths"@) is None && at("exams"@) is None && at("certifications"@) is None
                && at("courses"@) is None && at("modules"@) == Some(x) ==> url_input(s) == Ok::<
                _,
                ResolveErrorView,
            >(LearnInputView::Module(x))
            &&& at("paths"@) is None && at("exams"@) is None && at("certifications"@) is None
                && at("courses"@) is None && at("modules"@) is None ==> url_input(s) is Err
        }),
{
}

/// A uid is taken as it is, and what is no uid, no address and no exam code is the slug of a
/// certification.
pub proof fn law_uids_and_slugs(s: Seq<char>)
    requires
        input_text(s) == s,
        s.len() > 0,
    ensures
        text::has_prefix(s, "certification."@) ==> classified(s) == Ok::<_, ResolveErrorView>(
            LearnInputView::Cert(s),
        ),
        text::has_prefix(s, "exam."@) && !text::has_prefix(s, "certification."@) ==> classified(s)
            == Ok::<_, ResolveErrorView>(LearnInputView::Exam(s)),
        !text::has_prefix(s, "certification."@) && !text::has_prefix(s, "exam."@)
            && !text::contains_text(s, "://"@) && !text::contains_text(s, "learn.microsoft.com"@)
            && exam_code(s) is None ==> classified(s) == Ok::<_, ResolveErrorView>(
            LearnInputView::Cert("certification."@ + s),
        ),
{
}

proof fn lemma_code_run_end(s: Seq<char>, from: int)
    requires
        0 <= from <= s.len(),
    ensures
        from <= code_run_end(s, from) <= s.len(),
    decreases s.len() - from,
{
    if from < s.len() && (text::is_alnum(s[from]) || s[from] == '-') {
        lemma_code_run_end(s, from + 1);
    }
}

/// The exam that a page mentions is mentioned there, and is one: its code has the form of a code.
pub proof fn law_a_mentioned_exam(lower: Seq<char>, from: int)
    requires
        0 <= from,
    ensures
        exam_uid_from(lower, from) matches Some(uid) ==> text::contains_text(lower, uid)
            && text::has_prefix(uid, "exam."@) && exam_code(uid.skip(5)) is Some,
    decreases lower.len() - from,
{
    reveal_strlit("exam.");
    if from <= lower.len() {
        text::lemma_find_from(lower, "exam."@, from);
        if let Some(i) = text::find_from(lower, "exam."@, from) {
            let start = i + 5;
            lemma_code_run_end(lower, start);
            let end = code_run_end(lower, start);
            let code = lower.subrange(start, end);
            if exam_code(code) is Some {
                let uid = "exam."@ + code;
                assert(lower.subrange(i, end) =~= lower.subrange(i, start) + code);
                assert(lower.subrange(i, i + uid.len()) =~= uid);
                assert(text::occurs_at(lower, uid, i));
                text::lemma_ends("exam."@, code);
                assert(uid.skip(5) =~= code);
            } else {
                law_a_mentioned_exam(lower, start);
            }
        }
    }
}

proof fn lemma_code_run(a: Seq<char>, code: Seq<char>, rest: Seq<char>, k: int)
    requires
        forall|i: int|
            0 <= i < code.len() ==> text::is_alnum(#[trigger] code[i]) || code[i] == '-',
        rest.len() > 0 ==> !text::is_alnum(rest[0]) && rest[0] != '-',
        0 <= k <= code.len(),
    ensures
        code_run_end(a + code + rest, a.len() + k) == a.len() + code.len(),
    decreases code.len() - k,
{
    let s = a + code + rest;
    if k < code.len() {
        assert(s[a.len() + k] == code[k]);
        lemma_code_run(a, code, rest, k + 1);
    } else if rest.len() > 0 {
        assert(s[a.len() + k] == rest[0]);
    }
}

/// A page that mentions an exam leads to it: the first that it mentions, up to the end of its code.
pub proof fn law_the_first_exam_is_found(a: Seq<char>, code: Seq<char>, rest: Seq<char>)
    requires
        forall|i: int|
            0 <= i < a.len() ==> !text::occurs_at(a + "exam."@ + code + rest, "exam."@, i),
        forall|i: int|
            0 <= i < code.len() ==> text::is_alnum(#[trigger] code[i]) || code[i] == '-',
        rest.len() > 0 ==> !text::is_alnum(rest[0]) && rest[0] != '-',
        exam_code(code) is Some,
    ensures
        exam_uid_from(a + "exam."@ + code + rest, 0) == Some("exam."@ + code),
{
    reveal_strlit("exam.");
    let s = a + "exam."@ + code + rest;
    let n = a.len() as int;
    assert(s.subrange(n, n + 5) =~= "exam."@);
    text::lemma_find_first(s, "exam."@, 0, n);
    lemma_code_run(a + "exam."@, code, rest, 0);
    assert(s.subrange(n + 5, n + 5 + code.len()) =~= code);
}

/// The label of an exam is the code of its uid in upper case, with the prefix or without.
pub proof fn law_label_of_an_exam(code: Seq<char>)
    ensures
        exam_label("exam."@ + code) == text::uppered(code),
        !text::has_prefix(code, "exam."@) ==> exam_label(code) == text::uppered(code),
{
    text::law_affixes_are_taken_off("exam."@, code);
}

/// The list of exams below the certifications is no certification: a page is one of a
/// certification exactly where another name follows.
pub proof fn law_the_list_of_exams_is_no_certification(s: Seq<char>, slug: Seq<char>)
    requires
        segment_after(segments(s), "paths"@, 0) is None,
        segment_after(segments(s), "exams"@, 0) is None,
        segment_after(segments(s), "courses"@, 0) is None,
        segment_after(segments(s), "modules"@, 0) is None,
        segment_after(segments(s), "certifications"@, 0) == Some(slug),
    ensures
        url_input(s) is Ok <==> slug != "exams"@,
        slug != "exams"@ ==> url_input(s) == Ok::<LearnInputView, ResolveErrorView>(
            LearnInputView::Cert("certification."@ + slug),
        ),
{
}

} // verus!
