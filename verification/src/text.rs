//! Text as sequences of characters: searching, splitting, trimming, joining, numbers and case.
//!
//! Every function states its result over `Seq<char>`, the view of `str` and `String`. Positions
//! are character positions.

use vstd::prelude::*;
use vstd::slice::slice_subrange;

verus! {

broadcast use vstd::seq_lib::group_seq_properties;

// ---------------------------------------------------------------------------
// Moving between strings and characters
// ---------------------------------------------------------------------------

/// `std::string::String::push`: the character lands behind what the string held.
pub assume_specification[ String::push ](s: &mut String, c: char)
    ensures
        final(s)@ == old(s)@.push(c),
;

/// The characters of `s`, in order.
pub fn chars_of(s: &str) -> (r: Vec<char>)
    ensures
        r@ == s@,
{
    let mut r: Vec<char> = Vec::new();
    for c in it: s.chars()
        invariant
            r@ == it.seq().take(it.index()),
            it.seq() == s@,
    {
        r.push(c);
    }
    r
}

/// Appends the characters of `cs` to `out`.
pub fn push_chars(out: &mut String, cs: &[char])
    ensures
        final(out)@ == old(out)@ + cs@,
{
    let ghost start = out@;
    let n: usize = cs.len();
    for i in 0..n
        invariant
            n == cs@.len(),
            out@ == start + cs@.take(i as int),
    {
        out.push(cs[i]);
        assert(start + cs@.take(i + 1) =~= (start + cs@.take(i as int)).push(cs@[i as int]));
    }
    assert(cs@.take(n as int) =~= cs@);
}

/// The string that holds the characters of `cs`.
pub fn text_of(cs: &[char]) -> (r: String)
    ensures
        r@ == cs@,
{
    let mut r = String::new();
    push_chars(&mut r, cs);
    assert(Seq::<char>::empty() + cs@ =~= cs@);
    r
}

/// Appends `item` to `v`, seen through the deep view.
pub fn push_item<T: DeepView>(v: &mut Vec<T>, item: T)
    ensures
        final(v).deep_view() == old(v).deep_view().push(item.deep_view()),
        final(v)@ == old(v)@.push(item),
{
    v.push(item);
    assert(v.deep_view() =~= old(v).deep_view().push(item.deep_view()));
}

/// A copy of a list of strings.
pub fn copy_texts(v: &Vec<String>) -> (r: Vec<String>)
    ensures
        r.deep_view() == v.deep_view(),
{
    let mut r: Vec<String> = Vec::new();
    let n: usize = v.len();
    for i in 0..n
        invariant
            n == v@.len(),
            r.deep_view() =~= v.deep_view().take(i as int),
    {
        push_item(&mut r, v[i].clone());
    }
    r
}

/// A copy of an optional string.
pub fn copy_opt_text(o: &Option<String>) -> (r: Option<String>)
    ensures
        r.deep_view() == o.deep_view(),
{
    match o {
        Some(s) => Some(s.clone()),
        None => None,
    }
}

/// Whether two strings hold the same text.
pub fn same_text(a: &str, b: &str) -> (r: bool)
    ensures
        r == (a@ == b@),
{
    a.to_owned() == b.to_owned()
}

pub proof fn lemma_cat_assoc(a: Seq<char>, b: Seq<char>, c: Seq<char>)
    ensures
        (a + b) + c == a + (b + c),
{
    assert((a + b) + c =~= a + (b + c));
}

// ---------------------------------------------------------------------------
// Searching
// ---------------------------------------------------------------------------

/// `needle` stands in `s` at position `i`.
pub open spec fn occurs_at(s: Seq<char>, needle: Seq<char>, i: int) -> bool {
    &&& 0 <= i
    &&& i + needle.len() <= s.len()
    &&& s.subrange(i, i + needle.len()) == needle
}

/// The first position at or after `from` at which `needle` stands in `s`.
pub open spec fn find_from(s: Seq<char>, needle: Seq<char>, from: int) -> Option<int>
    decreases s.len() + 1 - from,
{
    if from < 0 || from + needle.len() > s.len() {
        None
    } else if occurs_at(s, needle, from) {
        Some(from)
    } else {
        find_from(s, needle, from + 1)
    }
}

/// `needle` stands somewhere in `s`.
pub open spec fn contains_text(s: Seq<char>, needle: Seq<char>) -> bool {
    exists|i: int| occurs_at(s, needle, i)
}

pub open spec fn has_prefix(s: Seq<char>, p: Seq<char>) -> bool {
    occurs_at(s, p, 0)
}

pub open spec fn has_suffix(s: Seq<char>, p: Seq<char>) -> bool {
    occurs_at(s, p, s.len() - p.len())
}

/// `find_from` finds a position where the text occurs, and there is none before it; it finds
/// none only where there is none.
pub proof fn lemma_find_from(s: Seq<char>, needle: Seq<char>, from: int)
    requires
        0 <= from,
    ensures
        match find_from(s, needle, from) {
            Some(i) => from <= i && occurs_at(s, needle, i) && (forall|j: int|
                from <= j < i ==> !occurs_at(s, needle, j)),
            None => forall|j: int| from <= j ==> !occurs_at(s, needle, j),
        },
    decreases s.len() + 1 - from,
{
    if from + needle.len() <= s.len() && !occurs_at(s, needle, from) {
        lemma_find_from(s, needle, from + 1);
    }
}

/// What occurs in a text occurs in a longer one.
pub proof fn lemma_contains_cat(a: Seq<char>, b: Seq<char>, needle: Seq<char>)
    ensures
        contains_text(a, needle) ==> contains_text(a + b, needle),
        contains_text(b, needle) ==> contains_text(a + b, needle),
        contains_text(needle, needle),
{
    if contains_text(a, needle) {
        let i = choose|i: int| occurs_at(a, needle, i);
        assert((a + b).subrange(i, i + needle.len()) =~= a.subrange(i, i + needle.len()));
        assert(occurs_at(a + b, needle, i));
    }
    if contains_text(b, needle) {
        let i = choose|i: int| occurs_at(b, needle, i);
        let j = a.len() + i;
        assert((a + b).subrange(j, j + needle.len()) =~= b.subrange(i, i + needle.len()));
        assert(occurs_at(a + b, needle, j));
    }
    assert(needle.subrange(0, needle.len() as int) =~= needle);
    assert(occurs_at(needle, needle, 0));
}

/// Whether `needle` stands in `s` at position `i`.
pub fn occurs(s: &[char], needle: &[char], i: usize) -> (r: bool)
    ensures
        r == occurs_at(s@, needle@, i as int),
{
    let n: usize = s.len();
    let m: usize = needle.len();
    if i > n || m > n - i {
        return false;
    }
    let mut k: usize = 0;
    while k < m
        invariant
            n == s@.len(),
            m == needle@.len(),
            i + m <= n,
            k <= m,
            forall|j: int| 0 <= j < k ==> s@[i + j] == needle@[j],
        decreases m - k,
    {
        if s[i + k] != needle[k] {
            assert(s@.subrange(i as int, i + m)[k as int] == s@[i + k]);
            return false;
        }
        k += 1;
    }
    assert(s@.subrange(i as int, i + m) =~= needle@);
    true
}

/// The first position at or after `from` at which `needle` stands in `s`.
pub fn find(s: &[char], needle: &[char], from: usize) -> (r: Option<usize>)
    ensures
        r is Some ==> find_from(s@, needle@, from as int) == Some(r->0 as int),
        r is None ==> find_from(s@, needle@, from as int) is None,
        r is Some ==> from <= r->0 && r->0 + needle@.len() <= s@.len(),
        r is Some ==> occurs_at(s@, needle@, r->0 as int),
{
    let n: usize = s.len();
    let m: usize = needle.len();
    if from > n || m > n - from {
        return None;
    }
    let mut i: usize = from;
    let last: usize = n - m;
    while i <= last
        invariant
            n == s@.len(),
            m == needle@.len(),
            last + m == n,
            from <= i <= last + 1,
            find_from(s@, needle@, from as int) == find_from(s@, needle@, i as int),
        decreases last + 1 - i,
    {
        if occurs(s, needle, i) {
            return Some(i);
        }
        if i == last {
            assert(find_from(s@, needle@, i + 1) is None);
            return None;
        }
        i += 1;
    }
    None
}

/// The first position at or after `from` at which the string `needle` stands in `s`.
pub fn find_str(s: &[char], needle: &str, from: usize) -> (r: Option<usize>)
    ensures
        r is Some ==> find_from(s@, needle@, from as int) == Some(r->0 as int),
        r is None ==> find_from(s@, needle@, from as int) is None,
        r is Some ==> from <= r->0 && r->0 + needle@.len() <= s@.len(),
        r is Some ==> occurs_at(s@, needle@, r->0 as int),
{
    let n = chars_of(needle);
    find(s, n.as_slice(), from)
}

pub fn contains_str(s: &[char], needle: &str) -> (r: bool)
    ensures
        r == contains_text(s@, needle@),
{
    proof {
        lemma_find_from(s@, needle@, 0);
    }
    match find_str(s, needle, 0) {
        Some(i) => {
            assert(occurs_at(s@, needle@, i as int));
            true
        },
        None => false,
    }
}

pub fn starts_with(s: &[char], p: &str) -> (r: bool)
    ensures
        r == has_prefix(s@, p@),
{
    let n = chars_of(p);
    occurs(s, n.as_slice(), 0)
}

pub fn ends_with(s: &[char], p: &str) -> (r: bool)
    ensures
        r == has_suffix(s@, p@),
{
    let n = chars_of(p);
    if n.len() > s.len() {
        false
    } else {
        occurs(s, n.as_slice(), s.len() - n.len())
    }
}

/// What follows the prefix `p`, where `s` begins with it.
pub open spec fn without_prefix(s: Seq<char>, p: Seq<char>) -> Option<Seq<char>> {
    if has_prefix(s, p) {
        Some(s.skip(p.len() as int))
    } else {
        None
    }
}

/// What precedes the suffix `p`, where `s` ends with it.
pub open spec fn without_suffix(s: Seq<char>, p: Seq<char>) -> Option<Seq<char>> {
    if has_suffix(s, p) {
        Some(s.take(s.len() - p.len()))
    } else {
        None
    }
}

pub fn strip_prefix<'a>(s: &'a [char], p: &str) -> (r: Option<&'a [char]>)
    ensures
        match r {
            Some(t) => without_prefix(s@, p@) == Some(t@),
            None => without_prefix(s@, p@) is None,
        },
{
    let n = chars_of(p);
    if occurs(s, n.as_slice(), 0) {
        let t = slice_subrange(s, n.len(), s.len());
        assert(t@ =~= s@.skip(p@.len() as int));
        Some(t)
    } else {
        None
    }
}

pub fn strip_suffix<'a>(s: &'a [char], p: &str) -> (r: Option<&'a [char]>)
    ensures
        match r {
            Some(t) => without_suffix(s@, p@) == Some(t@),
            None => without_suffix(s@, p@) is None,
        },
{
    let n = chars_of(p);
    if n.len() > s.len() {
        return None;
    }
    let k: usize = s.len() - n.len();
    if occurs(s, n.as_slice(), k) {
        let t = slice_subrange(s, 0, k);
        assert(t@ =~= s@.take(k as int));
        Some(t)
    } else {
        None
    }
}

/// `s` with every occurrence of `needle`, found from the left and without overlap, replaced
/// by `by`, from position `from` on.
pub open spec fn replace_from(s: Seq<char>, needle: Seq<char>, by: Seq<char>, from: int) -> Seq<
    char,
>
    decreases s.len() - from,
{
    if needle.len() == 0 || from < 0 || from > s.len() {
        Seq::empty()
    } else {
        proof {
            lemma_find_from(s, needle, from);
        }
        match find_from(s, needle, from) {
            Some(i) => s.subrange(from, i) + by + replace_from(s, needle, by, i + needle.len()),
            None => s.skip(from),
        }
    }
}

/// `s` with every occurrence of `needle` replaced by `by`.
pub open spec fn replaced(s: Seq<char>, needle: Seq<char>, by: Seq<char>) -> Seq<char> {
    replace_from(s, needle, by, 0)
}

pub fn replace_all(s: &[char], needle: &str, by: &str) -> (r: String)
    requires
        needle@.len() > 0,
    ensures
        r@ == replaced(s@, needle@, by@),
{
    let n = chars_of(needle);
    let mut out = String::new();
    let mut pos: usize = 0;
    let total: usize = s.len();
    assert(out@ + replace_from(s@, needle@, by@, 0) =~= replace_from(s@, needle@, by@, 0));
    loop
        invariant
            n@ == needle@,
            needle@.len() > 0,
            total == s@.len(),
            pos <= total,
            out@ + replace_from(s@, needle@, by@, pos as int) == replaced(s@, needle@, by@),
        decreases s@.len() - pos,
    {
        match find(s, n.as_slice(), pos) {
            Some(i) => {
                let ghost before = out@;
                let ghost tail = replace_from(s@, needle@, by@, i + needle@.len());
                push_chars(&mut out, slice_subrange(s, pos, i));
                out.append(by);
                proof {
                    let a = s@.subrange(pos as int, i as int);
                    lemma_cat_assoc(before, a, by@);
                    lemma_cat_assoc(before, a + by@, tail);
                }
                pos = i + n.len();
            },
            None => {
                let rest = slice_subrange(s, pos, s.len());
                assert(rest@ =~= s@.skip(pos as int));
                push_chars(&mut out, rest);
                return out;
            },
        }
    }
}

// ---------------------------------------------------------------------------
// Kinds of character
// ---------------------------------------------------------------------------

/// Unicode's `White_Space` property.
pub open spec fn is_space(c: char) -> bool {
    ||| '\u{9}' <= c <= '\u{d}'
    ||| c == ' '
    ||| c == '\u{85}'
    ||| c == '\u{a0}'
    ||| c == '\u{1680}'
    ||| '\u{2000}' <= c <= '\u{200a}'
    ||| c == '\u{2028}'
    ||| c == '\u{2029}'
    ||| c == '\u{202f}'
    ||| c == '\u{205f}'
    ||| c == '\u{3000}'
}

pub open spec fn is_digit(c: char) -> bool {
    '0' <= c <= '9'
}

pub open spec fn is_hex_digit(c: char) -> bool {
    is_digit(c) || 'a' <= c <= 'f' || 'A' <= c <= 'F'
}

/// An ASCII letter or digit.
pub open spec fn is_alnum(c: char) -> bool {
    is_digit(c) || 'a' <= c <= 'z' || 'A' <= c <= 'Z'
}

pub fn space(c: char) -> (r: bool)
    ensures
        r == is_space(c),
{
    ('\u{9}' <= c && c <= '\u{d}') || c == ' ' || c == '\u{85}' || c == '\u{a0}' || c == '\u{1680}'
        || ('\u{2000}' <= c && c <= '\u{200a}') || c == '\u{2028}' || c == '\u{2029}' || c
        == '\u{202f}' || c == '\u{205f}' || c == '\u{3000}'
}

pub fn digit(c: char) -> (r: bool)
    ensures
        r == is_digit(c),
{
    '0' <= c && c <= '9'
}

pub fn hex_digit(c: char) -> (r: bool)
    ensures
        r == is_hex_digit(c),
{
    digit(c) || ('a' <= c && c <= 'f') || ('A' <= c && c <= 'F')
}

pub fn alnum(c: char) -> (r: bool)
    ensures
        r == is_alnum(c),
{
    digit(c) || ('a' <= c && c <= 'z') || ('A' <= c && c <= 'Z')
}

/// Every character of `s` is a digit.
pub open spec fn all_digits(s: Seq<char>) -> bool {
    forall|i: int| 0 <= i < s.len() ==> is_digit(#[trigger] s[i])
}

/// Every character of `s` is an ASCII letter or digit.
pub open spec fn all_alnum(s: Seq<char>) -> bool {
    forall|i: int| 0 <= i < s.len() ==> is_alnum(#[trigger] s[i])
}

pub fn only_digits(s: &[char]) -> (r: bool)
    ensures
        r == all_digits(s@),
{
    let n: usize = s.len();
    for i in 0..n
        invariant
            n == s@.len(),
            forall|j: int| 0 <= j < i ==> is_digit(#[trigger] s@[j]),
    {
        if !digit(s[i]) {
            return false;
        }
    }
    true
}

pub fn only_alnum(s: &[char]) -> (r: bool)
    ensures
        r == all_alnum(s@),
{
    let n: usize = s.len();
    for i in 0..n
        invariant
            n == s@.len(),
            forall|j: int| 0 <= j < i ==> is_alnum(#[trigger] s@[j]),
    {
        if !alnum(s[i]) {
            return false;
        }
    }
    true
}

// ---------------------------------------------------------------------------
// Trimming
// ---------------------------------------------------------------------------

/// `s` without the white space it begins with.
pub open spec fn trim_start(s: Seq<char>) -> Seq<char>
    decreases s.len(),
{
    if s.len() > 0 && is_space(s[0]) {
        trim_start(s.skip(1))
    } else {
        s
    }
}

/// `s` without the white space it ends with.
pub open spec fn trim_end(s: Seq<char>) -> Seq<char>
    decreases s.len(),
{
    if s.len() > 0 && is_space(s.last()) {
        trim_end(s.drop_last())
    } else {
        s
    }
}

pub open spec fn trim(s: Seq<char>) -> Seq<char> {
    trim_end(trim_start(s))
}

/// `s` without any of the characters of `set` that it begins with.
pub open spec fn trim_start_of(s: Seq<char>, set: Seq<char>) -> Seq<char>
    decreases s.len(),
{
    if s.len() > 0 && set.contains(s[0]) {
        trim_start_of(s.skip(1), set)
    } else {
        s
    }
}

/// `s` without the characters `c` that it ends with.
pub open spec fn trim_end_of(s: Seq<char>, c: char) -> Seq<char>
    decreases s.len(),
{
    if s.len() > 0 && s.last() == c {
        trim_end_of(s.drop_last(), c)
    } else {
        s
    }
}

/// `s` without the copies of `tail` that it ends with.
pub open spec fn trim_end_text(s: Seq<char>, tail: Seq<char>) -> Seq<char>
    decreases s.len(),
{
    if tail.len() > 0 && has_suffix(s, tail) {
        trim_end_text(s.take(s.len() - tail.len()), tail)
    } else {
        s
    }
}

pub fn trimmed_start<'a>(s: &'a [char]) -> (r: &'a [char])
    ensures
        r@ == trim_start(s@),
{
    let n: usize = s.len();
    let mut i: usize = 0;
    assert(s@.skip(0) =~= s@);
    while i < n && space(s[i])
        invariant
            n == s@.len(),
            i <= n,
            trim_start(s@.skip(i as int)) == trim_start(s@),
        decreases n - i,
    {
        assert(s@.skip(i as int).skip(1) =~= s@.skip(i + 1));
        i += 1;
    }
    let r = slice_subrange(s, i, n);
    assert(r@ =~= s@.skip(i as int));
    r
}

pub fn trimmed_end<'a>(s: &'a [char]) -> (r: &'a [char])
    ensures
        r@ == trim_end(s@),
{
    let mut n: usize = s.len();
    assert(s@.take(n as int) =~= s@);
    while n > 0 && space(s[n - 1])
        invariant
            n <= s@.len(),
            trim_end(s@.take(n as int)) == trim_end(s@),
        decreases n,
    {
        assert(s@.take(n as int).drop_last() =~= s@.take(n - 1));
        n -= 1;
    }
    let r = slice_subrange(s, 0, n);
    assert(r@ =~= s@.take(n as int));
    r
}

pub fn trimmed<'a>(s: &'a [char]) -> (r: &'a [char])
    ensures
        r@ == trim(s@),
{
    trimmed_end(trimmed_start(s))
}

pub fn trimmed_start_of<'a>(s: &'a [char], set: &str) -> (r: &'a [char])
    ensures
        r@ == trim_start_of(s@, set@),
{
    let cs = chars_of(set);
    let n: usize = s.len();
    let mut i: usize = 0;
    assert(s@.skip(0) =~= s@);
    while i < n && has_char(cs.as_slice(), s[i])
        invariant
            cs@ == set@,
            n == s@.len(),
            i <= n,
            trim_start_of(s@.skip(i as int), set@) == trim_start_of(s@, set@),
        decreases n - i,
    {
        assert(s@.skip(i as int).skip(1) =~= s@.skip(i + 1));
        i += 1;
    }
    let r = slice_subrange(s, i, n);
    assert(r@ =~= s@.skip(i as int));
    r
}

pub fn trimmed_end_of<'a>(s: &'a [char], c: char) -> (r: &'a [char])
    ensures
        r@ == trim_end_of(s@, c),
{
    let mut n: usize = s.len();
    assert(s@.take(n as int) =~= s@);
    while n > 0 && s[n - 1] == c
        invariant
            n <= s@.len(),
            trim_end_of(s@.take(n as int), c) == trim_end_of(s@, c),
        decreases n,
    {
        assert(s@.take(n as int).drop_last() =~= s@.take(n - 1));
        n -= 1;
    }
    let r = slice_subrange(s, 0, n);
    assert(r@ =~= s@.take(n as int));
    r
}

pub fn trimmed_end_text<'a>(s: &'a [char], tail: &str) -> (r: &'a [char])
    ensures
        r@ == trim_end_text(s@, tail@),
{
    let t = chars_of(tail);
    let mut r: &'a [char] = s;
    let m: usize = t.len();
    if m == 0 {
        return s;
    }
    while r.len() >= m && occurs(r, t.as_slice(), r.len() - m)
        invariant
            t@ == tail@,
            m == tail@.len(),
            m > 0,
            trim_end_text(r@, tail@) == trim_end_text(s@, tail@),
        decreases r@.len(),
    {
        let k: usize = r.len() - m;
        assert(has_suffix(r@, tail@));
        let shorter = slice_subrange(r, 0, k);
        assert(shorter@ =~= r@.take(k as int));
        r = shorter;
    }
    r
}

pub fn has_char(s: &[char], c: char) -> (r: bool)
    ensures
        r == s@.contains(c),
{
    let n: usize = s.len();
    for i in 0..n
        invariant
            n == s@.len(),
            forall|j: int| 0 <= j < i ==> s@[j] != c,
    {
        if s[i] == c {
            return true;
        }
    }
    false
}

// ---------------------------------------------------------------------------
// Splitting and joining
// ---------------------------------------------------------------------------

/// What stands before the first `c` in `s`: all of `s` where there is none.
pub open spec fn before(s: Seq<char>, c: char) -> Seq<char>
    decreases s.len(),
{
    if s.len() == 0 || s[0] == c {
        Seq::empty()
    } else {
        seq![s[0]] + before(s.skip(1), c)
    }
}

/// What stands behind the last `c` in `s`: all of `s` where there is none.
pub open spec fn after_last(s: Seq<char>, c: char) -> Seq<char>
    decreases s.len(),
{
    if s.len() == 0 || s.last() == c {
        Seq::empty()
    } else {
        after_last(s.drop_last(), c).push(s.last())
    }
}

/// The pieces of `s` between the characters `c`: one more than there are such characters.
pub open spec fn split(s: Seq<char>, c: char) -> Seq<Seq<char>>
    decreases s.len(),
{
    if s.len() == 0 {
        seq![Seq::empty()]
    } else {
        let parts = split(s.drop_last(), c);
        if s.last() == c {
            parts.push(Seq::empty())
        } else {
            parts.drop_last().push(parts.last().push(s.last()))
        }
    }
}

/// `s` without the carriage return it ends with.
pub open spec fn without_return(s: Seq<char>) -> Seq<char> {
    if s.len() > 0 && s.last() == '\r' {
        s.drop_last()
    } else {
        s
    }
}

/// The lines of `s`. Each ends in a line feed, or in a carriage return and a line feed, that
/// is not part of it; a last line without an end counts unless it is empty.
pub open spec fn lines(s: Seq<char>) -> Seq<Seq<char>> {
    let parts = split(s, '\n');
    let ended = parts.drop_last().map_values(|l: Seq<char>| without_return(l));
    if parts.last().len() == 0 {
        ended
    } else {
        ended.push(parts.last())
    }
}

/// The first `n` pieces with `sep` between them.
pub open spec fn join_first(parts: Seq<Seq<char>>, sep: Seq<char>, n: nat) -> Seq<char>
    decreases n,
{
    if n == 0 {
        Seq::empty()
    } else if n == 1 {
        parts[0]
    } else {
        join_first(parts, sep, (n - 1) as nat) + sep + parts[n - 1]
    }
}

/// The pieces with `sep` between them.
pub open spec fn join(parts: Seq<Seq<char>>, sep: Seq<char>) -> Seq<char> {
    join_first(parts, sep, parts.len())
}

proof fn lemma_join_first_has(parts: Seq<Seq<char>>, sep: Seq<char>, n: nat, i: int)
    requires
        0 <= i < n <= parts.len(),
    ensures
        contains_text(join_first(parts, sep, n), parts[i]),
    decreases n,
{
    if n == 1 {
        lemma_contains_cat(parts[0], parts[0], parts[0]);
    } else {
        let before = join_first(parts, sep, (n - 1) as nat);
        lemma_contains_cat(before, sep, parts[i]);
        lemma_contains_cat(before + sep, parts[n - 1], parts[i]);
        if i < n - 1 {
            lemma_join_first_has(parts, sep, (n - 1) as nat, i);
        }
    }
}

/// Joined text holds each of its pieces.
pub proof fn lemma_join_has(parts: Seq<Seq<char>>, sep: Seq<char>, i: int)
    requires
        0 <= i < parts.len(),
    ensures
        contains_text(join(parts, sep), parts[i]),
{
    lemma_join_first_has(parts, sep, parts.len(), i);
}

pub fn before_char<'a>(s: &'a [char], c: char) -> (r: &'a [char])
    ensures
        r@ == before(s@, c),
{
    let n: usize = s.len();
    let mut i: usize = 0;
    assert(s@.skip(0) =~= s@);
    assert(s@.take(0) + before(s@, c) =~= before(s@, c));
    while i < n && s[i] != c
        invariant
            n == s@.len(),
            i <= n,
            s@.take(i as int) + before(s@.skip(i as int), c) == before(s@, c),
        decreases n - i,
    {
        assert(s@.skip(i as int).skip(1) =~= s@.skip(i + 1));
        assert(s@.take(i + 1) + before(s@.skip(i + 1), c) =~= s@.take(i as int) + before(
            s@.skip(i as int),
            c,
        ));
        i += 1;
    }
    let r = slice_subrange(s, 0, i);
    assert(r@ =~= s@.take(i as int) + before(s@.skip(i as int), c));
    r
}

pub fn after_last_char<'a>(s: &'a [char], c: char) -> (r: &'a [char])
    ensures
        r@ == after_last(s@, c),
{
    let n: usize = s.len();
    let mut i: usize = n;
    assert(s@.take(n as int) =~= s@);
    assert(after_last(s@, c) + s@.skip(n as int) =~= after_last(s@, c));
    while i > 0 && s[i - 1] != c
        invariant
            n == s@.len(),
            i <= n,
            after_last(s@.take(i as int), c) + s@.skip(i as int) == after_last(s@, c),
        decreases i,
    {
        assert(s@.take(i as int).drop_last() =~= s@.take(i - 1));
        assert(after_last(s@.take(i - 1), c) + s@.skip(i - 1) =~= after_last(s@.take(i as int), c)
            + s@.skip(i as int));
        i -= 1;
    }
    let r = slice_subrange(s, i, n);
    assert(r@ =~= after_last(s@.take(i as int), c) + s@.skip(i as int));
    r
}

pub proof fn lemma_split_len(s: Seq<char>, c: char)
    ensures
        split(s, c).len() > 0,
    decreases s.len(),
{
    if s.len() > 0 {
        lemma_split_len(s.drop_last(), c);
    }
}

/// The pieces on both sides of a `c` are the pieces of the whole.
pub proof fn lemma_split_cat(a: Seq<char>, c: char, b: Seq<char>)
    ensures
        split(a.push(c) + b, c) == split(a, c) + split(b, c),
    decreases b.len(),
{
    let whole = a.push(c) + b;
    lemma_split_len(a, c);
    lemma_split_len(b, c);
    if b.len() == 0 {
        assert(whole =~= a.push(c));
        assert(whole.drop_last() =~= a);
        assert(split(whole, c) =~= split(a, c) + split(b, c));
    } else {
        lemma_split_cat(a, c, b.drop_last());
        lemma_split_len(b.drop_last(), c);
        assert(whole.drop_last() =~= a.push(c) + b.drop_last());
        assert(whole.last() == b.last());
        assert(split(whole, c) =~= split(a, c) + split(b, c));
    }
}

/// A text without `c` is one piece.
pub proof fn lemma_split_one(a: Seq<char>, c: char)
    requires
        !a.contains(c),
    ensures
        split(a, c) == seq![a],
    decreases a.len(),
{
    if a.len() == 0 {
        assert(a =~= Seq::<char>::empty());
    } else {
        assert(a.last() != c) by {
            assert(a[a.len() - 1] == a.last());
        }
        assert(!a.drop_last().contains(c)) by {
            if a.drop_last().contains(c) {
                let i = choose|i: int| 0 <= i < a.drop_last().len() && a.drop_last()[i] == c;
                assert(a[i] == c);
            }
        }
        lemma_split_one(a.drop_last(), c);
        assert(a.drop_last().push(a.last()) =~= a);
        assert(split(a, c) =~= seq![a]);
    }
}

pub fn split_char(s: &[char], c: char) -> (r: Vec<String>)
    ensures
        r.deep_view() == split(s@, c),
        r@.len() > 0,
{
    let mut parts: Vec<String> = Vec::new();
    let mut cur = String::new();
    let n: usize = s.len();
    assert(s@.take(0) =~= Seq::<char>::empty());
    assert(split(s@.take(0), c) =~= parts.deep_view().push(cur@));
    for i in 0..n
        invariant
            n == s@.len(),
            split(s@.take(i as int), c) == parts.deep_view().push(cur@),
    {
        let ghost old_parts = parts.deep_view();
        let ghost old_cur = cur@;
        assert(s@.take(i + 1).drop_last() =~= s@.take(i as int));
        assert(old_parts.push(old_cur).drop_last() =~= old_parts);
        if s[i] == c {
            push_item(&mut parts, cur);
            cur = String::new();
        } else {
            cur.push(s[i]);
        }
    }
    assert(s@.take(n as int) =~= s@);
    push_item(&mut parts, cur);
    parts
}

pub fn lines_of(s: &[char]) -> (r: Vec<String>)
    ensures
        r.deep_view() == lines(s@),
{
    let parts = split_char(s, '\n');
    let ghost all = split(s@, '\n');
    let n: usize = parts.len();
    let mut out: Vec<String> = Vec::new();
    let last: usize = n - 1;
    for i in 0..last
        invariant
            n == parts@.len(),
            last == n - 1,
            parts.deep_view() == all,
            out.deep_view() =~= all.take(i as int).map_values(|l: Seq<char>| without_return(l)),
    {
        let cs = chars_of(parts[i].as_str());
        assert(cs@ == all[i as int]);
        let k: usize = cs.len();
        let line = if k > 0 && cs[k - 1] == '\r' {
            let t = slice_subrange(cs.as_slice(), 0, k - 1);
            assert(t@ =~= cs@.drop_last());
            text_of(t)
        } else {
            parts[i].clone()
        };
        push_item(&mut out, line);
    }
    assert(all.take(last as int) =~= all.drop_last());
    if !parts[last].as_str().is_empty() {
        let line = parts[last].clone();
        push_item(&mut out, line);
    }
    out
}

pub fn join_texts(parts: &Vec<String>, sep: &str) -> (r: String)
    ensures
        r@ == join(parts.deep_view(), sep@),
{
    let n: usize = parts.len();
    if n == 0 {
        return String::new();
    }
    let mut out = parts[0].clone();
    let mut i: usize = 1;
    while i < n
        invariant
            n == parts@.len(),
            1 <= i <= n,
            out@ == join_first(parts.deep_view(), sep@, i as nat),
        decreases n - i,
    {
        out.append(sep);
        out.append(parts[i].as_str());
        i += 1;
    }
    out
}

// ---------------------------------------------------------------------------
// Numbers
// ---------------------------------------------------------------------------

pub open spec fn digit_char(d: nat) -> char {
    ('0' as u32 + d) as char
}

/// `n` in decimal.
pub open spec fn decimal(n: nat) -> Seq<char>
    decreases n,
{
    if n < 10 {
        seq![digit_char(n)]
    } else {
        decimal(n / 10).push(digit_char(n % 10))
    }
}

/// `s` with zeros before it, up to a length of `width`.
pub open spec fn zero_padded(s: Seq<char>, width: nat) -> Seq<char> {
    if s.len() < width {
        Seq::new((width - s.len()) as nat, |i: int| '0') + s
    } else {
        s
    }
}

pub fn decimal_text(n: u64) -> (r: String)
    ensures
        r@ == decimal(n as nat),
    decreases n,
{
    let d: u8 = (n % 10) as u8;
    let c: char = (48u8 + d) as char;
    assert(c == digit_char((n % 10) as nat));
    if n < 10 {
        let mut s = String::new();
        s.push(c);
        assert(s@ =~= seq![c]);
        s
    } else {
        let mut s = decimal_text(n / 10);
        s.push(c);
        s
    }
}

pub fn padded_decimal(n: u64, width: usize) -> (r: String)
    ensures
        r@ == zero_padded(decimal(n as nat), width as nat),
{
    let d = decimal_text(n);
    let cs = chars_of(d.as_str());
    let k: usize = cs.len();
    if k >= width {
        return d;
    }
    let pad: usize = width - k;
    let mut s = String::new();
    for i in 0..pad
        invariant
            s@ =~= Seq::new(i as nat, |j: int| '0'),
    {
        s.push('0');
    }
    s.append(d.as_str());
    s
}

/// The number that a run of digits stands for.
pub open spec fn value_of(s: Seq<char>) -> nat
    decreases s.len(),
{
    if s.len() == 0 {
        0
    } else {
        value_of(s.drop_last()) * 10 + (s.last() as nat - '0' as nat) as nat
    }
}

/// The largest number with `k` digits.
pub open spec fn nines(k: nat) -> nat
    decreases k,
{
    if k == 0 {
        0
    } else {
        nines((k - 1) as nat) * 10 + 9
    }
}

/// A number in decimal is made of digits, and its digits stand for it.
pub proof fn lemma_decimal(n: nat)
    ensures
        all_digits(decimal(n)),
        decimal(n).len() > 0,
        value_of(decimal(n)) == n,
    decreases n,
{
    let d = decimal(n);
    reveal_with_fuel(value_of, 2);
    if n < 10 {
        assert(d.drop_last() =~= Seq::<char>::empty());
    } else {
        lemma_decimal(n / 10);
        assert(d.drop_last() =~= decimal(n / 10));
        assert forall|i: int| 0 <= i < d.len() implies is_digit(#[trigger] d[i]) by {
            if i < d.len() - 1 {
                assert(d[i] == decimal(n / 10)[i]);
            }
        }
    }
}

pub proof fn lemma_decimal_len(n: nat, k: nat)
    requires
        0 < k,
        n <= nines(k),
    ensures
        decimal(n).len() <= k,
    decreases k,
{
    reveal_with_fuel(nines, 2);
    if n >= 10 {
        lemma_decimal_len(n / 10, (k - 1) as nat);
    }
}

/// A machine number has at most twenty digits.
pub proof fn lemma_decimal_fits(n: nat)
    requires
        n <= u64::MAX,
    ensures
        decimal(n).len() <= 20,
{
    reveal_with_fuel(nines, 21);
    lemma_decimal_len(n, 20);
}

/// Zeros before a run of digits change neither what it is made of nor what it stands for.
pub proof fn lemma_zero_padded(s: Seq<char>, width: nat)
    requires
        all_digits(s),
    ensures
        all_digits(zero_padded(s, width)),
        value_of(zero_padded(s, width)) == value_of(s),
        zero_padded(s, width).len() == if s.len() < width {
            width
        } else {
            s.len()
        },
{
    if s.len() < width {
        let zeros = Seq::new((width - s.len()) as nat, |i: int| '0');
        lemma_leading_zeros(zeros, s);
        let p = zero_padded(s, width);
        assert forall|i: int| 0 <= i < p.len() implies is_digit(#[trigger] p[i]) by {
            if i < zeros.len() {
                assert(p[i] == zeros[i]);
            } else {
                assert(p[i] == s[i - zeros.len()]);
            }
        }
    }
}

proof fn lemma_leading_zeros(zeros: Seq<char>, s: Seq<char>)
    requires
        forall|i: int| 0 <= i < zeros.len() ==> #[trigger] zeros[i] == '0',
    ensures
        value_of(zeros + s) == value_of(s),
    decreases zeros.len() + s.len(),
{
    if s.len() > 0 {
        assert((zeros + s).drop_last() =~= zeros + s.drop_last());
        lemma_leading_zeros(zeros, s.drop_last());
    } else if zeros.len() > 0 {
        assert(zeros + s =~= zeros);
        assert(zeros.drop_last() + s =~= zeros.drop_last());
        lemma_leading_zeros(zeros.drop_last(), s);
    } else {
        assert(zeros + s =~= s);
    }
}

/// `n` in decimal with zeros before it: digits that stand for `n`, so no two numbers look alike.
pub proof fn lemma_padded(n: nat, width: nat)
    ensures
        all_digits(zero_padded(decimal(n), width)),
        value_of(zero_padded(decimal(n), width)) == n,
        n <= u64::MAX && width <= 20 ==> zero_padded(decimal(n), width).len() <= 20,
{
    lemma_decimal(n);
    lemma_zero_padded(decimal(n), width);
    if n <= u64::MAX {
        lemma_decimal_fits(n);
    }
}

// ---------------------------------------------------------------------------
// Letter case
// ---------------------------------------------------------------------------

pub open spec fn all_ascii(s: Seq<char>) -> bool {
    vstd::utf8::is_ascii_chars(s)
}

pub open spec fn ascii_lower_char(c: char) -> char {
    if 'A' <= c <= 'Z' {
        (c as u32 + 32) as char
    } else {
        c
    }
}

pub open spec fn ascii_upper_char(c: char) -> char {
    if 'a' <= c <= 'z' {
        (c as u32 - 32) as char
    } else {
        c
    }
}

pub open spec fn ascii_lower(s: Seq<char>) -> Seq<char> {
    s.map_values(|c: char| ascii_lower_char(c))
}

pub open spec fn ascii_upper(s: Seq<char>) -> Seq<char> {
    s.map_values(|c: char| ascii_upper_char(c))
}

/// What `str::to_lowercase` makes of a text that is not all ASCII.
pub uninterp spec fn unicode_lowercase(s: Seq<char>) -> Seq<char>;

/// What `str::to_uppercase` makes of a text that is not all ASCII.
pub uninterp spec fn unicode_uppercase(s: Seq<char>) -> Seq<char>;

/// `s` in lower case.
pub open spec fn lowered(s: Seq<char>) -> Seq<char> {
    if all_ascii(s) {
        ascii_lower(s)
    } else {
        unicode_lowercase(s)
    }
}

/// `s` in upper case.
pub open spec fn uppered(s: Seq<char>) -> Seq<char> {
    if all_ascii(s) {
        ascii_upper(s)
    } else {
        unicode_uppercase(s)
    }
}

/// `str::to_lowercase`: on ASCII text the letters `A` to `Z` become `a` to `z` and nothing else
/// changes; on other text the result depends on the text alone.
#[verifier::external_body]
pub(crate) fn lowercase(s: &str) -> (r: String)
    ensures
        all_ascii(s@) ==> r@ == ascii_lower(s@),
        !all_ascii(s@) ==> r@ == unicode_lowercase(s@),
{
    s.to_lowercase()
}

/// `str::to_uppercase`: on ASCII text the letters `a` to `z` become `A` to `Z` and nothing else
/// changes; on other text the result depends on the text alone.
#[verifier::external_body]
pub(crate) fn uppercase(s: &str) -> (r: String)
    ensures
        all_ascii(s@) ==> r@ == ascii_upper(s@),
        !all_ascii(s@) ==> r@ == unicode_uppercase(s@),
{
    s.to_uppercase()
}

/// `s` with its first character in upper case.
pub open spec fn capitalised(s: Seq<char>) -> Seq<char> {
    if s.len() == 0 {
        s
    } else {
        uppered(seq![s[0]]) + s.skip(1)
    }
}

pub fn capitalise(s: &[char]) -> (r: String)
    ensures
        r@ == capitalised(s@),
{
    if s.len() == 0 {
        return text_of(s);
    }
    let first = slice_subrange(s, 0, 1);
    assert(first@ =~= seq![s@[0]]);
    let mut out = uppercase(text_of(first).as_str());
    let rest = slice_subrange(s, 1, s.len());
    assert(rest@ =~= s@.skip(1));
    push_chars(&mut out, rest);
    out
}

/// Whether `s` is `lower` once its ASCII letters are in lower case; `lower` holds no upper case
/// ASCII letter.
pub fn same_ignoring_ascii_case(s: &[char], lower: &str) -> (r: bool)
    ensures
        r == (ascii_lower(s@) == lower@),
{
    let t = chars_of(lower);
    let n: usize = s.len();
    if n != t.len() {
        assert(ascii_lower(s@).len() != lower@.len());
        return false;
    }
    for i in 0..n
        invariant
            n == s@.len(),
            n == t@.len(),
            t@ == lower@,
            forall|j: int| 0 <= j < i ==> ascii_lower_char(#[trigger] s@[j]) == t@[j],
    {
        let c: char = s[i];
        let l: char = if 'A' <= c && c <= 'Z' {
            (c as u8 + 32u8) as char
        } else {
            c
        };
        assert(l == ascii_lower_char(c));
        if l != t[i] {
            assert(ascii_lower(s@)[i as int] != lower@[i as int]);
            return false;
        }
    }
    assert(ascii_lower(s@) =~= lower@);
    true
}

// ---------------------------------------------------------------------------
// Laws
// ---------------------------------------------------------------------------

/// What occurs in a text occurs at the same place behind more text, and what occurs behind the
/// join occurs in the second text.
pub proof fn lemma_occurs_behind(a: Seq<char>, b: Seq<char>, needle: Seq<char>, i: int)
    requires
        0 <= i,
    ensures
        occurs_at(a + b, needle, a.len() + i) <==> occurs_at(b, needle, i),
{
    if i + needle.len() <= b.len() {
        assert((a + b).subrange(a.len() + i, a.len() + i + needle.len()) =~= b.subrange(
            i,
            i + needle.len(),
        ));
    }
}

/// What occurs within the first of two texts occurs in both together, and only that does.
pub proof fn lemma_occurs_before(a: Seq<char>, b: Seq<char>, needle: Seq<char>, i: int)
    requires
        0 <= i,
        i + needle.len() <= a.len(),
    ensures
        occurs_at(a + b, needle, i) <==> occurs_at(a, needle, i),
{
    assert((a + b).subrange(i, i + needle.len()) =~= a.subrange(i, i + needle.len()));
}

/// The first place at which a text occurs is the one that is found.
pub proof fn lemma_find_first(s: Seq<char>, needle: Seq<char>, from: int, i: int)
    requires
        0 <= from <= i,
        occurs_at(s, needle, i),
        forall|j: int| from <= j < i ==> !occurs_at(s, needle, j),
    ensures
        find_from(s, needle, from) == Some(i),
{
    lemma_find_from(s, needle, from);
}

pub proof fn lemma_find_none(s: Seq<char>, needle: Seq<char>, from: int)
    requires
        0 <= from,
        forall|j: int| from <= j ==> !occurs_at(s, needle, j),
    ensures
        find_from(s, needle, from) is None,
{
    lemma_find_from(s, needle, from);
}

/// Text in front moves what is found behind it.
pub proof fn lemma_find_shift(a: Seq<char>, b: Seq<char>, needle: Seq<char>, from: int)
    requires
        0 <= from,
    ensures
        find_from(a + b, needle, a.len() + from) == (match find_from(b, needle, from) {
            Some(i) => Some(a.len() + i),
            None => None::<int>,
        }),
{
    lemma_find_from(b, needle, from);
    match find_from(b, needle, from) {
        Some(i) => {
            lemma_occurs_behind(a, b, needle, i);
            assert forall|j: int| a.len() + from <= j < a.len() + i implies !occurs_at(
                a + b,
                needle,
                j,
            ) by {
                lemma_occurs_behind(a, b, needle, j - a.len());
            }
            lemma_find_first(a + b, needle, a.len() + from, a.len() + i);
        },
        None => {
            assert forall|j: int| a.len() + from <= j implies !occurs_at(a + b, needle, j) by {
                lemma_occurs_behind(a, b, needle, j - a.len());
            }
            lemma_find_none(a + b, needle, a.len() + from);
        },
    }
}

/// `needle` does not begin again within itself: its first character occurs nowhere else in it.
pub open spec fn starts_once(needle: Seq<char>) -> bool {
    &&& needle.len() > 0
    &&& forall|i: int| 0 < i < needle.len() ==> #[trigger] needle[i] != needle[0]
}

/// A text whose first character stands only at its beginning cannot straddle the join of two
/// texts where the second begins with that character or is empty.
pub proof fn lemma_no_straddle(a: Seq<char>, b: Seq<char>, needle: Seq<char>, i: int)
    requires
        starts_once(needle),
        b.len() == 0 || b[0] == needle[0],
        0 <= i < a.len(),
    ensures
        occurs_at(a + b, needle, i) <==> occurs_at(a, needle, i),
{
    if i + needle.len() <= a.len() {
        lemma_occurs_before(a, b, needle, i);
    } else if occurs_at(a + b, needle, i) {
        let k = a.len() - i;
        assert((a + b).subrange(i, i + needle.len())[k] == (a + b)[a.len() as int]);
        assert(needle[k] == b[0]);
    }
}

proof fn lemma_replace_shift(
    a: Seq<char>,
    b: Seq<char>,
    needle: Seq<char>,
    by: Seq<char>,
    from: int,
)
    requires
        needle.len() > 0,
        0 <= from <= b.len(),
    ensures
        replace_from(a + b, needle, by, a.len() + from) == replace_from(b, needle, by, from),
    decreases b.len() - from,
{
    lemma_find_shift(a, b, needle, from);
    lemma_find_from(b, needle, from);
    match find_from(b, needle, from) {
        Some(i) => {
            lemma_replace_shift(a, b, needle, by, i + needle.len());
            assert((a + b).subrange(a.len() + from, a.len() + i) =~= b.subrange(from, i));
        },
        None => {
            assert((a + b).skip(a.len() + from) =~= b.skip(from));
        },
    }
}

/// Replacing goes from left to right over the whole text: what stands before the first occurrence
/// stays, the occurrence is replaced, and what follows it is replaced in the same way.
pub proof fn law_replaced(a: Seq<char>, b: Seq<char>, needle: Seq<char>, by: Seq<char>)
    requires
        needle.len() > 0,
        forall|i: int| 0 <= i < a.len() ==> !occurs_at(a + needle + b, needle, i),
    ensures
        replaced(a + needle + b, needle, by) == a + by + replaced(b, needle, by),
{
    let s = a + needle + b;
    assert(s.subrange(a.len() as int, (a.len() + needle.len()) as int) =~= needle);
    lemma_find_first(s, needle, 0, a.len() as int);
    assert(s.subrange(0, a.len() as int) =~= a);
    lemma_replace_shift(a + needle, b, needle, by, 0);
}

/// A text in which the needle does not occur stays.
pub proof fn law_nothing_to_replace(s: Seq<char>, needle: Seq<char>, by: Seq<char>)
    requires
        needle.len() > 0,
        !contains_text(s, needle),
    ensures
        replaced(s, needle, by) == s,
{
    lemma_find_none(s, needle, 0);
    assert(s.skip(0) =~= s);
}

/// Replacing in two texts is replacing in both together, where the needle cannot straddle their
/// join.
pub proof fn law_replaced_cat(a: Seq<char>, b: Seq<char>, needle: Seq<char>, by: Seq<char>)
    requires
        starts_once(needle),
        b.len() == 0 || b[0] == needle[0],
    ensures
        replaced(a + b, needle, by) == replaced(a, needle, by) + replaced(b, needle, by),
    decreases a.len(),
{
    lemma_find_from(a, needle, 0);
    match find_from(a, needle, 0) {
        Some(i) => {
            let a1 = a.take(i);
            let a2 = a.skip(i + needle.len());
            assert(a =~= a1 + needle + a2);
            assert(a + b =~= a1 + needle + (a2 + b));
            assert forall|j: int| 0 <= j < a1.len() implies !occurs_at(
                a1 + needle + (a2 + b),
                needle,
                j,
            ) by {
                lemma_no_straddle(a, b, needle, j);
            }
            law_replaced(a1, a2, needle, by);
            law_replaced(a1, a2 + b, needle, by);
            law_replaced_cat(a2, b, needle, by);
            lemma_cat_assoc(a1 + by, replaced(a2, needle, by), replaced(b, needle, by));
        },
        None => {
            assert(!contains_text(a, needle));
            law_nothing_to_replace(a, needle, by);
            assert forall|j: int| 0 <= j < a.len() implies !occurs_at(a + b, needle, j) by {
                lemma_no_straddle(a, b, needle, j);
            }
            lemma_replaced_behind(a, b, needle, by);
        },
    }
}

/// Text in which no occurrence begins stays in front of what is replaced.
pub proof fn lemma_replaced_behind(a: Seq<char>, b: Seq<char>, needle: Seq<char>, by: Seq<char>)
    requires
        needle.len() > 0,
        forall|i: int| 0 <= i < a.len() ==> !occurs_at(a + b, needle, i),
    ensures
        replaced(a + b, needle, by) == a + replaced(b, needle, by),
{
    lemma_find_from(b, needle, 0);
    match find_from(b, needle, 0) {
        Some(i) => {
            let b1 = b.take(i);
            let b2 = b.skip(i + needle.len());
            assert(b =~= b1 + needle + b2);
            assert(a + b =~= (a + b1) + needle + b2);
            assert forall|j: int| 0 <= j < (a + b1).len() implies !occurs_at(
                (a + b1) + needle + b2,
                needle,
                j,
            ) by {
                if j >= a.len() {
                    lemma_occurs_behind(a, b, needle, j - a.len());
                }
            }
            law_replaced(b1, b2, needle, by);
            law_replaced(a + b1, b2, needle, by);
            lemma_cat_assoc(a, b1, by);
            lemma_cat_assoc(a, b1 + by, replaced(b2, needle, by));
        },
        None => {
            assert(!contains_text(b, needle));
            law_nothing_to_replace(b, needle, by);
            assert(!contains_text(a + b, needle)) by {
                if contains_text(a + b, needle) {
                    let j = choose|j: int| occurs_at(a + b, needle, j);
                    if j >= a.len() {
                        lemma_occurs_behind(a, b, needle, j - a.len());
                    }
                }
            }
            law_nothing_to_replace(a + b, needle, by);
        },
    }
}

/// The lines of a text that ends a line are followed by the lines of what stands behind it.
pub proof fn law_lines_cat(a: Seq<char>, b: Seq<char>)
    requires
        a.len() == 0 || a.last() == '\n',
    ensures
        lines(a + b) == lines(a) + lines(b),
{
    if a.len() == 0 {
        assert(a + b =~= b);
        assert(a =~= Seq::<char>::empty());
        assert(lines(a) =~= Seq::<Seq<char>>::empty());
        assert(lines(a) + lines(b) =~= lines(b));
    } else {
        let f = |l: Seq<char>| without_return(l);
        let x = a.drop_last();
        assert(a =~= x.push('\n'));
        lemma_split_cat(x, '\n', b);
        lemma_split_cat(x, '\n', Seq::empty());
        assert(x.push('\n') + Seq::<char>::empty() =~= a);
        lemma_split_len(x, '\n');
        lemma_split_len(b, '\n');
        let sx = split(x, '\n');
        let sb = split(b, '\n');
        assert(split(a, '\n').drop_last() =~= sx);
        assert(lines(a) =~= sx.map_values(f));
        assert((sx + sb).drop_last() =~= sx + sb.drop_last());
        assert((sx + sb).drop_last().map_values(f) =~= sx.map_values(f) + sb.drop_last().map_values(
            f,
        ));
        assert(lines(a + b) =~= lines(a) + lines(b));
    }
}

/// A line is one line, with or without its end.
pub proof fn law_one_line(l: Seq<char>)
    requires
        !l.contains('\n'),
    ensures
        lines(l.push('\n')) == seq![without_return(l)],
        l.len() > 0 ==> lines(l) == seq![l],
{
    lemma_split_one(l, '\n');
    lemma_split_cat(l, '\n', Seq::empty());
    assert(l.push('\n') + Seq::<char>::empty() =~= l.push('\n'));
    let p = split(l.push('\n'), '\n');
    assert(p =~= seq![l, Seq::empty()]);
    assert(p.drop_last() =~= seq![l]);
    assert(lines(l.push('\n')) =~= seq![without_return(l)]);
    assert(lines(l) =~= seq![l] || l.len() == 0);
}

/// What a text begins with, a longer one begins with.
pub proof fn lemma_prefix_cat(p: Seq<char>, a: Seq<char>, b: Seq<char>)
    requires
        has_prefix(a, p),
    ensures
        has_prefix(a + b, p),
{
    assert((a + b).subrange(0, p.len() as int) =~= a.subrange(0, p.len() as int));
}

/// A text begins with its first part and ends with its last.
pub proof fn lemma_ends(a: Seq<char>, b: Seq<char>)
    ensures
        has_prefix(a + b, a),
        has_suffix(a + b, b),
        has_prefix(a, a),
{
    assert((a + b).subrange(0, a.len() as int) =~= a);
    assert((a + b).subrange((a + b).len() - b.len(), (a + b).len() as int) =~= b);
    assert(a.subrange(0, a.len() as int) =~= a);
}

/// Joining puts the separator between the pieces, in their order, and nowhere else.
pub proof fn law_join(parts: Seq<Seq<char>>, sep: Seq<char>, last: Seq<char>)
    ensures
        join(Seq::empty(), sep) == Seq::<char>::empty(),
        join(seq![last], sep) == last,
        parts.len() > 0 ==> join(parts.push(last), sep) == join(parts, sep) + sep + last,
{
    reveal_with_fuel(join_first, 2);
    if parts.len() > 0 {
        lemma_join_first_same(parts.push(last), parts, sep, parts.len());
    }
}

proof fn lemma_join_first_same(a: Seq<Seq<char>>, b: Seq<Seq<char>>, sep: Seq<char>, n: nat)
    requires
        n <= a.len(),
        n <= b.len(),
        forall|i: int| 0 <= i < n ==> a[i] == b[i],
    ensures
        join_first(a, sep, n) == join_first(b, sep, n),
    decreases n,
{
    if n > 1 {
        lemma_join_first_same(a, b, sep, (n - 1) as nat);
    }
}

/// Splitting and joining undo each other: the pieces of a text with their separator between them
/// are the text.
pub proof fn law_split_pieces_make_the_text(s: Seq<char>, c: char)
    ensures
        join(split(s, c), seq![c]) == s,
    decreases s.len(),
{
    lemma_split_len(s, c);
    if s.len() == 0 {
        reveal_with_fuel(join_first, 2);
        assert(join(split(s, c), seq![c]) =~= s);
    } else {
        let front = s.drop_last();
        let parts = split(front, c);
        law_split_pieces_make_the_text(front, c);
        lemma_split_len(front, c);
        assert(s =~= front.push(s.last()));
        if s.last() == c {
            law_join(parts, seq![c], Seq::empty());
            assert(front + seq![c] + Seq::<char>::empty() =~= s);
        } else {
            let head = parts.drop_last();
            let grown = parts.last().push(s.last());
            law_join(head, seq![c], grown);
            law_join(head, seq![c], parts.last());
            assert(parts =~= head.push(parts.last()));
            if head.len() > 0 {
                assert(join(head, seq![c]) + seq![c] + grown =~= (join(head, seq![c]) + seq![c]
                    + parts.last()).push(s.last()));
            } else {
                assert(parts =~= seq![parts.last()]);
                assert(head.push(grown) =~= seq![grown]);
            }
        }
    }
}

/// Trimming takes white space from both ends and nothing else.
pub proof fn law_trim(s: Seq<char>) -> (r: (Seq<char>, Seq<char>))
    ensures
        s == r.0 + trim(s) + r.1,
        forall|i: int| 0 <= i < r.0.len() ==> is_space(#[trigger] r.0[i]),
        forall|i: int| 0 <= i < r.1.len() ==> is_space(#[trigger] r.1[i]),
        trim(s).len() > 0 ==> !is_space(trim(s)[0]) && !is_space(trim(s).last()),
{
    let a = lemma_trim_start_parts(s);
    let b = lemma_trim_end_parts(trim_start(s));
    assert(s =~= a + trim(s) + b);
    (a, b)
}

proof fn lemma_trim_start_parts(s: Seq<char>) -> (a: Seq<char>)
    ensures
        s == a + trim_start(s),
        forall|i: int| 0 <= i < a.len() ==> is_space(#[trigger] a[i]),
        trim_start(s).len() > 0 ==> !is_space(trim_start(s)[0]),
    decreases s.len(),
{
    if s.len() > 0 && is_space(s[0]) {
        let a = lemma_trim_start_parts(s.skip(1));
        let b = seq![s[0]] + a;
        assert(s =~= b + trim_start(s));
        assert forall|i: int| 0 <= i < b.len() implies is_space(#[trigger] b[i]) by {
            if i > 0 {
                assert(b[i] == a[i - 1]);
            }
        }
        b
    } else {
        assert(s =~= Seq::<char>::empty() + s);
        Seq::empty()
    }
}

proof fn lemma_trim_end_parts(s: Seq<char>) -> (b: Seq<char>)
    ensures
        s == trim_end(s) + b,
        forall|i: int| 0 <= i < b.len() ==> is_space(#[trigger] b[i]),
        trim_end(s).len() > 0 ==> !is_space(trim_end(s).last()),
    decreases s.len(),
{
    if s.len() > 0 && is_space(s.last()) {
        let b = lemma_trim_end_parts(s.drop_last());
        let c = b.push(s.last());
        assert(s =~= s.drop_last().push(s.last()));
        assert(trim_end(s) + c =~= (trim_end(s) + b).push(s.last()));
        assert forall|i: int| 0 <= i < c.len() implies is_space(#[trigger] c[i]) by {
            if i < b.len() {
                assert(c[i] == b[i]);
            }
        }
        c
    } else {
        assert(s =~= s + Seq::<char>::empty());
        Seq::empty()
    }
}

/// What stands behind the last of a character holds none of it, and ends the text.
pub proof fn law_after_last(a: Seq<char>, c: char, b: Seq<char>)
    requires
        !b.contains(c),
    ensures
        after_last(a + seq![c] + b, c) == b,
        after_last(b, c) == b,
    decreases b.len(),
{
    let s = a + seq![c] + b;
    if b.len() == 0 {
        assert(s.last() == c);
        assert(b =~= Seq::<char>::empty());
    } else {
        let front = b.drop_last();
        assert(s.last() == b.last());
        assert(b.contains(b[b.len() - 1]));
        assert(!front.contains(c)) by {
            if front.contains(c) {
                let i = choose|i: int| 0 <= i < front.len() && front[i] == c;
                assert(b[i] == c);
            }
        }
        law_after_last(a, c, front);
        assert(s.drop_last() =~= a + seq![c] + front);
        assert(front.push(b.last()) =~= b);
    }
}

/// What stands before the first of a character holds none of it, and begins the text.
pub proof fn law_before(a: Seq<char>, c: char, b: Seq<char>)
    requires
        !a.contains(c),
    ensures
        before(a + seq![c] + b, c) == a,
        before(a, c) == a,
    decreases a.len(),
{
    let s = a + seq![c] + b;
    if a.len() == 0 {
        assert(s[0] == c);
        assert(a =~= Seq::<char>::empty());
    } else {
        assert(a.contains(a[0]));
        assert(s[0] == a[0]);
        let rest = a.skip(1);
        assert(!rest.contains(c)) by {
            if rest.contains(c) {
                let i = choose|i: int| 0 <= i < rest.len() && rest[i] == c;
                assert(a[i + 1] == c);
            }
        }
        law_before(rest, c, b);
        assert(s.skip(1) =~= rest + seq![c] + b);
        assert(seq![a[0]] + rest =~= a);
    }
}

/// A prefix or a suffix is taken off whole, and what is left is kept.
pub proof fn law_affixes_are_taken_off(p: Seq<char>, s: Seq<char>)
    ensures
        without_prefix(p + s, p) == Some(s),
        without_suffix(s + p, p) == Some(s),
        !has_prefix(s, p) ==> without_prefix(s, p) is None,
        !has_suffix(s, p) ==> without_suffix(s, p) is None,
{
    lemma_ends(p, s);
    lemma_ends(s, p);
    assert((p + s).skip(p.len() as int) =~= s);
    assert((s + p).take((s + p).len() - p.len()) =~= s);
}

/// Copies of a character at the end are taken off, all of them and nothing else.
pub proof fn law_trim_end_of(s: Seq<char>, c: char, tail: Seq<char>)
    requires
        s.len() > 0 ==> s.last() != c,
        forall|i: int| 0 <= i < tail.len() ==> #[trigger] tail[i] == c,
    ensures
        trim_end_of(s + tail, c) == s,
    decreases tail.len(),
{
    if tail.len() == 0 {
        assert(s + tail =~= s);
    } else {
        assert((s + tail).last() == tail[tail.len() - 1]);
        assert((s + tail).drop_last() =~= s + tail.drop_last());
        law_trim_end_of(s, c, tail.drop_last());
    }
}

/// Replacing one character is done character by character: it distributes over any concatenation,
/// puts the substitute for that character and keeps every other.
pub proof fn law_replacing_a_character(a: Seq<char>, c: char, b: Seq<char>, d: char, by: Seq<char>)
    ensures
        replaced(a + seq![d] + b, seq![c], by) == replaced(a, seq![c], by) + (if d == c {
            by
        } else {
            seq![d]
        }) + replaced(b, seq![c], by),
    decreases a.len(),
{
    let n = seq![c];
    if a.len() == 0 {
        assert(a + seq![d] + b =~= seq![d] + b);
        lemma_find_none(a, n, 0);
        assert(replaced(a, n, by) =~= Seq::<char>::empty());
        lemma_replaced_head(d, b, c, by);
        let one = if d == c {
            by
        } else {
            seq![d]
        };
        assert(replaced(a, n, by) + one =~= one);
    } else {
        let h = a[0];
        let t = a.skip(1);
        let one = if d == c {
            by
        } else {
            seq![d]
        };
        let first = if h == c {
            by
        } else {
            seq![h]
        };
        assert(a =~= seq![h] + t);
        assert(a + seq![d] + b =~= seq![h] + (t + seq![d] + b));
        lemma_replaced_head(h, t, c, by);
        lemma_replaced_head(h, t + seq![d] + b, c, by);
        law_replacing_a_character(t, c, b, d, by);
        let r = replaced(t, n, by);
        let q = replaced(b, n, by);
        lemma_cat_assoc(first, r, one);
        lemma_cat_assoc(first, r + one, q);
    }
}

proof fn lemma_replaced_head(h: char, t: Seq<char>, c: char, by: Seq<char>)
    ensures
        replaced(seq![h] + t, seq![c], by) == (if h == c {
            by
        } else {
            seq![h]
        }) + replaced(t, seq![c], by),
{
    let n = seq![c];
    if h == c {
        assert(Seq::<char>::empty() + n + t =~= seq![h] + t);
        law_replaced(Seq::empty(), t, n, by);
        assert(Seq::<char>::empty() + by =~= by);
    } else {
        assert forall|i: int| 0 <= i < seq![h].len() implies !occurs_at(seq![h] + t, n, i) by {
            if occurs_at(seq![h] + t, n, i) {
                assert((seq![h] + t).subrange(0, 1)[0] == n[0]);
            }
        }
        lemma_replaced_behind(seq![h], t, n, by);
    }
}

/// Only the first character of a text is capitalised; what follows it is kept.
pub proof fn law_capitalised(c: char, rest: Seq<char>)
    ensures
        capitalised(seq![c] + rest) == uppered(seq![c]) + rest,
        capitalised(Seq::empty()) == Seq::<char>::empty(),
{
    assert((seq![c] + rest).skip(1) =~= rest);
}

/// Replacing one character distributes over any concatenation.
pub proof fn lemma_replaced_splits(a: Seq<char>, b: Seq<char>, c: char, by: Seq<char>)
    ensures
        replaced(a + b, seq![c], by) == replaced(a, seq![c], by) + replaced(b, seq![c], by),
    decreases b.len(),
{
    if b.len() == 0 {
        lemma_replaced_char(c, c, by);
        assert(a + b =~= a);
        assert(b =~= Seq::<char>::empty());
        assert(replaced(a, seq![c], by) + Seq::<char>::empty() =~= replaced(a, seq![c], by));
    } else {
        let h = b[0];
        let t = b.skip(1);
        assert(b =~= seq![h] + t);
        assert(a + b =~= a + seq![h] + t);
        law_replacing_a_character(a, c, t, h, by);
        lemma_replaced_head(h, t, c, by);
        lemma_cat_assoc(
            replaced(a, seq![c], by),
            if h == c {
                by
            } else {
                seq![h]
            },
            replaced(t, seq![c], by),
        );
    }
}

/// What one character is replaced by.
pub proof fn lemma_replaced_char(d: char, c: char, by: Seq<char>)
    ensures
        replaced(Seq::empty(), seq![c], by) == Seq::<char>::empty(),
        replaced(seq![d], seq![c], by) == (if d == c {
            by
        } else {
            seq![d]
        }),
{
    let none = Seq::<char>::empty();
    lemma_find_none(none, seq![c], 0);
    assert(none.skip(0) =~= none);
    lemma_replaced_head(d, none, c, by);
    assert(seq![d] + none =~= seq![d]);
    assert(by + none =~= by);
}

/// One copy of an ending is taken off where there is one, and a text without it stays.
pub proof fn law_trim_end_text(s: Seq<char>, tail: Seq<char>)
    requires
        tail.len() > 0,
        !has_suffix(s, tail),
    ensures
        trim_end_text(s + tail, tail) == s,
        trim_end_text(s, tail) == s,
{
    reveal_with_fuel(trim_end_text, 2);
    lemma_ends(s, tail);
    assert((s + tail).take((s + tail).len() - tail.len()) =~= s);
}

} // verus!
