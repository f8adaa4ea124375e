//! Microsoft Learn markdown to XHTML for EPUB.
//!
//! Learn markdown is CommonMark plus a few house extensions. The extensions are rewritten first,
//! then `pulldown-cmark` renders the text, and last the HTML is mended so that it parses as
//! XHTML.

use crate::epub;
use crate::text;
use pulldown_cmark::html;
use pulldown_cmark::Options;
use pulldown_cmark::Parser;
use vstd::prelude::*;
use vstd::slice::slice_subrange;
use vstd::string::*;

verus! {

broadcast use vstd::seq_lib::group_seq_properties;

/// Learn docs base for absolutising root-relative links like `/azure/...`.
pub const LEARN_DOCS_BASE: &'static str = "https://learn.microsoft.com";

// ---------------------------------------------------------------------------
// Rendering
// ---------------------------------------------------------------------------

/// The HTML that `pulldown-cmark` renders from CommonMark, with tables, strikethrough and
/// footnotes where they are asked for.
pub uninterp spec fn commonmark(
    md: Seq<char>,
    tables: bool,
    strikethrough: bool,
    footnotes: bool,
) -> Seq<char>;

/// `pulldown_cmark::html::push_html` over `Parser::new_ext`: the HTML depends on the text and on
/// the three options alone.
#[verifier::external_body]
fn render_commonmark(md: &str, tables: bool, strikethrough: bool, footnotes: bool) -> (r: String)
    ensures
        r@ == commonmark(md@, tables, strikethrough, footnotes),
{
    let mut opts = Options::empty();
    opts.set(Options::ENABLE_TABLES, tables);
    opts.set(Options::ENABLE_STRIKETHROUGH, strikethrough);
    opts.set(Options::ENABLE_FOOTNOTES, footnotes);
    let mut out = String::new();
    html::push_html(&mut out, Parser::new_ext(md, opts));
    out
}

/// A unit's markdown as an XHTML fragment.
pub open spec fn xhtml_of(md: Seq<char>, media_base: Seq<char>, unit_url: Seq<char>) -> Seq<char> {
    finished(commonmark(preprocessed(md, media_base, unit_url), true, true, true))
}

/// Converts a unit's markdown to an XHTML fragment.
///
/// `media_base` is the absolute raw URL of the module folder, so that `../media/x.png` resolves
/// to something fetchable.
pub fn markdown_to_xhtml(md: &str, media_base: &str) -> (r: String)
    ensures
        r@ == xhtml_of(md@, media_base@, ""@),
{
    markdown_to_xhtml_with_unit(md, media_base, "")
}

/// Like [`markdown_to_xhtml`], but `unit_url` (the unit's Learn page) becomes the target of
/// video references: the page plays the video in context, where a link to the player renders
/// blank in most EPUB readers. Where it is empty the player's URL is kept.
pub fn markdown_to_xhtml_with_unit(md: &str, media_base: &str, unit_url: &str) -> (r: String)
    ensures
        r@ == xhtml_of(md@, media_base@, unit_url@),
{
    let pre = preprocess(md, media_base, unit_url);
    let html = render_commonmark(pre.as_str(), true, true, true);
    finish_html(html.as_str())
}

/// Rendered HTML as the EPUB holds it.
pub open spec fn finished(html: Seq<char>) -> Seq<char> {
    inline_code_from(xhtml_fixed(html), 0)
}

/// Mends rendered HTML so that it parses as XHTML, and marks inline code with the class `ic`, so
/// that a stylesheet can tell it from code blocks. The stylesheet of the package gives both the
/// same monospace font and has no rule for the mark. Code blocks keep their language classes.
pub fn finish_html(html: &str) -> (r: String)
    ensures
        r@ == finished(html@),
{
    mark_inline_code(xhtmlify(html).as_str())
}

// ---------------------------------------------------------------------------
// Code
// ---------------------------------------------------------------------------

/// `html` from `pos` on, in which each `<code>` that does not stand directly behind a `<pre>`
/// has the class `ic`.
pub open spec fn inline_code_from(html: Seq<char>, pos: int) -> Seq<char>
    decreases html.len() - pos,
{
    if pos < 0 || pos > html.len() {
        Seq::empty()
    } else {
        proof {
            reveal_strlit("<code>");
            text::lemma_find_from(html, "<code>"@, pos);
        }
        match text::find_from(html, "<code>"@, pos) {
            Some(i) => html.subrange(pos, i) + (if text::occurs_at(html, "<pre>"@, i - "<pre>"@.len()) {
                "<code>"@
            } else {
                "<code class=\"ic\">"@
            }) + inline_code_from(html, i + "<code>"@.len()),
            None => html.skip(pos),
        }
    }
}

/// Gives inline code the class `ic`. Code blocks (`<pre><code ...>`) keep what they have.
pub fn mark_inline_code(html: &str) -> (r: String)
    ensures
        r@ == inline_code_from(html@, 0),
{
    let s = text::chars_of(html);
    let pre = text::chars_of("<pre>");
    let total: usize = s.len();
    let mut out = String::new();
    let mut pos: usize = 0;
    proof {
        reveal_strlit("<code>");
        reveal_strlit("<pre>");
    }
    assert(out@ + inline_code_from(s@, 0) =~= inline_code_from(s@, 0));
    loop
        invariant
            s@ == html@,
            total == s@.len(),
            pos <= total,
            pre@ == "<pre>"@,
            "<pre>"@.len() == 5,
            "<code>"@.len() == 6,
            out@ + inline_code_from(s@, pos as int) == inline_code_from(s@, 0),
        decreases total - pos,
    {
        match text::find_str(s.as_slice(), "<code>", pos) {
            Some(i) => {
                let ghost before = out@;
                let ghost rest = inline_code_from(s@, i + 6);
                let ghost a = s@.subrange(pos as int, i as int);
                text::push_chars(&mut out, slice_subrange(s.as_slice(), pos, i));
                let block = i >= 5 && text::occurs(s.as_slice(), pre.as_slice(), i - 5);
                if block {
                    out.append("<code>");
                } else {
                    out.append("<code class=\"ic\">");
                }
                proof {
                    let b = if block {
                        "<code>"@
                    } else {
                        "<code class=\"ic\">"@
                    };
                    text::lemma_cat_assoc(before, a, b);
                    text::lemma_cat_assoc(before, a + b, rest);
                }
                pos = i + 6;
            },
            None => {
                let rest = slice_subrange(s.as_slice(), pos, total);
                assert(rest@ =~= s@.skip(pos as int));
                text::push_chars(&mut out, rest);
                return out;
            },
        }
    }
}

/// `html` from `pos` on, without `class="language-..."`.
pub open spec fn languages_stripped_from(html: Seq<char>, pos: int) -> Seq<char>
    decreases html.len() - pos,
{
    if pos < 0 || pos > html.len() {
        Seq::empty()
    } else {
        let needle = " class=\"language-"@;
        proof {
            reveal_strlit(" class=\"language-");
            reveal_strlit("\"");
            text::lemma_find_from(html, needle, pos);
        }
        match text::find_from(html, needle, pos) {
            Some(i) => {
                let value = i + needle.len();
                proof {
                    text::lemma_find_from(html, "\""@, value);
                }
                match text::find_from(html, "\""@, value) {
                    Some(q) => html.subrange(pos, i) + languages_stripped_from(html, q + 1),
                    None => html.subrange(pos, i) + html.skip(value),
                }
            },
            None => html.skip(pos),
        }
    }
}

/// Removes `class="language-..."` from fenced code blocks, for readers that would highlight
/// them. Inline code carries no language class and stays as it is. The conversion of a unit keeps
/// these classes and does not call this: it is there for callers who want plain blocks.
pub fn strip_code_lang_classes(html: &str) -> (r: String)
    ensures
        r@ == languages_stripped_from(html@, 0),
{
    let s = text::chars_of(html);
    let total: usize = s.len();
    let mut out = String::new();
    let mut pos: usize = 0;
    proof {
        reveal_strlit(" class=\"language-");
        reveal_strlit("\"");
    }
    assert(out@ + languages_stripped_from(s@, 0) =~= languages_stripped_from(s@, 0));
    loop
        invariant
            s@ == html@,
            total == s@.len(),
            pos <= total,
            " class=\"language-"@.len() == 17,
            "\""@.len() == 1,
            out@ + languages_stripped_from(s@, pos as int) == languages_stripped_from(s@, 0),
        decreases total - pos,
    {
        match text::find_str(s.as_slice(), " class=\"language-", pos) {
            Some(i) => {
                let ghost before = out@;
                let ghost a = s@.subrange(pos as int, i as int);
                text::push_chars(&mut out, slice_subrange(s.as_slice(), pos, i));
                let value: usize = i + 17;
                match text::find_str(s.as_slice(), "\"", value) {
                    Some(q) => {
                        proof {
                            text::lemma_cat_assoc(before, a, languages_stripped_from(s@, q + 1));
                        }
                        pos = q + 1;
                    },
                    None => {
                        let rest = slice_subrange(s.as_slice(), value, total);
                        assert(rest@ =~= s@.skip(value as int));
                        proof {
                            text::lemma_cat_assoc(before, a, rest@);
                        }
                        text::push_chars(&mut out, rest);
                        return out;
                    },
                }
            },
            None => {
                let rest = slice_subrange(s.as_slice(), pos, total);
                assert(rest@ =~= s@.skip(pos as int));
                text::push_chars(&mut out, rest);
                return out;
            },
        }
    }
}

// ---------------------------------------------------------------------------
// Learn's own syntax
// ---------------------------------------------------------------------------

/// Where a video reference leads: the unit's page, or the player where the page is unknown.
pub open spec fn video_target(raw_url: Seq<char>, unit_url: Seq<char>) -> Seq<char> {
    let u = text::trim(raw_url);
    if unit_url.len() > 0 {
        unit_url
    } else if text::has_prefix(u, "http"@) {
        u
    } else {
        "https://learn-video.azurefd.net/vod/player?id="@ + u
    }
}

pub open spec fn video_link_text(raw_url: Seq<char>, unit_url: Seq<char>) -> Seq<char> {
    "\n\n[Watch video on Microsoft Learn]("@ + video_target(raw_url, unit_url) + ")\n\n"@
}

/// The markdown for a video reference. `raw_url` is a player's URL or a bare video id.
pub fn video_link(raw_url: &[char], unit_url: &str) -> (r: String)
    ensures
        r@ == video_link_text(raw_url@, unit_url@),
{
    let mut out = "\n\n[Watch video on Microsoft Learn](".to_owned();
    let u = text::trimmed(raw_url);
    if !unit_url.is_empty() {
        out.append(unit_url);
    } else if text::starts_with(u, "http") {
        text::push_chars(&mut out, u);
    } else {
        let mut href = "https://learn-video.azurefd.net/vod/player?id=".to_owned();
        text::push_chars(&mut href, u);
        out.append(href.as_str());
    }
    out.append(")\n\n");
    out
}

/// The value of `attr="value"` in a tag.
pub open spec fn attr_value(tag: Seq<char>, attr: Seq<char>) -> Option<Seq<char>> {
    let needle = attr + "=\""@;
    match text::find_from(tag, needle, 0) {
        Some(i) => {
            let value = i + needle.len();
            match text::find_from(tag, "\""@, value) {
                Some(end) => Some(tag.subrange(value, end)),
                None => None,
            }
        },
        None => None,
    }
}

/// Extracts `attr="value"` from a tag.
pub fn extract_attr<'a>(tag: &'a [char], attr: &str) -> (r: Option<&'a [char]>)
    ensures
        match r {
            Some(v) => attr_value(tag@, attr@) == Some(v@),
            None => attr_value(tag@, attr@) is None,
        },
{
    let mut needle = attr.to_owned();
    needle.append("=\"");
    let n = text::chars_of(needle.as_str());
    assert(tag.len() == tag@.len());
    match text::find(tag, n.as_slice(), 0) {
        Some(i) => {
            let value: usize = i + n.len();
            match text::find_str(tag, "\"", value) {
                Some(end) => Some(slice_subrange(tag, value, end)),
                None => None,
            }
        },
        None => None,
    }
}

/// The end of the iframe that begins at `start`, and its source: the closing tag counts, or the
/// end of the opening tag where there is no closing one.
pub open spec fn iframe_at(md: Seq<char>, start: int) -> (int, Option<Seq<char>>) {
    match text::find_from(md, "</iframe>"@, start) {
        Some(end) => (end + "</iframe>"@.len(), attr_value(md.subrange(start, end), "src"@)),
        None => match text::find_from(md, ">"@, start) {
            Some(gt) => (gt + 1, attr_value(md.subrange(start, gt), "src"@)),
            None => (md.len() as int, None),
        },
    }
}

pub proof fn lemma_iframe_at(md: Seq<char>, start: int)
    requires
        text::occurs_at(md, "<iframe"@, start),
    ensures
        start < iframe_at(md, start).0 <= md.len(),
{
    reveal_strlit("<iframe");
    reveal_strlit("</iframe>");
    reveal_strlit(">");
    text::lemma_find_from(md, "</iframe>"@, start);
    text::lemma_find_from(md, ">"@, start);
}

/// `md` from `pos` on, with each iframe replaced by a link to its video, or by nothing where it
/// has no source.
pub open spec fn iframes_replaced_from(md: Seq<char>, unit_url: Seq<char>, pos: int) -> Seq<char>
    decreases md.len() - pos,
{
    if pos < 0 || pos > md.len() {
        Seq::empty()
    } else {
        proof {
            text::lemma_find_from(md, "<iframe"@, pos);
        }
        match text::find_from(md, "<iframe"@, pos) {
            Some(start) => {
                proof {
                    lemma_iframe_at(md, start);
                }
                let (next, src) = iframe_at(md, start);
                md.subrange(pos, start) + (match src {
                    Some(url) => video_link_text(url, unit_url),
                    None => Seq::empty(),
                }) + iframes_replaced_from(md, unit_url, next)
            },
            None => md.skip(pos),
        }
    }
}

/// Replaces raw `<iframe ... src="URL" ...></iframe>` embeds (videos) with a plain link. They
/// carry boolean attributes and unescaped `&`, neither of which is valid XHTML.
pub fn strip_iframes(md: &str, unit_url: &str) -> (r: String)
    ensures
        r@ == iframes_replaced_from(md@, unit_url@, 0),
{
    let s = text::chars_of(md);
    let total: usize = s.len();
    let mut out = String::new();
    let mut pos: usize = 0;
    assert(out@ + iframes_replaced_from(s@, unit_url@, 0) =~= iframes_replaced_from(
        s@,
        unit_url@,
        0,
    ));
    loop
        invariant
            s@ == md@,
            total == s@.len(),
            pos <= total,
            out@ + iframes_replaced_from(s@, unit_url@, pos as int) == iframes_replaced_from(
                s@,
                unit_url@,
                0,
            ),
        decreases total - pos,
    {
        match text::find_str(s.as_slice(), "<iframe", pos) {
            Some(start) => {
                let ghost before = out@;
                let ghost a = s@.subrange(pos as int, start as int);
                proof {
                    lemma_iframe_at(s@, start as int);
                    reveal_strlit("</iframe>");
                    reveal_strlit(">");
                }
                text::push_chars(&mut out, slice_subrange(s.as_slice(), pos, start));
                let mut next: usize = total;
                let mut link = String::new();
                match text::find_str(s.as_slice(), "</iframe>", start) {
                    Some(end) => {
                        next = end + 9;
                        match extract_attr(slice_subrange(s.as_slice(), start, end), "src") {
                            Some(url) => {
                                link = video_link(url, unit_url);
                            },
                            None => {},
                        }
                    },
                    None => match text::find_str(s.as_slice(), ">", start) {
                        Some(gt) => {
                            next = gt + 1;
                            match extract_attr(slice_subrange(s.as_slice(), start, gt), "src") {
                                Some(url) => {
                                    link = video_link(url, unit_url);
                                },
                                None => {},
                            }
                        },
                        None => {},
                    },
                }
                assert(next == iframe_at(s@, start as int).0);
                out.append(link.as_str());
                proof {
                    let rest = iframes_replaced_from(s@, unit_url@, next as int);
                    text::lemma_cat_assoc(before, a, link@);
                    text::lemma_cat_assoc(before, a + link@, rest);
                }
                pos = next;
            },
            None => {
                let rest = slice_subrange(s.as_slice(), pos, total);
                assert(rest@ =~= s@.skip(pos as int));
                text::push_chars(&mut out, rest);
                return out;
            },
        }
    }
}

/// A media reference as a fetchable URL.
pub open spec fn media_url(src: Seq<char>, media_base: Seq<char>) -> Seq<char> {
    if text::has_prefix(src, "http"@) {
        src
    } else {
        match text::without_prefix(src, "../media/"@) {
            Some(r) => media_base + "/media/"@ + r,
            None => match text::without_prefix(src, "media/"@) {
                Some(r) => media_base + "/media/"@ + r,
                None => match text::without_prefix(src, "../"@) {
                    Some(r) => media_base + "/"@ + r,
                    None => match text::without_prefix(src, "/"@) {
                        Some(r) => LEARN_DOCS_BASE@ + "/"@ + r,
                        None => media_base + "/"@ + src,
                    },
                },
            },
        }
    }
}

/// Resolves a Learn media reference (`../media/x.png`, `media/x.png`, `/azure/...`, absolute) to
/// a fetchable URL.
pub fn resolve_media_url(src: &[char], media_base: &str) -> (r: String)
    ensures
        r@ == media_url(src@, media_base@),
{
    if text::starts_with(src, "http") {
        return text::text_of(src);
    }
    let mut out = media_base.to_owned();
    if let Some(r) = text::strip_prefix(src, "../media/") {
        out.append("/media/");
        text::push_chars(&mut out, r);
        return out;
    }
    if let Some(r) = text::strip_prefix(src, "media/") {
        out.append("/media/");
        text::push_chars(&mut out, r);
        return out;
    }
    if let Some(r) = text::strip_prefix(src, "../") {
        out.append("/");
        text::push_chars(&mut out, r);
        return out;
    }
    if let Some(r) = text::strip_prefix(src, "/") {
        let mut docs = LEARN_DOCS_BASE.to_owned();
        docs.append("/");
        text::push_chars(&mut docs, r);
        return docs;
    }
    out.append("/");
    text::push_chars(&mut out, src);
    out
}

/// Escapes a value for use inside an XML double-quoted attribute.
pub fn attr_esc(s: &str) -> (r: String)
    ensures
        r@ == epub::escaped(s@),
{
    epub::esc(s)
}

/// The `<img>` for the attributes of an image directive: nothing without a source.
pub open spec fn image_text(attrs: Seq<char>, media_base: Seq<char>) -> Seq<char> {
    match attr_value(attrs, "source"@) {
        Some(src) => "<img"@ + (if attr_value(attrs, "type"@) == Some("icon"@) {
            " class=\"learn-icon\""@
        } else {
            " class=\"content-img\""@
        }) + " src=\""@ + epub::escaped(media_url(src, media_base)) + "\" alt=\""@ + epub::escaped(
            (match attr_value(attrs, "alt-text"@) {
                Some(alt) => alt,
                None => Seq::empty(),
            }),
        ) + "\"/>"@,
        None => Seq::empty(),
    }
}

fn image_tag(attrs: &[char], media_base: &str) -> (r: String)
    ensures
        r@ == image_text(attrs@, media_base@),
{
    match extract_attr(attrs, "source") {
        Some(src) => {
            let alt = match extract_attr(attrs, "alt-text") {
                Some(a) => text::text_of(a),
                None => String::new(),
            };
            let url = resolve_media_url(src, media_base);
            let icon = match extract_attr(attrs, "type") {
                Some(t) => text::same_text(text::text_of(t).as_str(), "icon"),
                None => false,
            };
            let mut out = "<img".to_owned();
            if icon {
                out.append(" class=\"learn-icon\"");
            } else {
                out.append(" class=\"content-img\"");
            }
            out.append(" src=\"");
            out.append(attr_esc(url.as_str()).as_str());
            out.append("\" alt=\"");
            out.append(attr_esc(alt.as_str()).as_str());
            out.append("\"/>");
            out
        },
        None => String::new(),
    }
}

/// `md` from `pos` on, with each `:::image ... :::` directive replaced by its image. One without
/// an end stays.
pub open spec fn images_converted_from(md: Seq<char>, media_base: Seq<char>, pos: int) -> Seq<char>
    decreases md.len() - pos,
{
    if pos < 0 || pos > md.len() {
        Seq::empty()
    } else {
        proof {
            reveal_strlit(":::image");
            reveal_strlit(":::");
            text::lemma_find_from(md, ":::image"@, pos);
        }
        match text::find_from(md, ":::image"@, pos) {
            Some(start) => {
                let attrs = start + ":::image"@.len();
                proof {
                    text::lemma_find_from(md, ":::"@, attrs);
                }
                match text::find_from(md, ":::"@, attrs) {
                    Some(end) => md.subrange(pos, start) + image_text(
                        md.subrange(attrs, end),
                        media_base,
                    ) + images_converted_from(md, media_base, end + ":::"@.len()),
                    None => md.subrange(pos, start) + ":::image"@ + images_converted_from(
                        md,
                        media_base,
                        attrs,
                    ),
                }
            },
            None => md.skip(pos),
        }
    }
}

/// Replaces every Learn `:::image ... :::` directive (block or inline) with an `<img>`, its
/// source resolved to an absolute URL. `:::image-end:::` and sourceless directives collapse to
/// nothing.
pub fn convert_image_directives(md: &str, media_base: &str) -> (r: String)
    ensures
        r@ == images_converted_from(md@, media_base@, 0),
{
    let s = text::chars_of(md);
    let total: usize = s.len();
    let mut out = String::new();
    let mut pos: usize = 0;
    proof {
        reveal_strlit(":::image");
        reveal_strlit(":::");
    }
    assert(out@ + images_converted_from(s@, media_base@, 0) =~= images_converted_from(
        s@,
        media_base@,
        0,
    ));
    loop
        invariant
            s@ == md@,
            total == s@.len(),
            pos <= total,
            ":::image"@.len() == 8,
            ":::"@.len() == 3,
            out@ + images_converted_from(s@, media_base@, pos as int) == images_converted_from(
                s@,
                media_base@,
                0,
            ),
        decreases total - pos,
    {
        match text::find_str(s.as_slice(), ":::image", pos) {
            Some(start) => {
                let ghost before = out@;
                let ghost a = s@.subrange(pos as int, start as int);
                text::push_chars(&mut out, slice_subrange(s.as_slice(), pos, start));
                let attrs: usize = start + 8;
                match text::find_str(s.as_slice(), ":::", attrs) {
                    Some(end) => {
                        let img = image_tag(
                            slice_subrange(s.as_slice(), attrs, end),
                            media_base,
                        );
                        out.append(img.as_str());
                        pos = end + 3;
                        proof {
                            let rest = images_converted_from(s@, media_base@, pos as int);
                            text::lemma_cat_assoc(before, a, img@);
                            text::lemma_cat_assoc(before, a + img@, rest);
                        }
                    },
                    None => {
                        out.append(":::image");
                        pos = attrs;
                        proof {
                            let rest = images_converted_from(s@, media_base@, pos as int);
                            text::lemma_cat_assoc(before, a, ":::image"@);
                            text::lemma_cat_assoc(before, a + ":::image"@, rest);
                        }
                    },
                }
            },
            None => {
                let rest = slice_subrange(s.as_slice(), pos, total);
                assert(rest@ =~= s@.skip(pos as int));
                text::push_chars(&mut out, rest);
                return out;
            },
        }
    }
}

/// A line with its root-relative links and its media paths made absolute.
pub open spec fn links_rewritten(line: Seq<char>, media_base: Seq<char>) -> Seq<char> {
    let media = "]("@ + media_base + "/media/"@;
    let docs = text::replaced(line, "](/"@, "]("@ + LEARN_DOCS_BASE@ + "/"@);
    text::replaced(text::replaced(docs, "](../media/"@, media), "](media/"@, media)
}

/// Absolutises root-relative `(/...)` links and `../media/...` image paths.
pub fn rewrite_links(line: &str, media_base: &str) -> (r: String)
    ensures
        r@ == links_rewritten(line@, media_base@),
{
    proof {
        reveal_strlit("](/");
        reveal_strlit("](../media/");
        reveal_strlit("](media/");
    }
    let mut docs = "](".to_owned();
    docs.append(LEARN_DOCS_BASE);
    docs.append("/");
    let mut media = "](".to_owned();
    media.append(media_base);
    media.append("/media/");
    let s1 = text::replace_all(text::chars_of(line).as_slice(), "](/", docs.as_str());
    let s2 = text::replace_all(
        text::chars_of(s1.as_str()).as_slice(),
        "](../media/",
        media.as_str(),
    );
    text::replace_all(text::chars_of(s2.as_str()).as_slice(), "](media/", media.as_str())
}

/// `s` with its first character in upper case and the rest in lower case.
pub open spec fn title_cased(s: Seq<char>) -> Seq<char> {
    text::capitalised(text::lowered(s))
}

pub fn title_case(s: &[char]) -> (r: String)
    ensures
        r@ == title_cased(s@),
{
    let lower = text::lowercase(text::text_of(s).as_str());
    text::capitalise(text::chars_of(lower.as_str()).as_slice())
}

/// The video that a line refers to: `> [!VIDEO url]`.
pub open spec fn video_of(line: Seq<char>) -> Option<Seq<char>> {
    match text::without_prefix(line, "> [!VIDEO "@) {
        Some(rest) => text::without_suffix(rest, "]"@),
        None => None,
    }
}

/// The kind of an alert line `> [!KIND] ...` and what follows it.
pub open spec fn alert_of(line: Seq<char>) -> Option<(Seq<char>, Seq<char>)> {
    match text::without_prefix(line, "> [!"@) {
        Some(rest) => match text::find_from(rest, "]"@, 0) {
            Some(end) => Some((rest.take(end), text::trim(rest.skip(end + 1)))),
            None => None,
        },
        None => None,
    }
}

/// What becomes of one line of markdown: a zone marker vanishes, a video reference becomes a
/// link, an alert gets a bold label, and other lines keep their text with absolute links.
pub open spec fn line_preprocessed(
    line: Seq<char>,
    media_base: Seq<char>,
    unit_url: Seq<char>,
) -> Seq<char> {
    let t = text::trim_start(line);
    if text::has_prefix(t, ":::"@) {
        Seq::empty()
    } else {
        match video_of(t) {
            Some(url) => video_link_text(url, unit_url),
            None => match alert_of(t) {
                Some((kind, after)) => "> **"@ + title_cased(kind) + "**"@ + (if after.len() > 0 {
                    " "@ + after
                } else {
                    Seq::empty()
                }) + "\n"@,
                None => links_rewritten(line, media_base) + "\n"@,
            },
        }
    }
}

/// The first `n` lines, each preprocessed.
pub open spec fn lines_preprocessed(
    lines: Seq<Seq<char>>,
    media_base: Seq<char>,
    unit_url: Seq<char>,
    n: nat,
) -> Seq<char>
    decreases n,
{
    if n == 0 {
        Seq::empty()
    } else {
        lines_preprocessed(lines, media_base, unit_url, (n - 1) as nat) + line_preprocessed(
            lines[n - 1],
            media_base,
            unit_url,
        )
    }
}

/// Learn markdown as plain CommonMark.
pub open spec fn preprocessed(
    md: Seq<char>,
    media_base: Seq<char>,
    unit_url: Seq<char>,
) -> Seq<char> {
    let lines = text::lines(
        images_converted_from(iframes_replaced_from(md, unit_url, 0), media_base, 0),
    );
    lines_preprocessed(lines, media_base, unit_url, lines.len())
}

fn preprocess_line(line: &str, media_base: &str, unit_url: &str) -> (r: String)
    ensures
        r@ == line_preprocessed(line@, media_base@, unit_url@),
{
    let cs = text::chars_of(line);
    let t = text::trimmed_start(cs.as_slice());
    if text::starts_with(t, ":::") {
        return String::new();
    }
    if let Some(rest) = text::strip_prefix(t, "> [!VIDEO ") {
        if let Some(url) = text::strip_suffix(rest, "]") {
            return video_link(url, unit_url);
        }
    }
    if let Some(rest) = text::strip_prefix(t, "> [!") {
        if let Some(end) = text::find_str(rest, "]", 0) {
            proof {
                reveal_strlit("]");
            }
            let total: usize = rest.len();
            let kind = slice_subrange(rest, 0, end);
            assert(kind@ =~= rest@.take(end as int));
            let tail = slice_subrange(rest, end + 1, total);
            assert(tail@ =~= rest@.skip(end + 1));
            let after = text::trimmed(tail);
            let mut out = "> **".to_owned();
            out.append(title_case(kind).as_str());
            out.append("**");
            let mut label = String::new();
            if after.len() > 0 {
                label = " ".to_owned();
                text::push_chars(&mut label, after);
            }
            out.append(label.as_str());
            out.append("\n");
            return out;
        }
    }
    let mut out = rewrite_links(line, media_base);
    out.append("\n");
    out
}

/// Handles Learn-specific syntax before CommonMark parsing.
pub fn preprocess(md: &str, media_base: &str, unit_url: &str) -> (r: String)
    ensures
        r@ == preprocessed(md@, media_base@, unit_url@),
{
    let no_iframes = strip_iframes(md, unit_url);
    let with_images = convert_image_directives(no_iframes.as_str(), media_base);
    let lines = text::lines_of(text::chars_of(with_images.as_str()).as_slice());
    let ghost all = lines.deep_view();
    let n: usize = lines.len();
    let mut out = String::new();
    for i in 0..n
        invariant
            n == lines@.len(),
            all == lines.deep_view(),
            out@ == lines_preprocessed(all, media_base@, unit_url@, i as nat),
    {
        assert(all[i as int] == lines@[i as int]@);
        let piece = preprocess_line(lines[i].as_str(), media_base, unit_url);
        out.append(piece.as_str());
    }
    out
}

// ---------------------------------------------------------------------------
// XHTML
// ---------------------------------------------------------------------------

/// HTML with `<br>` and `<hr>` closed and stray `&` escaped.
pub open spec fn xhtml_fixed(html: Seq<char>) -> Seq<char> {
    amps_escaped(void_closed_from(void_closed_from(html, "br"@, 0), "hr"@, 0))
}

/// `pulldown-cmark` closes the void elements that it emits itself; raw HTML in Learn content
/// passes through verbatim. Closes void tags and escapes stray `&` so that the fragment parses
/// as XHTML.
pub fn xhtmlify(html: &str) -> (r: String)
    ensures
        r@ == xhtml_fixed(html@),
{
    proof {
        reveal_strlit("br");
        reveal_strlit("hr");
    }
    let br = close_void_tag(html, "br");
    let hr = close_void_tag(br.as_str(), "hr");
    escape_stray_amp(hr.as_str())
}

/// A kind of character that a reference is made of.
#[derive(Clone, Copy, PartialEq, Eq, Structural)]
pub enum CharClass {
    Digit,
    HexDigit,
    Alphanumeric,
}

pub open spec fn in_class(c: char, class: CharClass) -> bool {
    match class {
        CharClass::Digit => text::is_digit(c),
        CharClass::HexDigit => text::is_hex_digit(c),
        CharClass::Alphanumeric => text::is_alnum(c),
    }
}

/// The end of the run of characters of that class that begins at `from`.
pub open spec fn run_end(s: Seq<char>, from: int, class: CharClass) -> int
    decreases s.len() - from,
{
    if 0 <= from < s.len() && in_class(s[from], class) {
        run_end(s, from + 1, class)
    } else {
        from
    }
}

/// A run of at least one character of that class begins at `from`, and a semicolon ends it.
pub open spec fn reference_name_at(s: Seq<char>, from: int, class: CharClass) -> bool {
    let end = run_end(s, from, class);
    from < end < s.len() && s[end] == ';'
}

/// A character reference begins at `i`: `&name;`, `&#123;` or `&#xAF;`.
pub open spec fn entity_at(s: Seq<char>, i: int) -> bool {
    &&& 0 <= i < s.len()
    &&& s[i] == '&'
    &&& if i + 1 < s.len() && s[i + 1] == '#' {
        if i + 2 < s.len() && (s[i + 2] == 'x' || s[i + 2] == 'X') {
            reference_name_at(s, i + 3, CharClass::HexDigit)
        } else {
            reference_name_at(s, i + 2, CharClass::Digit)
        }
    } else {
        reference_name_at(s, i + 1, CharClass::Alphanumeric)
    }
}

fn has_class(c: char, class: CharClass) -> (r: bool)
    ensures
        r == in_class(c, class),
{
    match class {
        CharClass::Digit => text::digit(c),
        CharClass::HexDigit => text::hex_digit(c),
        CharClass::Alphanumeric => text::alnum(c),
    }
}

fn names_reference(s: &[char], from: usize, class: CharClass) -> (r: bool)
    requires
        from <= s@.len(),
    ensures
        r == reference_name_at(s@, from as int, class),
{
    let n: usize = s.len();
    let mut end: usize = from;
    while end < n && has_class(s[end], class)
        invariant
            n == s@.len(),
            from <= end <= n,
            run_end(s@, from as int, class) == run_end(s@, end as int, class),
        decreases n - end,
    {
        end += 1;
    }
    from < end && end < n && s[end] == ';'
}

/// Whether a character reference begins at `i`: `&name;`, `&#123;` or `&#xAF;`.
pub fn starts_entity(s: &[char], i: usize) -> (r: bool)
    ensures
        r == entity_at(s@, i as int),
{
    let n: usize = s.len();
    if i >= n || s[i] != '&' {
        return false;
    }
    if i + 1 < n && s[i + 1] == '#' {
        if i + 2 < n && (s[i + 2] == 'x' || s[i + 2] == 'X') {
            names_reference(s, i + 3, CharClass::HexDigit)
        } else {
            names_reference(s, i + 2, CharClass::Digit)
        }
    } else {
        names_reference(s, i + 1, CharClass::Alphanumeric)
    }
}

/// The first `n` characters of `s`, each `&` that begins no character reference escaped.
pub open spec fn amps_escaped_first(s: Seq<char>, n: nat) -> Seq<char>
    decreases n,
{
    if n == 0 {
        Seq::empty()
    } else {
        amps_escaped_first(s, (n - 1) as nat) + (if s[n - 1] == '&' && !entity_at(s, n - 1) {
            "&amp;"@
        } else {
            seq![s[n - 1]]
        })
    }
}

pub open spec fn amps_escaped(s: Seq<char>) -> Seq<char> {
    amps_escaped_first(s, s.len())
}

/// Escapes any `&` that does not already begin a character reference, without escaping existing
/// ones like `&amp;` or `&#160;` again.
pub fn escape_stray_amp(s: &str) -> (r: String)
    ensures
        r@ == amps_escaped(s@),
{
    let cs = text::chars_of(s);
    let n: usize = cs.len();
    let mut out = String::new();
    for i in 0..n
        invariant
            n == cs@.len(),
            out@ == amps_escaped_first(cs@, i as nat),
    {
        let c: char = cs[i];
        if c == '&' && !starts_entity(cs.as_slice(), i) {
            out.append("&amp;");
        } else {
            let ghost before = out@;
            out.push(c);
            assert(out@ =~= before + seq![c]);
        }
    }
    out
}

/// A character that may stand directly behind the name of a tag.
pub open spec fn ends_tag_name(c: char) -> bool {
    c == ' ' || c == '\t' || c == '\n' || c == '/' || c == '>'
}

/// What stands between a tag's name and its end, without a closing slash.
pub open spec fn tag_inner(s: Seq<char>) -> Seq<char> {
    text::trim_end(text::trim_end_of(text::trim(s), '/'))
}

/// `html` from `pos` on, with each `<tag ...>`, however it ends, written as `<tag .../>`.
pub open spec fn void_closed_from(html: Seq<char>, tag: Seq<char>, pos: int) -> Seq<char>
    decreases html.len() - pos,
{
    if pos < 0 || pos > html.len() {
        Seq::empty()
    } else {
        let needle = "<"@ + tag;
        proof {
            reveal_strlit("<");
            reveal_strlit(">");
            text::lemma_find_from(html, needle, pos);
        }
        match text::find_from(html, needle, pos) {
            Some(p) => {
                let after = p + needle.len();
                proof {
                    text::lemma_find_from(html, ">"@, after);
                }
                if !(after < html.len() && ends_tag_name(html[after])) {
                    html.subrange(pos, p) + needle + void_closed_from(html, tag, after)
                } else {
                    match text::find_from(html, ">"@, after) {
                        Some(gt) => {
                            let inner = tag_inner(html.subrange(after, gt));
                            html.subrange(pos, p) + (needle + (if inner.len() > 0 {
                                " "@ + inner
                            } else {
                                Seq::empty()
                            }) + "/>"@) + void_closed_from(html, tag, gt + 1)
                        },
                        None => html.skip(pos),
                    }
                }
            },
            None => html.skip(pos),
        }
    }
}

/// Rewrites `<tag ...>` (in any white space or `/` form) to `<tag .../>`. Leaves unrelated tags
/// like `<break>` untouched by requiring a delimiter after the tag name.
pub fn close_void_tag(html: &str, tag: &str) -> (r: String)
    ensures
        r@ == void_closed_from(html@, tag@, 0),
{
    let s = text::chars_of(html);
    let total: usize = s.len();
    let mut needle = "<".to_owned();
    needle.append(tag);
    let n = text::chars_of(needle.as_str());
    let mut out = String::new();
    let mut pos: usize = 0;
    proof {
        reveal_strlit("<");
        reveal_strlit(">");
    }
    assert(out@ + void_closed_from(s@, tag@, 0) =~= void_closed_from(s@, tag@, 0));
    loop
        invariant
            s@ == html@,
            total == s@.len(),
            pos <= total,
            needle@ == "<"@ + tag@,
            n@ == needle@,
            n@.len() > 0,
            ">"@.len() == 1,
            out@ + void_closed_from(s@, tag@, pos as int) == void_closed_from(s@, tag@, 0),
        decreases total - pos,
    {
        match text::find(s.as_slice(), n.as_slice(), pos) {
            Some(p) => {
                let ghost before = out@;
                let ghost a = s@.subrange(pos as int, p as int);
                let after: usize = p + n.len();
                let delimited = after < total && (s[after] == ' ' || s[after] == '\t' || s[after]
                    == '\n' || s[after] == '/' || s[after] == '>');
                if !delimited {
                    text::push_chars(&mut out, slice_subrange(s.as_slice(), pos, p));
                    out.append(needle.as_str());
                    proof {
                        let rest = void_closed_from(s@, tag@, after as int);
                        text::lemma_cat_assoc(before, a, needle@);
                        text::lemma_cat_assoc(before, a + needle@, rest);
                    }
                    pos = after;
                } else {
                    match text::find_str(s.as_slice(), ">", after) {
                        Some(gt) => {
                            text::push_chars(&mut out, slice_subrange(s.as_slice(), pos, p));
                            let inner = text::trimmed_end(
                                text::trimmed_end_of(
                                    text::trimmed(slice_subrange(s.as_slice(), after, gt)),
                                    '/',
                                ),
                            );
                            let mut attrs = String::new();
                            if inner.len() > 0 {
                                attrs = " ".to_owned();
                                text::push_chars(&mut attrs, inner);
                            }
                            let mut closed = needle.clone();
                            closed.append(attrs.as_str());
                            closed.append("/>");
                            out.append(closed.as_str());
                            proof {
                                let rest = void_closed_from(s@, tag@, gt + 1);
                                text::lemma_cat_assoc(before, a, closed@);
                                text::lemma_cat_assoc(before, a + closed@, rest);
                            }
                            pos = gt + 1;
                        },
                        None => {
                            let rest = slice_subrange(s.as_slice(), pos, total);
                            assert(rest@ =~= s@.skip(pos as int));
                            text::push_chars(&mut out, rest);
                            return out;
                        },
                    }
                }
            },
            None => {
                let rest = slice_subrange(s.as_slice(), pos, total);
                assert(rest@ =~= s@.skip(pos as int));
                text::push_chars(&mut out, rest);
                return out;
            },
        }
    }
}

// ---------------------------------------------------------------------------
// Laws
// ---------------------------------------------------------------------------

proof fn lemma_run_end(s: Seq<char>, from: int, class: CharClass)
    requires
        0 <= from <= s.len(),
    ensures
        from <= run_end(s, from, class) <= s.len(),
        forall|k: int| from <= k < run_end(s, from, class) ==> in_class(#[trigger] s[k], class),
        run_end(s, from, class) < s.len() ==> !in_class(s[run_end(s, from, class)], class),
    decreases s.len() - from,
{
    if from < s.len() && in_class(s[from], class) {
        lemma_run_end(s, from + 1, class);
    }
}

/// A run that is copied elsewhere with the character that ends it ends at the same place.
proof fn lemma_run_end_copied(
    s: Seq<char>,
    r: Seq<char>,
    from: int,
    shift: int,
    class: CharClass,
    end: int,
)
    requires
        0 <= from <= end < s.len(),
        0 <= from + shift,
        end + shift < r.len(),
        end == run_end(s, from, class),
        forall|k: int| from <= k <= end ==> #[trigger] s[k] == r[k + shift],
    ensures
        run_end(r, from + shift, class) == end + shift,
    decreases end - from,
{
    lemma_run_end(s, from, class);
    assert(s[from] == r[from + shift]);
    if from < end {
        assert(in_class(s[from], class));
        lemma_run_end_copied(s, r, from + 1, shift, class, end);
    }
}

/// Where the name of the reference that begins at `i` begins, and what it is made of.
pub open spec fn reference_start(s: Seq<char>, i: int) -> (int, CharClass) {
    if i + 1 < s.len() && s[i + 1] == '#' {
        if i + 2 < s.len() && (s[i + 2] == 'x' || s[i + 2] == 'X') {
            (i + 3, CharClass::HexDigit)
        } else {
            (i + 2, CharClass::Digit)
        }
    } else {
        (i + 1, CharClass::Alphanumeric)
    }
}

/// Where the reference that begins at `i` ends: its semicolon.
pub open spec fn entity_end(s: Seq<char>, i: int) -> int {
    let (from, class) = reference_start(s, i);
    run_end(s, from, class)
}

proof fn lemma_entity_extent(s: Seq<char>, i: int)
    requires
        entity_at(s, i),
    ensures
        i < entity_end(s, i) < s.len(),
        forall|k: int| i < k <= entity_end(s, i) ==> #[trigger] s[k] != '&',
{
    let (from, class) = reference_start(s, i);
    lemma_run_end(s, from, class);
}

/// A reference that is copied elsewhere is a reference there.
proof fn lemma_entity_copied(s: Seq<char>, i: int, r: Seq<char>, p: int)
    requires
        entity_at(s, i),
        0 <= p,
        p + (entity_end(s, i) - i) < r.len(),
        forall|k: int| i <= k <= entity_end(s, i) ==> #[trigger] s[k] == r[k + (p - i)],
    ensures
        entity_at(r, p),
{
    let (from, class) = reference_start(s, i);
    let end = entity_end(s, i);
    lemma_run_end(s, from, class);
    assert(s[i] == r[p]);
    assert(s[i + 1] == r[p + 1]);
    if from == i + 2 {
        assert(s[i + 2] == r[p + 2]);
    }
    if from == i + 3 {
        assert(s[i + 2] == r[p + 2]);
    }
    lemma_run_end_copied(s, r, from, p - i, class, end);
    assert(s[end] == r[end + (p - i)]);
}

proof fn lemma_amps_prefix(s: Seq<char>, i: nat, n: nat)
    requires
        i <= n,
    ensures
        amps_escaped_first(s, i).is_prefix_of(amps_escaped_first(s, n)),
    decreases n,
{
    if i < n {
        lemma_amps_prefix(s, i, (n - 1) as nat);
    }
}

proof fn lemma_amps_copied(s: Seq<char>, i: nat, n: nat)
    requires
        i <= n <= s.len(),
        forall|k: int| i <= k < n ==> (#[trigger] s[k] != '&' || entity_at(s, k)),
    ensures
        amps_escaped_first(s, n) == amps_escaped_first(s, i) + s.subrange(i as int, n as int),
    decreases n,
{
    if i < n {
        lemma_amps_copied(s, i, (n - 1) as nat);
        assert(s[n - 1] != '&' || entity_at(s, n - 1));
        assert(s.subrange(i as int, n as int) =~= s.subrange(i as int, n - 1) + seq![s[n - 1]]);
    } else {
        assert(s.subrange(i as int, n as int) =~= Seq::<char>::empty());
    }
}

/// Every ampersand in the result stands for one of the text's.
proof fn lemma_amps_origin(s: Seq<char>, n: nat, k: int)
    requires
        n <= s.len(),
        0 <= k < amps_escaped_first(s, n).len(),
        amps_escaped_first(s, n)[k] == '&',
    ensures
        exists|i: int|
            0 <= i < n && #[trigger] s[i] == '&' && amps_escaped_first(s, i as nat).len() == k,
    decreases n,
{
    let before = amps_escaped_first(s, (n - 1) as nat);
    if k < before.len() {
        assert(before[k] == amps_escaped_first(s, n)[k]);
        lemma_amps_origin(s, (n - 1) as nat, k);
        let i = choose|i: int|
            0 <= i < n - 1 && #[trigger] s[i] == '&' && amps_escaped_first(s, i as nat).len() == k;
        assert(s[i] == '&');
    } else {
        reveal_strlit("&amp;");
        assert(s[n - 1] == '&');
    }
}

/// Escaping leaves no stray ampersand: each one that is left begins a character reference.
pub proof fn law_no_stray_amp(s: Seq<char>)
    ensures
        forall|k: int|
            0 <= k < amps_escaped(s).len() && #[trigger] amps_escaped(s)[k] == '&' ==> entity_at(
                amps_escaped(s),
                k,
            ),
{
    let r = amps_escaped(s);
    assert forall|k: int| 0 <= k < r.len() && #[trigger] r[k] == '&' implies entity_at(r, k) by {
        lemma_amps_origin(s, s.len(), k);
        let i = choose|i: int|
            0 <= i < s.len() && #[trigger] s[i] == '&' && amps_escaped_first(s, i as nat).len()
                == k;
        let front = amps_escaped_first(s, i as nat);
        if entity_at(s, i) {
            let end = entity_end(s, i);
            lemma_entity_extent(s, i);
            lemma_amps_copied(s, i as nat, (end + 1) as nat);
            lemma_amps_prefix(s, (end + 1) as nat, s.len());
            let part = amps_escaped_first(s, (end + 1) as nat);
            assert forall|j: int| i <= j <= end implies #[trigger] s[j] == r[j + (k - i)] by {
                assert(part[j + (k - i)] == s.subrange(i, end + 1)[j - i]);
            }
            lemma_entity_copied(s, i, r, k);
        } else {
            lemma_amps_prefix(s, (i + 1) as nat, s.len());
            reveal_strlit("&amp;");
            let part = amps_escaped_first(s, (i + 1) as nat);
            assert(part == front + "&amp;"@);
            assert(r[k] == part[k] && r[k + 1] == part[k + 1] && r[k + 2] == part[k + 2]
                && r[k + 3] == part[k + 3] && r[k + 4] == part[k + 4]);
            assert(r[k + 1] == 'a' && r[k + 2] == 'm' && r[k + 3] == 'p' && r[k + 4] == ';');
            reveal_with_fuel(run_end, 4);
            assert(run_end(r, k + 1, CharClass::Alphanumeric) == k + 4);
        }
    }
}

/// A text without stray ampersands is left as it is, so nothing is escaped twice.
pub proof fn law_references_are_kept(s: Seq<char>)
    requires
        forall|k: int| 0 <= k < s.len() && #[trigger] s[k] == '&' ==> entity_at(s, k),
    ensures
        amps_escaped(s) == s,
{
    lemma_amps_copied(s, 0, s.len());
    assert(s.subrange(0, s.len() as int) =~= s);
}

/// Escaping twice is escaping once.
pub proof fn law_escaping_twice_is_escaping_once(s: Seq<char>)
    ensures
        amps_escaped(amps_escaped(s)) == amps_escaped(s),
{
    law_no_stray_amp(s);
    law_references_are_kept(amps_escaped(s));
}

/// The name of a tag: letters and digits.
pub open spec fn is_tag_name(tag: Seq<char>) -> bool {
    tag.len() > 0 && text::all_alnum(tag)
}

/// The tag that begins at `p` is closed: it ends with a slash, or it does not end at all.
pub open spec fn closed_at(html: Seq<char>, tag: Seq<char>, p: int) -> bool {
    match text::find_from(html, ">"@, p + 1 + tag.len()) {
        Some(gt) => gt > 0 && html[gt - 1] == '/',
        None => true,
    }
}

/// A tag of that name begins at `p`.
pub open spec fn tag_at(html: Seq<char>, tag: Seq<char>, p: int) -> bool {
    &&& text::occurs_at(html, "<"@ + tag, p)
    &&& p + 1 + tag.len() < html.len()
    &&& ends_tag_name(html[p + 1 + tag.len()])
}

proof fn lemma_needle(tag: Seq<char>)
    requires
        is_tag_name(tag),
    ensures
        ("<"@ + tag).len() == 1 + tag.len(),
        ("<"@ + tag)[0] == '<',
        forall|k: int|
            1 <= k < 1 + tag.len() ==> text::is_alnum(#[trigger] ("<"@ + tag)[k]),
{
    reveal_strlit("<");
    assert forall|k: int| 1 <= k < 1 + tag.len() implies text::is_alnum(
        #[trigger] ("<"@ + tag)[k],
    ) by {
        assert(("<"@ + tag)[k] == tag[k - 1]);
    }
}

/// What a text that contains a needle holds at the needle's places.
proof fn lemma_occurs_chars(s: Seq<char>, needle: Seq<char>, x: int)
    requires
        text::occurs_at(s, needle, x),
    ensures
        forall|k: int| 0 <= k < needle.len() ==> #[trigger] needle[k] == s[x + k],
{
    assert forall|k: int| 0 <= k < needle.len() implies #[trigger] needle[k] == s[x + k] by {
        assert(s.subrange(x, x + needle.len())[k] == s[x + k]);
    }
}

/// The first `>` behind a place, where it is known.
proof fn lemma_first_gt(s: Seq<char>, from: int, gt: int)
    requires
        0 <= from <= gt < s.len(),
        s[gt] == '>',
        forall|k: int| from <= k < gt ==> #[trigger] s[k] != '>',
    ensures
        text::find_from(s, ">"@, from) == Some(gt),
    decreases gt - from,
{
    reveal_strlit(">");
    if from < gt {
        assert(s[from] != '>');
        assert(s.subrange(from, from + 1)[0] == s[from]);
        lemma_first_gt(s, from + 1, gt);
    } else {
        assert(s.subrange(gt, gt + 1) =~= ">"@);
    }
}

/// Looking for `>` behind `a` in `a + b` is looking for it in `b`.
proof fn lemma_gt_behind(a: Seq<char>, b: Seq<char>, from: int)
    requires
        0 <= from <= b.len(),
    ensures
        match text::find_from(b, ">"@, from) {
            Some(gt) => from <= gt < b.len() && text::find_from(a + b, ">"@, a.len() + from)
                == Some(a.len() + gt),
            None => text::find_from(a + b, ">"@, a.len() + from) is None,
        },
    decreases b.len() - from,
{
    reveal_strlit(">");
    if from < b.len() {
        assert((a + b).subrange(a.len() + from, a.len() + from + 1) =~= b.subrange(
            from,
            from + 1,
        ));
        if !text::occurs_at(b, ">"@, from) {
            lemma_gt_behind(a, b, from + 1);
        }
    }
}

/// A tag that is closed in `b` is closed in `a + b`.
proof fn lemma_closed_behind(a: Seq<char>, b: Seq<char>, tag: Seq<char>, x: int)
    requires
        is_tag_name(tag),
        a.len() <= x,
        tag_at(a + b, tag, x),
        tag_at(b, tag, x - a.len()) ==> closed_at(b, tag, x - a.len()),
    ensures
        closed_at(a + b, tag, x),
{
    let needle = "<"@ + tag;
    lemma_needle(tag);
    assert(b.subrange(x - a.len(), x - a.len() + needle.len()) =~= (a + b).subrange(
        x,
        x + needle.len(),
    ));
    assert(tag_at(b, tag, x - a.len()));
    lemma_gt_behind(a, b, x - a.len() + 1 + tag.len());
}

proof fn lemma_void_closed_begins(html: Seq<char>, tag: Seq<char>, pos: int)
    requires
        is_tag_name(tag),
        0 <= pos <= html.len(),
    ensures
        pos == html.len() ==> void_closed_from(html, tag, pos).len() == 0,
        pos < html.len() ==> void_closed_from(html, tag, pos).len() > 0 && void_closed_from(
            html,
            tag,
            pos,
        )[0] == html[pos],
{
    let needle = "<"@ + tag;
    lemma_needle(tag);
    text::lemma_find_from(html, needle, pos);
    if let Some(p) = text::find_from(html, needle, pos) {
        lemma_occurs_chars(html, needle, p);
        assert(needle[0] == html[p + 0]);
    }
}

proof fn lemma_tag_inner_keeps(s: Seq<char>, c: char)
    requires
        !s.contains(c),
    ensures
        !tag_inner(s).contains(c),
{
    lemma_trim_start_keeps(s, c);
    lemma_trim_end_keeps(text::trim_start(s), c);
    lemma_trim_end_of_keeps(text::trim(s), '/', c);
    lemma_trim_end_keeps(text::trim_end_of(text::trim(s), '/'), c);
}

proof fn lemma_trim_start_keeps(s: Seq<char>, c: char)
    requires
        !s.contains(c),
    ensures
        !text::trim_start(s).contains(c),
    decreases s.len(),
{
    if s.len() > 0 && text::is_space(s[0]) {
        let t = s.skip(1);
        assert(!t.contains(c)) by {
            if t.contains(c) {
                let i = choose|i: int| 0 <= i < t.len() && t[i] == c;
                assert(s[i + 1] == c);
            }
        }
        lemma_trim_start_keeps(t, c);
    }
}

proof fn lemma_drop_last_keeps(s: Seq<char>, c: char)
    requires
        !s.contains(c),
        s.len() > 0,
    ensures
        !s.drop_last().contains(c),
{
    let t = s.drop_last();
    if t.contains(c) {
        let i = choose|i: int| 0 <= i < t.len() && t[i] == c;
        assert(s[i] == c);
    }
}

proof fn lemma_trim_end_keeps(s: Seq<char>, c: char)
    requires
        !s.contains(c),
    ensures
        !text::trim_end(s).contains(c),
    decreases s.len(),
{
    if s.len() > 0 && text::is_space(s.last()) {
        lemma_drop_last_keeps(s, c);
        lemma_trim_end_keeps(s.drop_last(), c);
    }
}

proof fn lemma_trim_end_of_keeps(s: Seq<char>, e: char, c: char)
    requires
        !s.contains(c),
    ensures
        !text::trim_end_of(s, e).contains(c),
    decreases s.len(),
{
    if s.len() > 0 && s.last() == e {
        lemma_drop_last_keeps(s, c);
        lemma_trim_end_of_keeps(s.drop_last(), e, c);
    }
}

/// The tag as it is written, between the text before it and the rest: every tag of that name
/// that begins in it is closed, and none begins across its edges.
proof fn lemma_written_tag(
    a: Seq<char>,
    t: Seq<char>,
    rest: Seq<char>,
    tag: Seq<char>,
    x: int,
)
    requires
        is_tag_name(tag),
        forall|j: int| !text::occurs_at(a, "<"@ + tag, j),
        t.len() >= tag.len() + 3,
        t[0] == '<',
        t[t.len() - 2] == '/',
        t[t.len() - 1] == '>',
        forall|k: int| 0 <= k < t.len() - 1 ==> #[trigger] t[k] != '>',
        tag_at(a + t + rest, tag, x),
        tag_at(rest, tag, x - a.len() - t.len()) ==> closed_at(
            rest,
            tag,
            x - a.len() - t.len(),
        ),
    ensures
        closed_at(a + t + rest, tag, x),
{
    let r = a + t + rest;
    let needle = "<"@ + tag;
    let l = needle.len() as int;
    lemma_needle(tag);
    lemma_occurs_chars(r, needle, x);
    if x + l <= a.len() {
        assert(a.subrange(x, x + l) =~= r.subrange(x, x + l));
        assert(text::occurs_at(a, needle, x));
    } else if x < a.len() {
        let k = a.len() - x;
        assert(r[a.len() as int] == t[0]);
        assert(needle[k] == r[x + k]);
        assert(text::is_alnum(needle[k]));
    } else if x + l < a.len() + t.len() {
        let gt = a.len() + t.len() - 1;
        assert(r[gt] == t[t.len() - 1]);
        assert(r[gt - 1] == t[t.len() - 2]);
        assert forall|k: int| x + l <= k < gt implies #[trigger] r[k] != '>' by {
            assert(r[k] == t[k - a.len()]);
        }
        lemma_first_gt(r, x + l, gt);
    } else if x < a.len() + t.len() {
        let k = a.len() + t.len() - 1 - x;
        assert(r[x + k] == t[t.len() - 1]);
        assert(needle[k] == r[x + k]);
        if k == 0 {
            assert(needle[0] == '<');
        } else {
            assert(text::is_alnum(needle[k]));
        }
    } else {
        lemma_closed_behind(a + t, rest, tag, x);
    }
}

/// A tag's beginning that is no tag, between the text before it and the rest: no tag of that name
/// begins in it or across its edges.
proof fn lemma_kept_needle(a: Seq<char>, rest: Seq<char>, tag: Seq<char>, x: int)
    requires
        is_tag_name(tag),
        forall|j: int| !text::occurs_at(a, "<"@ + tag, j),
        rest.len() > 0 ==> !ends_tag_name(rest[0]),
        tag_at(a + ("<"@ + tag) + rest, tag, x),
        tag_at(rest, tag, x - a.len() - 1 - tag.len()) ==> closed_at(
            rest,
            tag,
            x - a.len() - 1 - tag.len(),
        ),
    ensures
        closed_at(a + ("<"@ + tag) + rest, tag, x),
{
    let needle = "<"@ + tag;
    let r = a + needle + rest;
    let l = needle.len() as int;
    lemma_needle(tag);
    lemma_occurs_chars(r, needle, x);
    if x + l <= a.len() {
        assert(a.subrange(x, x + l) =~= r.subrange(x, x + l));
        assert(text::occurs_at(a, needle, x));
    } else if x < a.len() {
        let k = a.len() - x;
        assert(r[a.len() as int] == needle[0]);
        assert(needle[k] == r[x + k]);
        assert(text::is_alnum(needle[k]));
    } else if x == a.len() {
        assert(r[x + l] == rest[0]);
    } else if x < a.len() + l {
        let k = x - a.len();
        assert(r[x] == needle[k]);
        assert(text::is_alnum(needle[k]));
        assert(needle[0] == r[x + 0]);
    } else {
        lemma_closed_behind(a + needle, rest, tag, x);
    }
}

/// Where no `>` follows the first tag's beginning, none follows any.
proof fn lemma_never_ended(html: Seq<char>, tag: Seq<char>, pos: int, p: int, x: int)
    requires
        is_tag_name(tag),
        0 <= pos <= p <= html.len(),
        text::find_from(html, "<"@ + tag, pos) == Some(p),
        text::find_from(html, ">"@, p + 1 + tag.len()) is None,
        tag_at(html.skip(pos), tag, x),
    ensures
        closed_at(html.skip(pos), tag, x),
{
    let needle = "<"@ + tag;
    let r = html.skip(pos);
    let l = needle.len() as int;
    lemma_needle(tag);
    reveal_strlit(">");
    text::lemma_find_from(html, needle, pos);
    text::lemma_find_from(html, ">"@, p + l);
    if let Some(gt) = text::find_from(r, ">"@, x + l) {
        text::lemma_find_from(r, ">"@, x + l);
        assert(html.subrange(pos + x, pos + x + l) =~= r.subrange(x, x + l));
        assert(text::occurs_at(html, needle, pos + x));
        assert(html.subrange(pos + gt, pos + gt + 1) =~= r.subrange(gt, gt + 1));
        assert(text::occurs_at(html, ">"@, pos + gt));
    }
}

/// What a tag is written as.
pub open spec fn written_tag(tag: Seq<char>, inner: Seq<char>) -> Seq<char> {
    "<"@ + tag + (if inner.len() > 0 {
        " "@ + inner
    } else {
        Seq::empty()
    }) + "/>"@
}

proof fn lemma_written_tag_shape(tag: Seq<char>, inner: Seq<char>)
    requires
        is_tag_name(tag),
        !inner.contains('>'),
    ensures
        ({
            let t = written_tag(tag, inner);
            &&& t.len() >= tag.len() + 3
            &&& t[0] == '<'
            &&& t[t.len() - 2] == '/'
            &&& t[t.len() - 1] == '>'
            &&& forall|k: int| 0 <= k < t.len() - 1 ==> #[trigger] t[k] != '>'
        }),
{
    lemma_needle(tag);
    reveal_strlit("/>");
    reveal_strlit(" ");
    let needle = "<"@ + tag;
    let l = needle.len() as int;
    let attrs = if inner.len() > 0 {
        " "@ + inner
    } else {
        Seq::empty()
    };
    let t = needle + attrs + "/>"@;
    assert(t == written_tag(tag, inner));
    assert(t[t.len() - 2] == "/>"@[0]);
    assert(t[t.len() - 1] == "/>"@[1]);
    assert(t[0] == needle[0]);
    assert forall|k: int| 0 <= k < t.len() - 1 implies #[trigger] t[k] != '>' by {
        if k < l {
            assert(t[k] == needle[k]);
            if k > 0 {
                assert(text::is_alnum(needle[k]));
            }
        } else if k < l + attrs.len() {
            assert(t[k] == attrs[k - l]);
            if k > l {
                assert(attrs[k - l] == inner[k - l - 1]);
                assert(inner.contains(inner[k - l - 1]));
            }
        } else {
            assert(t[k] == "/>"@[k - l - attrs.len()]);
        }
    }
}

/// There is no `>` before the first one.
proof fn lemma_no_gt_before(html: Seq<char>, from: int, gt: int)
    requires
        0 <= from,
        text::find_from(html, ">"@, from) == Some(gt),
    ensures
        from <= gt < html.len(),
        !html.subrange(from, gt).contains('>'),
{
    reveal_strlit(">");
    text::lemma_find_from(html, ">"@, from);
    let between = html.subrange(from, gt);
    if between.contains('>') {
        let i = choose|i: int| 0 <= i < between.len() && between[i] == '>';
        assert(html.subrange(from + i, from + i + 1) =~= ">"@);
        assert(text::occurs_at(html, ">"@, from + i));
    }
}

/// The needle does not occur before its first place.
proof fn lemma_no_needle_before(html: Seq<char>, needle: Seq<char>, pos: int, p: int)
    requires
        0 <= pos,
        needle.len() > 0,
        text::find_from(html, needle, pos) == Some(p),
    ensures
        pos <= p,
        p + needle.len() <= html.len(),
        forall|j: int| !text::occurs_at(html.subrange(pos, p), needle, j),
{
    text::lemma_find_from(html, needle, pos);
    let a = html.subrange(pos, p);
    assert forall|j: int| !text::occurs_at(a, needle, j) by {
        if text::occurs_at(a, needle, j) {
            assert(html.subrange(pos + j, pos + j + needle.len()) =~= a.subrange(
                j,
                j + needle.len(),
            ));
            assert(text::occurs_at(html, needle, pos + j));
        }
    }
}

proof fn lemma_void_tags_are_closed(html: Seq<char>, tag: Seq<char>, pos: int, x: int)
    requires
        is_tag_name(tag),
        0 <= pos <= html.len(),
        tag_at(void_closed_from(html, tag, pos), tag, x),
    ensures
        closed_at(void_closed_from(html, tag, pos), tag, x),
    decreases html.len() - pos,
{
    let needle = "<"@ + tag;
    let l = needle.len() as int;
    let r = void_closed_from(html, tag, pos);
    lemma_needle(tag);
    match text::find_from(html, needle, pos) {
        None => {
            text::lemma_find_from(html, needle, pos);
            assert(html.subrange(pos + x, pos + x + l) =~= r.subrange(x, x + l));
            assert(text::occurs_at(html, needle, pos + x));
        },
        Some(p) => {
            let after = p + l;
            let a = html.subrange(pos, p);
            lemma_no_needle_before(html, needle, pos, p);
            if !(after < html.len() && ends_tag_name(html[after])) {
                let rest = void_closed_from(html, tag, after);
                lemma_void_closed_begins(html, tag, after);
                if tag_at(rest, tag, x - a.len() - l) {
                    lemma_void_tags_are_closed(html, tag, after, x - a.len() - l);
                }
                lemma_kept_needle(a, rest, tag, x);
            } else {
                match text::find_from(html, ">"@, after) {
                    None => {
                        lemma_never_ended(html, tag, pos, p, x);
                    },
                    Some(gt) => {
                        let inner = tag_inner(html.subrange(after, gt));
                        let t = written_tag(tag, inner);
                        let rest = void_closed_from(html, tag, gt + 1);
                        lemma_no_gt_before(html, after, gt);
                        lemma_tag_inner_keeps(html.subrange(after, gt), '>');
                        lemma_written_tag_shape(tag, inner);
                        let y = x - a.len() - t.len();
                        if tag_at(rest, tag, y) {
                            lemma_void_tags_are_closed(html, tag, gt + 1, y);
                        }
                        lemma_written_tag(a, t, rest, tag, x);
                    },
                }
            }
        },
    }
}

/// Closing a void element closes every tag of that name: each ends with a slash, or does not end
/// at all.
pub proof fn law_void_tags_are_closed(html: Seq<char>, tag: Seq<char>)
    requires
        is_tag_name(tag),
    ensures
        forall|x: int| #[trigger]
            tag_at(void_closed_from(html, tag, 0), tag, x) ==> closed_at(
                void_closed_from(html, tag, 0),
                tag,
                x,
            ),
{
    assert forall|x: int| #[trigger]
        tag_at(void_closed_from(html, tag, 0), tag, x) implies closed_at(
        void_closed_from(html, tag, 0),
        tag,
        x,
    ) by {
        lemma_void_tags_are_closed(html, tag, 0, x);
    }
}

// ---------------------------------------------------------------------------
// Laws of the conversion
// ---------------------------------------------------------------------------

proof fn lemma_image_once(a: Seq<char>, b: Seq<char>, i: int)
    requires
        !text::contains_text(a, ":::image"@),
        0 <= i < a.len(),
    ensures
        !text::occurs_at(a + (":::image"@ + b), ":::image"@, i),
{
    reveal_strlit(":::image");
    let p = ":::image"@;
    let s = a + (p + b);
    if text::occurs_at(s, p, i) {
        if i + 8 <= a.len() {
            text::lemma_occurs_before(a, p + b, p, i);
        } else {
            let k = a.len() - i;
            let w = s.subrange(i, i + 8);
            assert(w[k] == s[a.len() as int] && s[a.len() as int] == ':');
            assert(p[k] == ':');
            assert(k < 3);
            assert(w[3] == s[i + 3]);
            assert(s[i + 3] == p[i + 3 - a.len()]);
        }
    }
}

proof fn lemma_images_shift(a: Seq<char>, b: Seq<char>, media_base: Seq<char>, pos: int)
    requires
        0 <= pos <= b.len(),
    ensures
        images_converted_from(a + b, media_base, a.len() + pos) == images_converted_from(
            b,
            media_base,
            pos,
        ),
    decreases b.len() - pos,
{
    reveal_strlit(":::image");
    reveal_strlit(":::");
    let s = a + b;
    let n = a.len() as int;
    text::lemma_find_shift(a, b, ":::image"@, pos);
    text::lemma_find_from(b, ":::image"@, pos);
    match text::find_from(b, ":::image"@, pos) {
        Some(start) => {
            let attrs = start + 8;
            text::lemma_find_shift(a, b, ":::"@, attrs);
            text::lemma_find_from(b, ":::"@, attrs);
            assert(s.subrange(n + pos, n + start) =~= b.subrange(pos, start));
            match text::find_from(b, ":::"@, attrs) {
                Some(end) => {
                    assert(s.subrange(n + attrs, n + end) =~= b.subrange(attrs, end));
                    lemma_images_shift(a, b, media_base, end + 3);
                },
                None => {
                    lemma_images_shift(a, b, media_base, attrs);
                },
            }
        },
        None => {
            assert(s.skip(n + pos) =~= b.skip(pos));
        },
    }
}

/// Text outside of image directives is kept: a directive that is closed becomes its image, what
/// stands before the first stays, and what stands behind it is converted in the same way.
pub proof fn law_text_around_images_is_kept(
    a: Seq<char>,
    attrs: Seq<char>,
    b: Seq<char>,
    media_base: Seq<char>,
)
    requires
        !text::contains_text(a, ":::image"@),
        !text::contains_text(attrs, ":::"@),
        attrs.len() > 0 ==> attrs.last() != ':',
    ensures
        images_converted_from(a + ":::image"@ + attrs + ":::"@ + b, media_base, 0) == a
            + image_text(attrs, media_base) + images_converted_from(b, media_base, 0),
{
    reveal_strlit(":::image");
    reveal_strlit(":::");
    let p = ":::image"@;
    let c = ":::"@;
    let s = a + p + attrs + c + b;
    let n = a.len() as int;
    assert(s =~= a + (p + (attrs + c + b)));
    assert forall|i: int| 0 <= i < n implies !text::occurs_at(s, p, i) by {
        lemma_image_once(a, attrs + c + b, i);
    }
    assert(s.subrange(n, n + 8) =~= p);
    text::lemma_find_first(s, p, 0, n);
    let from = n + 8;
    let end = from + attrs.len();
    assert(s.subrange(end, end + 3) =~= c);
    assert forall|i: int| from <= i < end implies !text::occurs_at(s, c, i) by {
        lemma_no_colons(attrs, c + b, i - from);
        assert(s =~= (a + p) + (attrs + (c + b)));
        text::lemma_occurs_behind(a + p, attrs + (c + b), c, i - from);
    }
    text::lemma_find_first(s, c, from, end);
    assert(s.subrange(0, n) =~= a);
    assert(s.subrange(from, end) =~= attrs);
    let front = a + p + attrs + c;
    assert(s =~= front + b);
    lemma_images_shift(front, b, media_base, 0);
}

proof fn lemma_no_colons(attrs: Seq<char>, rest: Seq<char>, i: int)
    requires
        !text::contains_text(attrs, ":::"@),
        attrs.len() > 0 ==> attrs.last() != ':',
        0 <= i < attrs.len(),
    ensures
        !text::occurs_at(attrs + rest, ":::"@, i),
{
    reveal_strlit(":::");
    let s = attrs + rest;
    if text::occurs_at(s, ":::"@, i) {
        if i + 3 <= attrs.len() {
            text::lemma_occurs_before(attrs, rest, ":::"@, i);
        } else {
            let k = attrs.len() - 1 - i;
            assert(s.subrange(i, i + 3)[k] == s[attrs.len() - 1]);
            assert(s[attrs.len() - 1] == attrs.last());
        }
    }
}

proof fn lemma_no_images(s: Seq<char>, media_base: Seq<char>)
    requires
        !text::contains_text(s, ":::image"@),
    ensures
        images_converted_from(s, media_base, 0) == s,
{
    text::lemma_find_none(s, ":::image"@, 0);
    assert(s.skip(0) =~= s);
}

proof fn lemma_image_has_colons(s: Seq<char>)
    requires
        !text::contains_text(s, ":::"@),
    ensures
        !text::contains_text(s, ":::image"@),
{
    if text::contains_text(s, ":::image"@) {
        reveal_strlit(":::image");
        reveal_strlit(":::");
        let i = choose|i: int| text::occurs_at(s, ":::image"@, i);
        assert(s.subrange(i, i + 3) =~= s.subrange(i, i + 8).take(3));
        assert(":::image"@.take(3) =~= ":::"@);
        assert(text::occurs_at(s, ":::"@, i));
    }
}

/// Text without an image directive stays as it is, and so does a directive without an end.
pub proof fn law_text_without_images_is_kept(a: Seq<char>, b: Seq<char>, media_base: Seq<char>)
    requires
        !text::contains_text(a, ":::image"@),
        !text::contains_text(b, ":::"@),
    ensures
        images_converted_from(a, media_base, 0) == a,
        images_converted_from(a + ":::image"@ + b, media_base, 0) == a + ":::image"@ + b,
{
    lemma_no_images(a, media_base);
    lemma_image_has_colons(b);
    lemma_no_images(b, media_base);
    let p = ":::image"@;
    let s = a + p + b;
    let n = a.len() as int;
    assert(p.len() == 8) by {
        reveal_strlit(":::image");
    }
    assert(s =~= a + (p + b));
    assert forall|i: int| 0 <= i < n implies !text::occurs_at(s, p, i) by {
        lemma_image_once(a, b, i);
    }
    assert(s.subrange(n, n + 8) =~= p);
    text::lemma_find_first(s, p, 0, n);
    let front = a + p;
    assert forall|i: int| n + 8 <= i implies !text::occurs_at(s, ":::"@, i) by {
        text::lemma_occurs_behind(front, b, ":::"@, i - n - 8);
    }
    text::lemma_find_none(s, ":::"@, n + 8);
    lemma_images_shift(front, b, media_base, 0);
    assert(s.subrange(0, n) =~= a);
}

/// An attribute of a tag is what stands between the quotes behind its name, where the name stands
/// first.
pub proof fn law_attribute_is_found(
    front: Seq<char>,
    attr: Seq<char>,
    value: Seq<char>,
    rest: Seq<char>,
)
    requires
        forall|i: int|
            0 <= i < front.len() ==> !text::occurs_at(
                front + attr + "=\""@ + value + "\""@ + rest,
                attr + "=\""@,
                i,
            ),
        !value.contains('"'),
    ensures
        attr_value(front + attr + "=\""@ + value + "\""@ + rest, attr) == Some(value),
{
    reveal_strlit("=\"");
    reveal_strlit("\"");
    let needle = attr + "=\""@;
    let tag = front + attr + "=\""@ + value + "\""@ + rest;
    let n = front.len() as int;
    assert(tag.subrange(n, n + needle.len()) =~= needle);
    text::lemma_find_first(tag, needle, 0, n);
    let from = n + needle.len();
    let end = from + value.len();
    assert(tag.subrange(end, end + 1) =~= "\""@);
    assert forall|i: int| from <= i < end implies !text::occurs_at(tag, "\""@, i) by {
        assert(tag[i] == value[i - from]);
        assert(value.contains(value[i - from]));
        if text::occurs_at(tag, "\""@, i) {
            assert(tag.subrange(i, i + 1)[0] == tag[i]);
        }
    }
    text::lemma_find_first(tag, "\""@, from, end);
    assert(tag.subrange(from, end) =~= value);
}

/// An image that a page of the repository refers to is in the module's folder, wherever the
/// reference starts from; a reference from the site's root is on the site, and an absolute one
/// stays.
pub proof fn law_media_are_in_the_modules_folder(x: Seq<char>, media_base: Seq<char>)
    ensures
        media_url("../media/"@ + x, media_base) == media_base + "/media/"@ + x,
        media_url("media/"@ + x, media_base) == media_base + "/media/"@ + x,
        media_url("/"@ + x, media_base) == "https://learn.microsoft.com/"@ + x,
        media_url("http"@ + x, media_base) == "http"@ + x,
{
    reveal_strlit("../media/");
    reveal_strlit("media/");
    reveal_strlit("/media/");
    reveal_strlit("../");
    reveal_strlit("/");
    reveal_strlit("http");
    reveal_strlit("https://learn.microsoft.com");
    reveal_strlit("https://learn.microsoft.com/");
    let a = "../media/"@ + x;
    let b = "media/"@ + x;
    let c = "/"@ + x;
    let d = "http"@ + x;
    assert(a.subrange(0, 9) =~= "../media/"@);
    assert(a.skip(9) =~= x);
    assert(a[0] == '.' && b[0] == 'm' && c[0] == '/');
    assert(b.subrange(0, 6) =~= "media/"@);
    assert(b.skip(6) =~= x);
    assert(c.subrange(0, 1) =~= "/"@);
    assert(c.skip(1) =~= x);
    assert(d.subrange(0, 4) =~= "http"@);
    lemma_prefix_begins(a, "http"@);
    lemma_prefix_begins(b, "http"@);
    lemma_prefix_begins(c, "http"@);
    lemma_prefix_begins(b, "../media/"@);
    lemma_prefix_begins(c, "../media/"@);
    lemma_prefix_begins(c, "media/"@);
    lemma_prefix_begins(c, "../"@);
    assert(LEARN_DOCS_BASE@ + "/"@ + x =~= "https://learn.microsoft.com/"@ + x);
}

proof fn lemma_prefix_begins(s: Seq<char>, p: Seq<char>)
    requires
        p.len() > 0,
    ensures
        text::has_prefix(s, p) ==> s[0] == p[0],
{
    if text::has_prefix(s, p) {
        assert(s.subrange(0, p.len() as int)[0] == s[0]);
    }
}

/// An image directive with a source becomes an image of that source, with its text.
pub proof fn law_image_shows_its_source(
    attrs: Seq<char>,
    media_base: Seq<char>,
    src: Seq<char>,
    alt: Seq<char>,
)
    requires
        attr_value(attrs, "source"@) == Some(src),
        attr_value(attrs, "alt-text"@) == Some(alt),
    ensures
        text::has_prefix(image_text(attrs, media_base), "<img"@),
        text::contains_text(
            image_text(attrs, media_base),
            " src=\""@ + epub::escaped(media_url(src, media_base)) + "\""@,
        ),
        text::contains_text(
            image_text(attrs, media_base),
            " alt=\""@ + epub::escaped(alt) + "\"/>"@,
        ),
{
    let class = if attr_value(attrs, "type"@) == Some("icon"@) {
        " class=\"learn-icon\""@
    } else {
        " class=\"content-img\""@
    };
    let front = "<img"@ + class;
    let s = " src=\""@ + epub::escaped(media_url(src, media_base)) + "\""@;
    let a = " alt=\""@ + epub::escaped(alt) + "\"/>"@;
    reveal_strlit("\" alt=\"");
    reveal_strlit(" alt=\"");
    reveal_strlit("\"");
    assert("\" alt=\""@ =~= "\""@ + " alt=\""@);
    assert(image_text(attrs, media_base) =~= front + s + a);
    text::lemma_contains_cat(front, s, s);
    text::lemma_contains_cat(front + s, a, s);
    text::lemma_contains_cat(front + s, a, a);
    assert(image_text(attrs, media_base).subrange(0, "<img"@.len() as int) =~= "<img"@);
}

proof fn lemma_iframe_strings()
    ensures
        "<iframe"@.len() == 7,
        "</iframe>"@.len() == 9,
        ">"@.len() == 1,
        text::starts_once("<iframe"@),
        text::starts_once("</iframe>"@),
        "<iframe"@[0] == '<',
        "</iframe>"@[0] == '<',
{
    reveal_strlit("<iframe");
    reveal_strlit("</iframe>");
    reveal_strlit(">");
}

proof fn lemma_iframes_shift(a: Seq<char>, b: Seq<char>, unit_url: Seq<char>, pos: int)
    requires
        0 <= pos <= b.len(),
    ensures
        iframes_replaced_from(a + b, unit_url, a.len() + pos) == iframes_replaced_from(
            b,
            unit_url,
            pos,
        ),
    decreases b.len() - pos,
{
    lemma_iframe_strings();
    let s = a + b;
    let n = a.len() as int;
    text::lemma_find_shift(a, b, "<iframe"@, pos);
    text::lemma_find_from(b, "<iframe"@, pos);
    match text::find_from(b, "<iframe"@, pos) {
        Some(start) => {
            lemma_iframe_at(b, start);
            text::lemma_find_shift(a, b, "</iframe>"@, start);
            text::lemma_find_from(b, "</iframe>"@, start);
            text::lemma_find_shift(a, b, ">"@, start);
            text::lemma_find_from(b, ">"@, start);
            match text::find_from(b, "</iframe>"@, start) {
                Some(end) => {
                    assert(s.subrange(n + start, n + end) =~= b.subrange(start, end));
                },
                None => match text::find_from(b, ">"@, start) {
                    Some(gt) => {
                        assert(s.subrange(n + start, n + gt) =~= b.subrange(start, gt));
                    },
                    None => {},
                },
            }
            let (next, src) = iframe_at(b, start);
            assert(iframe_at(s, n + start) == (n + next, src));
            assert(s.subrange(n + pos, n + start) =~= b.subrange(pos, start));
            lemma_iframes_shift(a, b, unit_url, next);
        },
        None => {
            assert(s.skip(n + pos) =~= b.skip(pos));
        },
    }
}

/// Text outside of embedded frames is kept: a frame becomes a link to its video, or nothing where
/// it has no source, what stands before the first stays, and what stands behind it is treated in
/// the same way.
pub proof fn law_text_around_iframes_is_kept(
    a: Seq<char>,
    inner: Seq<char>,
    b: Seq<char>,
    unit_url: Seq<char>,
)
    requires
        !text::contains_text(a, "<iframe"@),
        !text::contains_text("<iframe"@ + inner, "</iframe>"@),
    ensures
        iframes_replaced_from(a + "<iframe"@ + inner + "</iframe>"@ + b, unit_url, 0) == a + (
        match attr_value("<iframe"@ + inner, "src"@) {
            Some(url) => video_link_text(url, unit_url),
            None => Seq::empty(),
        }) + iframes_replaced_from(b, unit_url, 0),
{
    lemma_iframe_strings();
    let p = "<iframe"@;
    let c = "</iframe>"@;
    let tag = p + inner;
    let s = a + p + inner + c + b;
    let n = a.len() as int;
    assert(s =~= a + (tag + (c + b)));
    assert forall|i: int| 0 <= i < n implies !text::occurs_at(s, p, i) by {
        text::lemma_no_straddle(a, tag + (c + b), p, i);
    }
    assert(s.subrange(n, n + 7) =~= p);
    text::lemma_find_first(s, p, 0, n);
    let end = n + tag.len();
    assert(s.subrange(end, end + 9) =~= c);
    assert forall|i: int| n <= i < end implies !text::occurs_at(s, c, i) by {
        text::lemma_no_straddle(tag, c + b, c, i - n);
        text::lemma_occurs_behind(a, tag + (c + b), c, i - n);
    }
    text::lemma_find_first(s, c, n, end);
    assert(s.subrange(n, end) =~= tag);
    assert(s.subrange(0, n) =~= a);
    let front = a + p + inner + c;
    assert(s =~= front + b);
    lemma_iframes_shift(front, b, unit_url, 0);
}

/// Text without an embedded frame stays as it is.
pub proof fn law_text_without_iframes_is_kept(s: Seq<char>, unit_url: Seq<char>)
    requires
        !text::contains_text(s, "<iframe"@),
    ensures
        iframes_replaced_from(s, unit_url, 0) == s,
{
    text::lemma_find_none(s, "<iframe"@, 0);
    assert(s.skip(0) =~= s);
}

/// A video is watched on the unit's page where that is known, whatever the reference says, and at
/// the address of the reference otherwise.
pub proof fn law_videos_lead_to_the_unit(raw_url: Seq<char>, unit_url: Seq<char>, id: Seq<char>)
    requires
        unit_url.len() > 0,
        text::trim(id) == id,
        !text::has_prefix(id, "http"@),
    ensures
        text::contains_text(video_link_text(raw_url, unit_url), "]("@ + unit_url + ")"@),
        text::has_prefix(text::trim(raw_url), "http"@) ==> text::contains_text(
            video_link_text(raw_url, Seq::empty()),
            "]("@ + text::trim(raw_url) + ")"@,
        ),
        text::contains_text(
            video_link_text(id, Seq::empty()),
            "](https://learn-video.azurefd.net/vod/player?id="@ + id + ")"@,
        ),
{
    lemma_video_link(raw_url, unit_url);
    lemma_video_link(raw_url, Seq::empty());
    lemma_video_link(id, Seq::empty());
    reveal_strlit("](https://learn-video.azurefd.net/vod/player?id=");
    reveal_strlit("https://learn-video.azurefd.net/vod/player?id=");
    reveal_strlit("](");
    assert("](https://learn-video.azurefd.net/vod/player?id="@ + id + ")"@ =~= "]("@ + (
    "https://learn-video.azurefd.net/vod/player?id="@ + id) + ")"@);
}

proof fn lemma_video_link(raw_url: Seq<char>, unit_url: Seq<char>)
    ensures
        text::contains_text(
            video_link_text(raw_url, unit_url),
            "]("@ + video_target(raw_url, unit_url) + ")"@,
        ),
{
    reveal_strlit("\n\n[Watch video on Microsoft Learn](");
    reveal_strlit("\n\n[Watch video on Microsoft Learn");
    reveal_strlit("](");
    reveal_strlit(")\n\n");
    reveal_strlit(")");
    reveal_strlit("\n\n");
    let t = video_target(raw_url, unit_url);
    let a = "\n\n[Watch video on Microsoft Learn"@;
    let link = "]("@ + t + ")"@;
    assert(video_link_text(raw_url, unit_url) =~= a + link + "\n\n"@);
    text::lemma_contains_cat(a, link, link);
    text::lemma_contains_cat(a + link, "\n\n"@, link);
}

// ---------------------------------------------------------------------------
// Laws of links and lines
// ---------------------------------------------------------------------------

/// `q` begins with a closing bracket and holds no other.
pub open spec fn one_bracket(q: Seq<char>) -> bool {
    &&& q.len() >= 3
    &&& q[0] == ']'
    &&& forall|i: int| 0 < i < q.len() ==> #[trigger] q[i] != ']'
}

proof fn lemma_link_replaced(q: Seq<char>, y: Seq<char>, by: Seq<char>)
    requires
        one_bracket(q),
    ensures
        text::replaced(q + y, q, by) == by + text::replaced(y, q, by),
{
    let none = Seq::<char>::empty();
    assert(none + q + y =~= q + y);
    text::law_replaced(none, y, q, by);
    assert(none + by =~= by);
}

proof fn lemma_link_stays(q: Seq<char>, y: Seq<char>, needle: Seq<char>, by: Seq<char>)
    requires
        one_bracket(q),
        one_bracket(needle),
        q[2] != needle[2],
    ensures
        text::replaced(q + y, needle, by) == q + text::replaced(y, needle, by),
{
    assert forall|i: int| 0 <= i < q.len() implies !text::occurs_at(q + y, needle, i) by {
        if text::occurs_at(q + y, needle, i) {
            let w = (q + y).subrange(i, i + needle.len());
            assert(w[0] == q[i]);
            if i == 0 {
                assert(w[2] == q[2]);
            }
        }
    }
    text::lemma_replaced_behind(q, y, needle, by);
}

proof fn lemma_link_strings(media_base: Seq<char>)
    requires
        text::has_prefix(media_base, "http"@),
        !media_base.contains(']'),
    ensures
        one_bracket("](/"@) && "](/"@[2] == '/',
        one_bracket("](../media/"@) && "](../media/"@[2] == '.',
        one_bracket("](media/"@) && "](media/"@[2] == 'm',
        one_bracket("]("@ + LEARN_DOCS_BASE@ + "/"@) && ("]("@ + LEARN_DOCS_BASE@ + "/"@)[2]
            == 'h',
        one_bracket("]("@ + media_base + "/media/"@) && ("]("@ + media_base + "/media/"@)[2]
            == 'h',
{
    reveal_strlit("](/");
    reveal_strlit("](../media/");
    reveal_strlit("](media/");
    reveal_strlit("](");
    reveal_strlit("/");
    reveal_strlit("/media/");
    reveal_strlit("http");
    reveal_strlit("https://learn.microsoft.com");
    let m = "]("@ + media_base + "/media/"@;
    assert(media_base.subrange(0, 4)[0] == media_base[0]);
    assert(m[2] == media_base[0]);
    assert forall|i: int| 0 < i < m.len() implies #[trigger] m[i] != ']' by {
        if 2 <= i < 2 + media_base.len() {
            assert(m[i] == media_base[i - 2]);
            assert(media_base.contains(media_base[i - 2]));
        }
    }
}

/// One round of replacing in a text that holds `q`: it is replaced, or stays.
proof fn lemma_link_round(
    a: Seq<char>,
    q: Seq<char>,
    x: Seq<char>,
    needle: Seq<char>,
    by: Seq<char>,
)
    requires
        one_bracket(q),
        one_bracket(needle),
        q == needle || q[2] != needle[2],
    ensures
        text::replaced(a + (q + x), needle, by) == text::replaced(a, needle, by) + ((if q
            == needle {
            by
        } else {
            q
        }) + text::replaced(x, needle, by)),
{
    text::law_replaced_cat(a, q + x, needle, by);
    if q == needle {
        lemma_link_replaced(q, x, by);
    } else {
        lemma_link_stays(q, x, needle, by);
    }
}

/// Three rounds of replacing in a text that holds `q`.
proof fn lemma_link_rounds(
    a: Seq<char>,
    q: Seq<char>,
    x: Seq<char>,
    n: (Seq<char>, Seq<char>, Seq<char>),
    by: (Seq<char>, Seq<char>, Seq<char>),
    to: (Seq<char>, Seq<char>, Seq<char>),
)
    requires
        one_bracket(q) && one_bracket(n.0) && one_bracket(n.1) && one_bracket(n.2),
        one_bracket(to.0) && one_bracket(to.1),
        q == n.0 && to.0 == by.0 || q[2] != n.0[2] && to.0 == q,
        to.0 == n.1 && to.1 == by.1 || to.0[2] != n.1[2] && to.1 == to.0,
        to.1 == n.2 && to.2 == by.2 || to.1[2] != n.2[2] && to.2 == to.1,
    ensures
        text::replaced(
            text::replaced(text::replaced(a + (q + x), n.0, by.0), n.1, by.1),
            n.2,
            by.2,
        ) == text::replaced(text::replaced(text::replaced(a, n.0, by.0), n.1, by.1), n.2, by.2) + (
        to.2 + text::replaced(text::replaced(text::replaced(x, n.0, by.0), n.1, by.1), n.2, by.2)),
{
    let (a1, x1) = (text::replaced(a, n.0, by.0), text::replaced(x, n.0, by.0));
    let (a2, x2) = (text::replaced(a1, n.1, by.1), text::replaced(x1, n.1, by.1));
    lemma_link_round(a, q, x, n.0, by.0);
    lemma_link_round(a1, to.0, x1, n.1, by.1);
    lemma_link_round(a2, to.1, x2, n.2, by.2);
}

/// Links and images of a line lead to absolute addresses, one after the other: a reference to the
/// media folder, from the unit's file or from the module's folder, leads into the folder of the
/// module, and a link from the site's root leads to the site. What stands around them is treated
/// in the same way.
pub proof fn law_links_are_made_absolute(a: Seq<char>, x: Seq<char>, media_base: Seq<char>)
    requires
        text::has_prefix(media_base, "http"@),
        !media_base.contains(']'),
    ensures
        links_rewritten(a + "](../media/"@ + x, media_base) == links_rewritten(a, media_base)
            + "]("@ + media_base + "/media/"@ + links_rewritten(x, media_base),
        links_rewritten(a + "](media/"@ + x, media_base) == links_rewritten(a, media_base) + "]("@
            + media_base + "/media/"@ + links_rewritten(x, media_base),
        links_rewritten(a + "](/"@ + x, media_base) == links_rewritten(a, media_base)
            + "](https://learn.microsoft.com/"@ + links_rewritten(x, media_base),
{
    let m = "]("@ + media_base + "/media/"@;
    let d = "](https://learn.microsoft.com/"@;
    let (a3, x3) = (links_rewritten(a, media_base), links_rewritten(x, media_base));
    lemma_links_of_a_line(a, x, media_base);
    lemma_link_parts(a3, media_base, x3);
    text::lemma_cat_assoc(a, "](/"@, x);
    text::lemma_cat_assoc(a, "](../media/"@, x);
    text::lemma_cat_assoc(a, "](media/"@, x);
    text::lemma_cat_assoc(a3, d, x3);
}

proof fn lemma_link_parts(a: Seq<char>, media_base: Seq<char>, x: Seq<char>)
    ensures
        a + "]("@ + media_base + "/media/"@ + x == a + (("]("@ + media_base + "/media/"@) + x),
{
    assert(a + "]("@ + media_base + "/media/"@ + x =~= a + (("]("@ + media_base + "/media/"@) + x));
}

proof fn lemma_docs_link()
    ensures
        "]("@ + LEARN_DOCS_BASE@ + "/"@ == "](https://learn.microsoft.com/"@,
{
    reveal_strlit("](");
    reveal_strlit("/");
    reveal_strlit("https://learn.microsoft.com");
    reveal_strlit("](https://learn.microsoft.com/");
    assert("]("@ + LEARN_DOCS_BASE@ + "/"@ =~= "](https://learn.microsoft.com/"@);
}

proof fn lemma_links_of_a_line(a: Seq<char>, x: Seq<char>, media_base: Seq<char>)
    requires
        text::has_prefix(media_base, "http"@),
        !media_base.contains(']'),
    ensures
        links_rewritten(a + ("](../media/"@ + x), media_base) == links_rewritten(a, media_base) + ((
        "]("@ + media_base + "/media/"@) + links_rewritten(x, media_base)),
        links_rewritten(a + ("](media/"@ + x), media_base) == links_rewritten(a, media_base) + ((
        "]("@ + media_base + "/media/"@) + links_rewritten(x, media_base)),
        links_rewritten(a + ("](/"@ + x), media_base) == links_rewritten(a, media_base) + (
        "](https://learn.microsoft.com/"@ + links_rewritten(x, media_base)),
{
    lemma_link_strings(media_base);
    lemma_docs_link();
    let m = "]("@ + media_base + "/media/"@;
    let d = "]("@ + LEARN_DOCS_BASE@ + "/"@;
    let n = ("](/"@, "](../media/"@, "](media/"@);
    let by = (d, m, m);
    lemma_link_rounds(a, n.1, x, n, by, (n.1, m, m));
    lemma_link_rounds(a, n.2, x, n, by, (n.2, n.2, m));
    lemma_link_rounds(a, n.0, x, n, by, (d, d, d));
}

/// A line without a link stays as it is.
pub proof fn law_line_without_links_is_kept(line: Seq<char>, media_base: Seq<char>)
    requires
        !text::contains_text(line, "]("@),
    ensures
        links_rewritten(line, media_base) == line,
{
    reveal_strlit("](");
    reveal_strlit("](/");
    reveal_strlit("](../media/");
    reveal_strlit("](media/");
    assert("](/"@.take(2) =~= "]("@);
    assert("](../media/"@.take(2) =~= "]("@);
    assert("](media/"@.take(2) =~= "]("@);
    lemma_no_link(line, "](/"@);
    lemma_no_link(line, "](../media/"@);
    lemma_no_link(line, "](media/"@);
    text::law_nothing_to_replace(line, "](/"@, "]("@ + LEARN_DOCS_BASE@ + "/"@);
    text::law_nothing_to_replace(line, "](../media/"@, "]("@ + media_base + "/media/"@);
    text::law_nothing_to_replace(line, "](media/"@, "]("@ + media_base + "/media/"@);
}

proof fn lemma_no_link(line: Seq<char>, needle: Seq<char>)
    requires
        !text::contains_text(line, "]("@),
        needle.len() >= 2,
        needle.take(2) == "]("@,
    ensures
        !text::contains_text(line, needle),
{
    reveal_strlit("](");
    if text::contains_text(line, needle) {
        let i = choose|i: int| text::occurs_at(line, needle, i);
        assert(line.subrange(i, i + 2) =~= line.subrange(i, i + needle.len()).take(2));
        assert(text::occurs_at(line, "]("@, i));
    }
}

/// `s` holds neither an embedded frame nor an image directive.
pub open spec fn holds_no_block(s: Seq<char>) -> bool {
    !text::contains_text(s, "<iframe"@) && !text::contains_text(s, ":::image"@)
}

proof fn lemma_no_block_parts(a: Seq<char>, b: Seq<char>)
    requires
        holds_no_block(a + b),
    ensures
        holds_no_block(a),
        holds_no_block(b),
{
    text::lemma_contains_cat(a, b, "<iframe"@);
    text::lemma_contains_cat(a, b, ":::image"@);
}

proof fn lemma_no_block(s: Seq<char>, media_base: Seq<char>, unit_url: Seq<char>)
    requires
        holds_no_block(s),
    ensures
        images_converted_from(iframes_replaced_from(s, unit_url, 0), media_base, 0) == s,
{
    law_text_without_iframes_is_kept(s, unit_url);
    lemma_no_images(s, media_base);
}

proof fn lemma_lines_preprocessed_cat(
    a: Seq<Seq<char>>,
    b: Seq<Seq<char>>,
    media_base: Seq<char>,
    unit_url: Seq<char>,
    n: nat,
)
    requires
        n <= b.len(),
    ensures
        lines_preprocessed(a + b, media_base, unit_url, a.len() + n) == lines_preprocessed(
            a,
            media_base,
            unit_url,
            a.len(),
        ) + lines_preprocessed(b, media_base, unit_url, n),
    decreases n,
{
    let front = lines_preprocessed(a, media_base, unit_url, a.len());
    if n == 0 {
        lemma_lines_preprocessed_same(a + b, a, media_base, unit_url, a.len());
        assert(front + lines_preprocessed(b, media_base, unit_url, 0) =~= front);
    } else {
        lemma_lines_preprocessed_cat(a, b, media_base, unit_url, (n - 1) as nat);
        assert((a + b)[a.len() + n - 1] == b[n - 1]);
        text::lemma_cat_assoc(
            front,
            lines_preprocessed(b, media_base, unit_url, (n - 1) as nat),
            line_preprocessed(b[n - 1], media_base, unit_url),
        );
    }
}

proof fn lemma_lines_preprocessed_same(
    a: Seq<Seq<char>>,
    b: Seq<Seq<char>>,
    media_base: Seq<char>,
    unit_url: Seq<char>,
    n: nat,
)
    requires
        n <= a.len(),
        n <= b.len(),
        forall|i: int| 0 <= i < n ==> a[i] == b[i],
    ensures
        lines_preprocessed(a, media_base, unit_url, n) == lines_preprocessed(
            b,
            media_base,
            unit_url,
            n,
        ),
    decreases n,
{
    if n > 0 {
        lemma_lines_preprocessed_same(a, b, media_base, unit_url, (n - 1) as nat);
    }
}

/// Learn's syntax is rewritten line by line: no line is lost, and each is rewritten as if it stood
/// alone.
pub proof fn law_every_line_is_converted(
    a: Seq<char>,
    b: Seq<char>,
    media_base: Seq<char>,
    unit_url: Seq<char>,
)
    requires
        a.len() == 0 || a.last() == '\n',
        holds_no_block(a + b),
    ensures
        preprocessed(a + b, media_base, unit_url) == preprocessed(a, media_base, unit_url)
            + preprocessed(b, media_base, unit_url),
{
    lemma_no_block_parts(a, b);
    lemma_no_block(a, media_base, unit_url);
    lemma_no_block(b, media_base, unit_url);
    lemma_no_block(a + b, media_base, unit_url);
    text::law_lines_cat(a, b);
    lemma_lines_preprocessed_cat(
        text::lines(a),
        text::lines(b),
        media_base,
        unit_url,
        text::lines(b).len(),
    );
}

/// An ordinary line: no zone marker, no video and no alert, and without a line end of its own.
pub open spec fn is_ordinary(line: Seq<char>) -> bool {
    &&& !line.contains('\n')
    &&& line.len() > 0 ==> line.last() != '\r'
    &&& !text::has_prefix(text::trim_start(line), ":::"@)
    &&& !text::has_prefix(text::trim_start(line), "> [!"@)
}

/// An ordinary line keeps its text; only its links and images are made absolute.
pub proof fn law_ordinary_line_keeps_its_text(
    line: Seq<char>,
    media_base: Seq<char>,
    unit_url: Seq<char>,
)
    requires
        is_ordinary(line),
        holds_no_block(line.push('\n')),
    ensures
        preprocessed(line.push('\n'), media_base, unit_url) == links_rewritten(line, media_base)
            + "\n"@,
{
    lemma_no_block(line.push('\n'), media_base, unit_url);
    text::law_one_line(line);
    let t = text::trim_start(line);
    reveal_strlit("> [!VIDEO ");
    reveal_strlit("> [!");
    if text::has_prefix(t, "> [!VIDEO "@) {
        assert(t.subrange(0, 4) =~= t.subrange(0, 10).take(4));
        assert("> [!VIDEO "@.take(4) =~= "> [!"@);
    }
    reveal_with_fuel(lines_preprocessed, 2);
    assert(lines_preprocessed(seq![line], media_base, unit_url, 1) =~= line_preprocessed(
        line,
        media_base,
        unit_url,
    ));
}

// ---------------------------------------------------------------------------
// Laws of what is kept
// ---------------------------------------------------------------------------

/// Escaping stray ampersands keeps every character and its place in the order: a stray ampersand
/// becomes its reference and every other character stays.
pub proof fn law_only_stray_amps_are_escaped(s: Seq<char>, n: nat)
    requires
        0 < n <= s.len(),
    ensures
        text::has_prefix(amps_escaped(s), amps_escaped_first(s, n)),
        s[n - 1] == '&' && !entity_at(s, n - 1) ==> amps_escaped_first(s, n) == amps_escaped_first(
            s,
            (n - 1) as nat,
        ) + "&amp;"@,
        s[n - 1] != '&' || entity_at(s, n - 1) ==> amps_escaped_first(s, n) == amps_escaped_first(
            s,
            (n - 1) as nat,
        ).push(s[n - 1]),
        amps_escaped_first(s, 0) == Seq::<char>::empty(),
{
    lemma_amps_begin(s, s.len(), n);
    let before = amps_escaped_first(s, (n - 1) as nat);
    assert(before + seq![s[n - 1]] =~= before.push(s[n - 1]));
}

proof fn lemma_amps_begin(s: Seq<char>, n: nat, i: nat)
    requires
        i <= n <= s.len(),
    ensures
        text::has_prefix(amps_escaped_first(s, n), amps_escaped_first(s, i)),
    decreases n,
{
    text::lemma_ends(amps_escaped_first(s, n), Seq::empty());
    if i < n {
        lemma_amps_begin(s, (n - 1) as nat, i);
        text::lemma_prefix_cat(
            amps_escaped_first(s, i),
            amps_escaped_first(s, (n - 1) as nat),
            if s[n - 1] == '&' && !entity_at(s, n - 1) {
                "&amp;"@
            } else {
                seq![s[n - 1]]
            },
        );
    }
}

proof fn lemma_void_shift(a: Seq<char>, b: Seq<char>, tag: Seq<char>, pos: int)
    requires
        0 <= pos <= b.len(),
    ensures
        void_closed_from(a + b, tag, a.len() + pos) == void_closed_from(b, tag, pos),
    decreases b.len() - pos,
{
    reveal_strlit("<");
    reveal_strlit(">");
    let s = a + b;
    let n = a.len() as int;
    let needle = "<"@ + tag;
    text::lemma_find_shift(a, b, needle, pos);
    text::lemma_find_from(b, needle, pos);
    match text::find_from(b, needle, pos) {
        Some(p) => {
            let after = p + needle.len();
            text::lemma_find_shift(a, b, ">"@, after);
            text::lemma_find_from(b, ">"@, after);
            assert(s.subrange(n + pos, n + p) =~= b.subrange(pos, p));
            if after < b.len() {
                assert(s[n + after] == b[after]);
            }
            if !(after < b.len() && ends_tag_name(b[after])) {
                lemma_void_shift(a, b, tag, after);
            } else {
                match text::find_from(b, ">"@, after) {
                    Some(gt) => {
                        assert(s.subrange(n + after, n + gt) =~= b.subrange(after, gt));
                        lemma_void_shift(a, b, tag, gt + 1);
                    },
                    None => {
                        assert(s.skip(n + pos) =~= b.skip(pos));
                    },
                }
            }
        },
        None => {
            assert(s.skip(n + pos) =~= b.skip(pos));
        },
    }
}

/// Closing a void element keeps everything around it: what stands before the first one stays, the
/// element is closed with its attributes, and what stands behind it is treated in the same way.
pub proof fn law_text_around_void_tags_is_kept(
    a: Seq<char>,
    tag: Seq<char>,
    inner: Seq<char>,
    b: Seq<char>,
)
    requires
        is_tag_name(tag),
        !text::contains_text(a, "<"@ + tag),
        !inner.contains('>'),
        inner.len() > 0 ==> ends_tag_name(inner[0]),
    ensures
        void_closed_from(a, tag, 0) == a,
        void_closed_from(a + "<"@ + tag + inner + ">"@ + b, tag, 0) == a + ("<"@ + tag + (
        if tag_inner(inner).len() > 0 {
            " "@ + tag_inner(inner)
        } else {
            Seq::empty()
        }) + "/>"@) + void_closed_from(b, tag, 0),
{
    reveal_strlit("<");
    reveal_strlit(">");
    let needle = "<"@ + tag;
    lemma_needle(tag);
    assert(text::starts_once(needle)) by {
        assert forall|i: int| 0 < i < needle.len() implies #[trigger] needle[i] != needle[0] by {
            assert(text::is_alnum(needle[i]));
        }
    }
    text::lemma_find_none(a, needle, 0);
    assert(a.skip(0) =~= a);
    let s = a + "<"@ + tag + inner + ">"@ + b;
    let n = a.len() as int;
    let rest = needle + (inner + ">"@ + b);
    assert(s =~= a + rest);
    assert forall|i: int| 0 <= i < n implies !text::occurs_at(s, needle, i) by {
        text::lemma_no_straddle(a, rest, needle, i);
    }
    assert(s.subrange(n, n + needle.len()) =~= needle);
    text::lemma_find_first(s, needle, 0, n);
    let after = n + needle.len();
    let gt = after + inner.len();
    assert(s[gt] == '>');
    assert(s[after] == (inner + ">"@)[0]);
    assert(s.subrange(gt, gt + 1) =~= ">"@);
    assert forall|i: int| after <= i < gt implies !text::occurs_at(s, ">"@, i) by {
        assert(s[i] == inner[i - after]);
        assert(inner.contains(inner[i - after]));
        if text::occurs_at(s, ">"@, i) {
            assert(s.subrange(i, i + 1)[0] == s[i]);
        }
    }
    text::lemma_find_first(s, ">"@, after, gt);
    assert(s.subrange(after, gt) =~= inner);
    assert(s.subrange(0, n) =~= a);
    let front = a + "<"@ + tag + inner + ">"@;
    assert(s =~= front + b);
    lemma_void_shift(front, b, tag, 0);
}

proof fn lemma_inline_shift(a: Seq<char>, b: Seq<char>, pos: int)
    requires
        0 <= pos <= b.len(),
        text::has_suffix(a, "<code>"@),
    ensures
        inline_code_from(a + b, a.len() + pos) == inline_code_from(b, pos),
    decreases b.len() - pos,
{
    reveal_strlit("<code>");
    reveal_strlit("<pre>");
    let s = a + b;
    let n = a.len() as int;
    text::lemma_find_shift(a, b, "<code>"@, pos);
    text::lemma_find_from(b, "<code>"@, pos);
    match text::find_from(b, "<code>"@, pos) {
        Some(i) => {
            assert(s.subrange(n + pos, n + i) =~= b.subrange(pos, i));
            if i >= 5 {
                text::lemma_occurs_behind(a, b, "<pre>"@, i - 5);
            } else {
                if text::occurs_at(s, "<pre>"@, n + i - 5) {
                    assert(s.subrange(n + i - 5, n + i)[0] == s[n + i - 5]);
                    assert(a.subrange(n - 6, n)[i + 1] == a[n + i - 5]);
                }
            }
            lemma_inline_shift(a, b, i + 6);
        },
        None => {
            assert(s.skip(n + pos) =~= b.skip(pos));
        },
    }
}

/// Marking inline code keeps everything else: what stands before the first code stays, code in a
/// block stays as it is, other code gets its mark, and what stands behind is treated in the same
/// way.
pub proof fn law_text_around_code_is_kept(a: Seq<char>, b: Seq<char>)
    requires
        !text::contains_text(a, "<code>"@),
    ensures
        inline_code_from(a, 0) == a,
        text::has_suffix(a, "<pre>"@) ==> inline_code_from(a + "<code>"@ + b, 0) == a + "<code>"@
            + inline_code_from(b, 0),
        !text::has_suffix(a, "<pre>"@) ==> inline_code_from(a + "<code>"@ + b, 0) == a
            + "<code class=\"ic\">"@ + inline_code_from(b, 0),
{
    reveal_strlit("<code>");
    reveal_strlit("<pre>");
    let c = "<code>"@;
    text::lemma_find_none(a, c, 0);
    assert(a.skip(0) =~= a);
    let s = a + c + b;
    let n = a.len() as int;
    assert(s =~= a + (c + b));
    assert(text::starts_once(c));
    assert forall|i: int| 0 <= i < n implies !text::occurs_at(s, c, i) by {
        text::lemma_no_straddle(a, c + b, c, i);
    }
    assert(s.subrange(n, n + 6) =~= c);
    text::lemma_find_first(s, c, 0, n);
    assert(s.subrange(0, n) =~= a);
    if n >= 5 {
        text::lemma_occurs_before(a, c + b, "<pre>"@, n - 5);
    }
    let front = a + c;
    text::lemma_ends(a, c);
    lemma_inline_shift(front, b, 0);
}

proof fn lemma_languages_shift(a: Seq<char>, b: Seq<char>, pos: int)
    requires
        0 <= pos <= b.len(),
    ensures
        languages_stripped_from(a + b, a.len() + pos) == languages_stripped_from(b, pos),
    decreases b.len() - pos,
{
    reveal_strlit(" class=\"language-");
    reveal_strlit("\"");
    let s = a + b;
    let n = a.len() as int;
    let needle = " class=\"language-"@;
    text::lemma_find_shift(a, b, needle, pos);
    text::lemma_find_from(b, needle, pos);
    match text::find_from(b, needle, pos) {
        Some(i) => {
            let value = i + needle.len();
            text::lemma_find_shift(a, b, "\""@, value);
            text::lemma_find_from(b, "\""@, value);
            assert(s.subrange(n + pos, n + i) =~= b.subrange(pos, i));
            match text::find_from(b, "\""@, value) {
                Some(q) => {
                    lemma_languages_shift(a, b, q + 1);
                },
                None => {
                    assert(s.skip(n + value) =~= b.skip(value));
                },
            }
        },
        None => {
            assert(s.skip(n + pos) =~= b.skip(pos));
        },
    }
}

/// Stripping the language of a code block takes that attribute and nothing else: what stands
/// before it stays, and what stands behind it is treated in the same way.
pub proof fn law_only_languages_are_stripped(a: Seq<char>, language: Seq<char>, b: Seq<char>)
    requires
        !text::contains_text(a, " class=\"language-"@),
        !language.contains('"'),
    ensures
        languages_stripped_from(a, 0) == a,
        languages_stripped_from(a + " class=\"language-"@ + language + "\""@ + b, 0) == a
            + languages_stripped_from(b, 0),
{
    reveal_strlit(" class=\"language-");
    reveal_strlit("\"");
    let needle = " class=\"language-"@;
    text::lemma_find_none(a, needle, 0);
    assert(a.skip(0) =~= a);
    let s = a + needle + language + "\""@ + b;
    let n = a.len() as int;
    let rest = needle + (language + "\""@ + b);
    assert(s =~= a + rest);
    assert(text::starts_once(needle));
    assert forall|i: int| 0 <= i < n implies !text::occurs_at(s, needle, i) by {
        text::lemma_no_straddle(a, rest, needle, i);
    }
    assert(s.subrange(n, n + needle.len()) =~= needle);
    text::lemma_find_first(s, needle, 0, n);
    let value = n + needle.len();
    let q = value + language.len();
    assert(s.subrange(q, q + 1) =~= "\""@);
    assert forall|i: int| value <= i < q implies !text::occurs_at(s, "\""@, i) by {
        assert(s[i] == language[i - value]);
        assert(language.contains(language[i - value]));
        if text::occurs_at(s, "\""@, i) {
            assert(s.subrange(i, i + 1)[0] == s[i]);
        }
    }
    text::lemma_find_first(s, "\""@, value, q);
    assert(s.subrange(0, n) =~= a);
    let front = a + needle + language + "\""@;
    assert(s =~= front + b);
    lemma_languages_shift(front, b, 0);
}

/// A zone marker leaves nothing, wherever it leads.
pub proof fn law_zone_markers_vanish(
    rest: Seq<char>,
    media_base: Seq<char>,
    unit_url: Seq<char>,
)
    ensures
        line_preprocessed(":::"@ + rest, media_base, unit_url) == Seq::<char>::empty(),
{
    reveal_strlit(":::");
    let l = ":::"@ + rest;
    assert(l[0] == ':');
    assert(l.subrange(0, 3) =~= ":::"@);
}

/// A line that refers to a video becomes a link to it.
pub proof fn law_a_video_line_is_a_link(
    url: Seq<char>,
    media_base: Seq<char>,
    unit_url: Seq<char>,
)
    ensures
        line_preprocessed("> [!VIDEO "@ + url + "]"@, media_base, unit_url) == video_link_text(
            url,
            unit_url,
        ),
{
    reveal_strlit(":::");
    reveal_strlit("> [!VIDEO ");
    reveal_strlit("]");
    let l = "> [!VIDEO "@ + url + "]"@;
    assert(l[0] == '>');
    lemma_prefix_begins(l, ":::"@);
    assert(l.subrange(0, 10) =~= "> [!VIDEO "@);
    let r = l.skip(10);
    assert(r =~= url + "]"@);
    text::lemma_ends(url, "]"@);
    assert(r.take(r.len() - 1) =~= url);
}

/// An alert keeps what it says behind a bold label in place of its marker.
pub proof fn law_an_alert_keeps_its_text(
    kind: Seq<char>,
    after: Seq<char>,
    media_base: Seq<char>,
    unit_url: Seq<char>,
)
    requires
        !kind.contains(']'),
        !text::has_prefix(kind, "VIDEO "@),
        text::trim(after) == after,
        after.len() > 0,
    ensures
        line_preprocessed("> [!"@ + kind + "]"@ + after, media_base, unit_url) == "> **"@
            + title_cased(kind) + "**"@ + (" "@ + after) + "\n"@,
        line_preprocessed("> [!"@ + kind + "]"@, media_base, unit_url) == "> **"@ + title_cased(
            kind,
        ) + "**"@ + Seq::<char>::empty() + "\n"@,
{
    lemma_alert(kind, after);
    lemma_alert(kind, Seq::empty());
    let l = "> [!"@ + kind + "]"@;
    assert(l + Seq::<char>::empty() =~= l);
    assert(text::trim(Seq::<char>::empty()) =~= Seq::<char>::empty());
}

proof fn lemma_alert(kind: Seq<char>, after: Seq<char>)
    requires
        !kind.contains(']'),
        !text::has_prefix(kind, "VIDEO "@),
        after.len() == 0 || text::trim(after) == after,
    ensures
        ({
            let l = "> [!"@ + kind + "]"@ + after;
            &&& text::trim_start(l) == l
            &&& !text::has_prefix(l, ":::"@)
            &&& video_of(l) is None
            &&& alert_of(l) == Some((kind, text::trim(after)))
        }),
{
    let l = "> [!"@ + kind + "]"@ + after;
    lemma_alert_start(kind, after);
    lemma_no_video(kind, after);
    reveal_strlit("]");
    assert("> [!"@.len() == 4) by {
        reveal_strlit("> [!");
    }
    let r = l.skip(4);
    let n = kind.len() as int;
    assert(r =~= kind + ("]"@ + after));
    assert(r.subrange(n, n + 1) =~= "]"@);
    assert forall|i: int| 0 <= i < n implies !text::occurs_at(r, "]"@, i) by {
        assert(r[i] == kind[i]);
        assert(kind.contains(kind[i]));
        if text::occurs_at(r, "]"@, i) {
            assert(r.subrange(i, i + 1)[0] == r[i]);
        }
    }
    text::lemma_find_first(r, "]"@, 0, n);
    assert(r.take(n) =~= kind);
    assert(r.skip(n + 1) =~= after);
}

proof fn lemma_alert_start(kind: Seq<char>, after: Seq<char>)
    ensures
        ({
            let l = "> [!"@ + kind + "]"@ + after;
            &&& text::trim_start(l) == l
            &&& !text::has_prefix(l, ":::"@)
            &&& text::has_prefix(l, "> [!"@)
        }),
{
    reveal_strlit(":::");
    reveal_strlit("> [!");
    let l = "> [!"@ + kind + "]"@ + after;
    assert(l[0] == '>');
    lemma_prefix_begins(l, ":::"@);
    assert(l.subrange(0, 4) =~= "> [!"@);
}

proof fn lemma_no_video(kind: Seq<char>, after: Seq<char>)
    requires
        !text::has_prefix(kind, "VIDEO "@),
    ensures
        !text::has_prefix("> [!"@ + kind + "]"@ + after, "> [!VIDEO "@),
{
    reveal_strlit("> [!VIDEO ");
    reveal_strlit("VIDEO ");
    reveal_strlit("> [!");
    reveal_strlit("]");
    let l = "> [!"@ + kind + "]"@ + after;
    let n = kind.len() as int;
    if text::has_prefix(l, "> [!VIDEO "@) {
        let w = l.subrange(0, 10);
        if n >= 6 {
            assert(kind.subrange(0, 6) =~= w.skip(4));
            assert("> [!VIDEO "@.skip(4) =~= "VIDEO "@);
        } else {
            assert(l[4 + n] == ']');
            assert(w[4 + n] == ']');
        }
    }
}

} // verus!
