//! The images of a book: which ones its chapters show, and how those that were fetched are
//! embedded.
//!
//! An SVG is embedded as a PNG, because an SVG is unreliable across EPUB readers. An image that
//! could not be fetched keeps its URL.

use crate::catalog;
use crate::epub;
use crate::epub::Chapter;
use crate::epub::ChapterView;
use crate::epub::Resource;
use crate::epub::ResourceView;
use crate::archive;
use crate::text;
use vstd::prelude::*;
use vstd::slice::slice_subrange;
use vstd::string::*;

verus! {

broadcast use vstd::seq_lib::group_seq_properties;

// ---------------------------------------------------------------------------
// Kinds of image
// ---------------------------------------------------------------------------

/// A URL without query and fragment.
pub open spec fn bare_url(url: Seq<char>) -> Seq<char> {
    text::before(text::before(url, '?'), '#')
}

/// A URL names an SVG.
pub open spec fn is_svg(url: Seq<char>) -> bool {
    text::has_suffix(text::lowered(bare_url(url)), ".svg"@)
}

/// The file name extension of a URL in lower case, or `png` where it does not look like one.
pub open spec fn extension(url: Seq<char>) -> Seq<char> {
    let e = text::after_last(bare_url(url), '.');
    text::lowered(
        if e.len() <= 5 && text::all_alnum(e) {
            e
        } else {
            "png"@
        },
    )
}

/// The media type of an extension.
pub open spec fn media_type(ext: Seq<char>) -> Seq<char> {
    if ext == "jpg"@ || ext == "jpeg"@ {
        "image/jpeg"@
    } else if ext == "gif"@ {
        "image/gif"@
    } else if ext == "svg"@ {
        "image/svg+xml"@
    } else if ext == "webp"@ {
        "image/webp"@
    } else {
        "image/png"@
    }
}

/// Whether a URL names an SVG.
pub fn is_svg_url(url: &str) -> (r: bool)
    ensures
        r == is_svg(url@),
{
    let cs = text::chars_of(url);
    let path = text::before_char(text::before_char(cs.as_slice(), '?'), '#');
    let lower = text::lowercase(text::text_of(path).as_str());
    text::ends_with(text::chars_of(lower.as_str()).as_slice(), ".svg")
}

/// The file name extension of a URL.
pub fn ext_from_url(url: &str) -> (r: String)
    ensures
        r@ == extension(url@),
{
    let cs = text::chars_of(url);
    let path = text::before_char(text::before_char(cs.as_slice(), '?'), '#');
    let e = text::after_last_char(path, '.');
    if e.len() <= 5 && text::only_alnum(e) {
        text::lowercase(text::text_of(e).as_str())
    } else {
        text::lowercase("png")
    }
}

/// The media type of an extension.
pub fn media_type_for(ext: &str) -> (r: String)
    ensures
        r@ == media_type(ext@),
{
    if text::same_text(ext, "jpg") || text::same_text(ext, "jpeg") {
        "image/jpeg".to_owned()
    } else if text::same_text(ext, "gif") {
        "image/gif".to_owned()
    } else if text::same_text(ext, "svg") {
        "image/svg+xml".to_owned()
    } else if text::same_text(ext, "webp") {
        "image/webp".to_owned()
    } else {
        "image/png".to_owned()
    }
}

// ---------------------------------------------------------------------------
// Collecting
// ---------------------------------------------------------------------------

/// The sources of the images in `html` from `pos` on.
pub open spec fn img_srcs_from(html: Seq<char>, pos: int) -> Seq<Seq<char>>
    decreases html.len() - pos,
{
    if pos < 0 || pos > html.len() {
        Seq::empty()
    } else {
        proof {
            reveal_strlit("<img");
            reveal_strlit("src=\"");
            text::lemma_find_from(html, "<img"@, pos);
        }
        match text::find_from(html, "<img"@, pos) {
            Some(i) => {
                let after = i + "<img"@.len();
                proof {
                    text::lemma_find_from(html, "src=\""@, after);
                }
                match text::find_from(html, "src=\""@, after) {
                    Some(s) => {
                        let start = s + "src=\""@.len();
                        proof {
                            text::lemma_find_from(html, "\""@, start);
                        }
                        match text::find_from(html, "\""@, start) {
                            Some(e) => seq![html.subrange(start, e)] + img_srcs_from(html, e),
                            None => img_srcs_from(html, after),
                        }
                    },
                    None => img_srcs_from(html, after),
                }
            },
            None => Seq::empty(),
        }
    }
}

/// The sources of the images in an XHTML fragment, in order.
pub fn extract_img_srcs(html: &str) -> (r: Vec<String>)
    ensures
        r.deep_view() == img_srcs_from(html@, 0),
{
    let s = text::chars_of(html);
    let total: usize = s.len();
    let mut out: Vec<String> = Vec::new();
    let mut pos: usize = 0;
    proof {
        reveal_strlit("<img");
        reveal_strlit("src=\"");
    }
    assert(out.deep_view() + img_srcs_from(s@, 0) =~= img_srcs_from(s@, 0));
    loop
        invariant
            s@ == html@,
            total == s@.len(),
            pos <= total,
            "<img"@.len() == 4,
            "src=\""@.len() == 5,
            out.deep_view() + img_srcs_from(s@, pos as int) == img_srcs_from(s@, 0),
        decreases total - pos,
    {
        match text::find_str(s.as_slice(), "<img", pos) {
            Some(i) => {
                let after: usize = i + 4;
                let mut next: usize = after;
                if let Some(p) = text::find_str(s.as_slice(), "src=\"", after) {
                    let start: usize = p + 5;
                    if let Some(e) = text::find_str(s.as_slice(), "\"", start) {
                        let ghost before = out.deep_view();
                        let src = text::text_of(slice_subrange(s.as_slice(), start, e));
                        text::push_item(&mut out, src);
                        assert(out.deep_view() + img_srcs_from(s@, e as int) =~= before + (
                        seq![src@] + img_srcs_from(s@, e as int)));
                        next = e;
                    }
                }
                pos = next;
            },
            None => {
                assert(out.deep_view() =~= img_srcs_from(s@, 0));
                return out;
            },
        }
    }
}

/// The sources of the images in the first `n` chapters.
pub open spec fn chapter_srcs(chapters: Seq<ChapterView>, n: nat) -> Seq<Seq<char>>
    decreases n,
{
    if n == 0 {
        Seq::empty()
    } else {
        chapter_srcs(chapters, (n - 1) as nat) + img_srcs_from(chapters[n - 1].body, 0)
    }
}

/// The remote ones among the first `n` sources.
pub open spec fn remote_first(srcs: Seq<Seq<char>>, n: nat) -> Seq<Seq<char>>
    decreases n,
{
    if n == 0 {
        Seq::empty()
    } else {
        let before = remote_first(srcs, (n - 1) as nat);
        if text::has_prefix(srcs[n - 1], "http"@) {
            before.push(srcs[n - 1])
        } else {
            before
        }
    }
}

/// The URLs of the remote images that the chapters show: each once, in first-seen order.
pub open spec fn image_urls(chapters: Seq<ChapterView>) -> Seq<Seq<char>> {
    let srcs = chapter_srcs(chapters, chapters.len());
    catalog::deduped(remote_first(srcs, srcs.len()))
}

/// The URLs of the remote images that the chapters show.
pub fn remote_images(chapters: &Vec<Chapter>) -> (r: Vec<String>)
    ensures
        r.deep_view() == image_urls(chapters.deep_view()),
{
    let ghost all = chapters.deep_view();
    let n: usize = chapters.len();
    let mut srcs: Vec<String> = Vec::new();
    assert(srcs.deep_view() =~= Seq::<Seq<char>>::empty());
    for i in 0..n
        invariant
            n == chapters@.len(),
            all == chapters.deep_view(),
            srcs.deep_view() == chapter_srcs(all, i as nat),
    {
        assert(all[i as int] == chapters@[i as int].deep_view());
        let ghost before = srcs.deep_view();
        let mut found = extract_img_srcs(chapters[i].body.as_str());
        let ghost f = found.deep_view();
        srcs.append(&mut found);
        assert(srcs.deep_view() =~= before + f);
    }
    let ghost every = srcs.deep_view();
    let k: usize = srcs.len();
    let mut remote: Vec<String> = Vec::new();
    for i in 0..k
        invariant
            k == srcs@.len(),
            every == srcs.deep_view(),
            remote.deep_view() =~= remote_first(every, i as nat),
    {
        assert(every[i as int] == srcs@[i as int]@);
        if text::starts_with(text::chars_of(srcs[i].as_str()).as_slice(), "http") {
            text::push_item(&mut remote, srcs[i].clone());
        }
    }
    catalog::dedup_ordered(&remote)
}

// ---------------------------------------------------------------------------
// Embedding
// ---------------------------------------------------------------------------

/// The extension under which an image is stored.
pub open spec fn stored_extension(url: Seq<char>) -> Seq<char> {
    if is_svg(url) {
        "png"@
    } else {
        extension(url)
    }
}

/// The file of the `number`th embedded image.
pub open spec fn image_file(url: Seq<char>, number: nat) -> Seq<char> {
    "media/img"@ + text::zero_padded(text::decimal(number), 4) + "."@ + stored_extension(url)
}

/// How many of the first `n` images were fetched.
pub open spec fn fetched_in(images: Seq<Option<Seq<u8>>>, n: nat) -> nat
    decreases n,
{
    if n == 0 {
        0
    } else {
        fetched_in(images, (n - 1) as nat) + (if images[n - 1] is Some {
            1nat
        } else {
            0
        })
    }
}

/// The embedded ones among the first `n` images.
pub open spec fn embedded_first(
    urls: Seq<Seq<char>>,
    images: Seq<Option<Seq<u8>>>,
    n: nat,
) -> Seq<ResourceView>
    decreases n,
{
    if n == 0 {
        Seq::empty()
    } else {
        let before = embedded_first(urls, images, (n - 1) as nat);
        match images[n - 1] {
            Some(data) => before.push(
                ResourceView {
                    filename: image_file(urls[n - 1], fetched_in(images, n)),
                    media_type: media_type(stored_extension(urls[n - 1])),
                    data,
                },
            ),
            None => before,
        }
    }
}

/// What a source attribute looks like.
pub open spec fn src_text(target: Seq<char>) -> Seq<char> {
    "src=\""@ + target + "\""@
}

/// A chapter's body once the fetched ones among the first `n` images are shown from their files.
pub open spec fn localised(
    body: Seq<char>,
    urls: Seq<Seq<char>>,
    images: Seq<Option<Seq<u8>>>,
    n: nat,
) -> Seq<char>
    decreases n,
{
    if n == 0 {
        body
    } else {
        let before = localised(body, urls, images, (n - 1) as nat);
        if images[n - 1] is Some {
            text::replaced(
                before,
                src_text(urls[n - 1]),
                src_text(image_file(urls[n - 1], fetched_in(images, n))),
            )
        } else {
            before
        }
    }
}

/// A chapter that shows the fetched images from their files.
pub open spec fn localised_chapter(
    c: ChapterView,
    urls: Seq<Seq<char>>,
    images: Seq<Option<Seq<u8>>>,
) -> ChapterView {
    ChapterView { body: localised(c.body, urls, images, urls.len()), ..c }
}

fn src_attribute(target: &str) -> (r: String)
    ensures
        r@ == src_text(target@),
        r@.len() > 0,
{
    proof {
        reveal_strlit("src=\"");
    }
    let mut s = "src=\"".to_owned();
    s.append(target);
    s.append("\"");
    s
}

fn localise(body: &str, urls: &Vec<String>, files: &Vec<Option<String>>) -> (r: String)
    requires
        files@.len() == urls@.len(),
    ensures
        forall|images: Seq<Option<Seq<u8>>>| #[trigger]
            names_of_files(urls.deep_view(), files.deep_view(), images) ==> r@ == localised(
                body@,
                urls.deep_view(),
                images,
                urls@.len(),
            ),
{
    let ghost all = urls.deep_view();
    let ghost names = files.deep_view();
    let n: usize = urls.len();
    let mut s = body.to_owned();
    for i in 0..n
        invariant
            n == urls@.len(),
            n == files@.len(),
            all == urls.deep_view(),
            names == files.deep_view(),
            forall|images: Seq<Option<Seq<u8>>>| #[trigger]
                names_of_files(all, names, images) ==> s@ == localised(
                    body@,
                    all,
                    images,
                    i as nat,
                ),
    {
        assert(all[i as int] == urls@[i as int]@);
        assert(names[i as int] == files@[i as int].deep_view());
        if let Some(file) = &files[i] {
            let from = src_attribute(urls[i].as_str());
            let to = src_attribute(file.as_str());
            s = text::replace_all(text::chars_of(s.as_str()).as_slice(), from.as_str(), to.as_str());
        }
    }
    s
}

/// The files are those under which the images are embedded.
pub open spec fn names_of_files(
    urls: Seq<Seq<char>>,
    files: Seq<Option<Seq<char>>>,
    images: Seq<Option<Seq<u8>>>,
) -> bool {
    &&& files.len() == urls.len()
    &&& images.len() == urls.len()
    &&& forall|i: int|
        0 <= i < files.len() ==> #[trigger] files[i] == (if images[i] is Some {
            Some(image_file(urls[i], fetched_in(images, (i + 1) as nat)))
        } else {
            None
        })
}

fn file_of_image(url: &str, number: u64) -> (r: String)
    ensures
        r@ == image_file(url@, number as nat),
{
    let mut s = "media/img".to_owned();
    s.append(text::padded_decimal(number, 4).as_str());
    s.append(".");
    s.append(extension_stored(url).as_str());
    s
}

fn extension_stored(url: &str) -> (r: String)
    ensures
        r@ == stored_extension(url@),
{
    if is_svg_url(url) {
        "png".to_owned()
    } else {
        ext_from_url(url)
    }
}

/// Embeds the fetched images: `images` holds what was fetched of each of `urls`, an SVG already
/// as a PNG. The chapters then show the images from their files; one that was not fetched keeps
/// its URL.
pub fn embed_images(
    chapters: Vec<Chapter>,
    urls: &Vec<String>,
    images: Vec<Option<Vec<u8>>>,
) -> (r: (Vec<Chapter>, Vec<Resource>))
    requires
        images@.len() == urls@.len(),
    ensures
        r.0.deep_view() == chapters.deep_view().map_values(
            |c: ChapterView| localised_chapter(c, urls.deep_view(), images.deep_view()),
        ),
        r.1.deep_view() == embedded_first(urls.deep_view(), images.deep_view(), urls@.len()),
{
    let ghost all = urls.deep_view();
    let ghost data = images.deep_view();
    let n: usize = urls.len();
    let mut rest = images;
    let mut files: Vec<Option<String>> = Vec::new();
    let mut resources: Vec<Resource> = Vec::new();
    let mut count: usize = 0;
    for i in 0..n
        invariant
            n == urls@.len(),
            n == rest@.len(),
            all == urls.deep_view(),
            data.len() == n,
            forall|j: int| i <= j < n ==> (#[trigger] rest@[j]).deep_view() == data[j],
            count == fetched_in(data, i as nat),
            count <= i,
            files@.len() == i,
            forall|j: int|
                0 <= j < i ==> (#[trigger] files@[j]).deep_view() == (if data[j] is Some {
                    Some(image_file(all[j], fetched_in(data, (j + 1) as nat)))
                } else {
                    None
                }),
            resources.deep_view() =~= embedded_first(all, data, i as nat),
    {
        assert(all[i as int] == urls@[i as int]@);
        assert(rest@[i as int].deep_view() == data[i as int]);
        match rest[i].take() {
            Some(bytes) => {
                assert(bytes.deep_view() =~= bytes@);
                count = count + 1;
                let filename = file_of_image(urls[i].as_str(), count as u64);
                files.push(Some(filename.clone()));
                text::push_item(
                    &mut resources,
                    Resource {
                        filename,
                        media_type: media_type_for(extension_stored(urls[i].as_str()).as_str()),
                        data: bytes,
                    },
                );
            },
            None => {
                files.push(None);
            },
        }
    }
    assert(names_of_files(all, files.deep_view(), data)) by {
        assert forall|i: int| 0 <= i < files.deep_view().len() implies #[trigger] files.deep_view()[i]
            == (if data[i] is Some {
            Some(image_file(all[i], fetched_in(data, (i + 1) as nat)))
        } else {
            None
        }) by {
            assert(files@[i].deep_view() == files.deep_view()[i]);
        }
    }
    let ghost cs = chapters.deep_view();
    let ghost want = cs.map_values(|c: ChapterView| localised_chapter(c, all, data));
    let k: usize = chapters.len();
    let mut out: Vec<Chapter> = Vec::new();
    for i in 0..k
        invariant
            k == chapters@.len(),
            cs == chapters.deep_view(),
            all == urls.deep_view(),
            files@.len() == urls@.len(),
            names_of_files(all, files.deep_view(), data),
            want == cs.map_values(|c: ChapterView| localised_chapter(c, all, data)),
            out.deep_view() =~= want.take(i as int),
    {
        let c = &chapters[i];
        assert(cs[i as int] == c.deep_view());
        text::push_item(
            &mut out,
            Chapter {
                id: c.id.clone(),
                filename: c.filename.clone(),
                title: c.title.clone(),
                body: localise(c.body.as_str(), urls, &files),
                module_header: text::copy_opt_text(&c.module_header),
            },
        );
    }
    (out, resources)
}

// ---------------------------------------------------------------------------
// Laws
// ---------------------------------------------------------------------------

/// Where nothing could be fetched, every chapter stays as it is and nothing is embedded.
pub proof fn law_nothing_fetched(
    c: ChapterView,
    urls: Seq<Seq<char>>,
    images: Seq<Option<Seq<u8>>>,
    n: nat,
)
    requires
        n <= images.len(),
        forall|i: int| 0 <= i < images.len() ==> #[trigger] images[i] is None,
    ensures
        localised(c.body, urls, images, n) == c.body,
        embedded_first(urls, images, n) == Seq::<ResourceView>::empty(),
    decreases n,
{
    if n > 0 {
        law_nothing_fetched(c, urls, images, (n - 1) as nat);
        assert(images[n - 1] is None);
    }
}

/// As many images are embedded as were fetched, and the `k`th embedded file is that of the `k`th
/// fetched image.
pub proof fn law_embedded_are_the_fetched(
    urls: Seq<Seq<char>>,
    images: Seq<Option<Seq<u8>>>,
    n: nat,
)
    requires
        n <= images.len(),
        images.len() == urls.len(),
    ensures
        embedded_first(urls, images, n).len() == fetched_in(images, n),
        fetched_in(images, n) <= n,
        forall|i: int|
            0 <= i < n && #[trigger] images[i] is Some ==> {
                let r = embedded_first(urls, images, n)[fetched_in(images, (i + 1) as nat) - 1];
                &&& 1 <= fetched_in(images, (i + 1) as nat) <= fetched_in(images, n)
                &&& r.data == images[i]->Some_0
                &&& r.filename == image_file(urls[i], fetched_in(images, (i + 1) as nat))
            },
    decreases n,
{
    if n > 0 {
        law_embedded_are_the_fetched(urls, images, (n - 1) as nat);
        assert forall|i: int| 0 <= i < n && #[trigger] images[i] is Some implies {
            let r = embedded_first(urls, images, n)[fetched_in(images, (i + 1) as nat) - 1];
            &&& 1 <= fetched_in(images, (i + 1) as nat) <= fetched_in(images, n)
            &&& r.data == images[i]->Some_0
            &&& r.filename == image_file(urls[i], fetched_in(images, (i + 1) as nat))
        } by {
            if i < n - 1 {
                assert(images[i] is Some);
            }
        }
    }
}

proof fn lemma_stored_extension(url: Seq<char>)
    ensures
        text::all_ascii(stored_extension(url)),
        text::all_alnum(stored_extension(url)),
        stored_extension(url).len() <= 5,
{
    reveal_strlit("png");
    let e = text::after_last(bare_url(url), '.');
    let kept = if e.len() <= 5 && text::all_alnum(e) {
        e
    } else {
        "png"@
    };
    assert(text::all_alnum("png"@));
    assert forall|i: int| 0 <= i < kept.len() implies (#[trigger] kept[i]) as nat <= 127 by {
        assert(text::is_alnum(kept[i]));
    }
    assert(text::all_ascii(kept));
    let low = text::ascii_lower(kept);
    assert forall|i: int| 0 <= i < low.len() implies (#[trigger] low[i]) as nat <= 127
        && text::is_alnum(low[i]) by {
        assert(text::is_alnum(kept[i]));
    }
}

/// The name of an embedded image is short ASCII, and the digits before its dot stand for its
/// number.
pub proof fn lemma_image_file(url: Seq<char>, number: nat)
    requires
        number <= u64::MAX,
    ensures
        text::all_ascii(image_file(url, number)),
        image_file(url, number).len() <= 40,
{
    lemma_stored_extension(url);
    text::lemma_padded(number, 4);
    reveal_strlit("media/img");
    reveal_strlit(".");
    let d = text::zero_padded(text::decimal(number), 4);
    let f = image_file(url, number);
    assert forall|i: int| 0 <= i < f.len() implies (#[trigger] f[i]) as nat <= 127 by {
        if i < 9 {
            assert(f[i] == "media/img"@[i]);
        } else if i < 9 + d.len() {
            assert(f[i] == d[i - 9]);
            assert(text::is_digit(d[i - 9]));
        } else if i == 9 + d.len() {
            assert(f[i] == '.');
        } else {
            assert(f[i] == stored_extension(url)[i - 10 - d.len()]);
        }
    }
}

/// No two embedded images share a file.
pub proof fn law_image_files_differ(
    url_a: Seq<char>,
    a: nat,
    url_b: Seq<char>,
    b: nat,
)
    requires
        a != b,
    ensures
        image_file(url_a, a) != image_file(url_b, b),
{
    text::lemma_padded(a, 4);
    text::lemma_padded(b, 4);
    reveal_strlit("media/img");
    reveal_strlit(".");
    let da = text::zero_padded(text::decimal(a), 4);
    let db = text::zero_padded(text::decimal(b), 4);
    let fa = image_file(url_a, a);
    let fb = image_file(url_b, b);
    assert(fa[9int + da.len()] == '.');
    assert(fb[9int + db.len()] == '.');
    if fa == fb {
        if da.len() < db.len() {
            assert(fb[9int + da.len()] == db[da.len() as int]);
            assert(text::is_digit(db[da.len() as int]));
        } else if db.len() < da.len() {
            assert(fa[9int + db.len()] == da[db.len() as int]);
            assert(text::is_digit(da[db.len() as int]));
        } else {
            assert forall|i: int| 0 <= i < da.len() implies da[i] == db[i] by {
                assert(fa[9 + i] == da[i]);
                assert(fb[9 + i] == db[i]);
            }
            assert(da =~= db);
        }
    }
}

/// The names of embedded images fit an archive.
pub proof fn lemma_embedded_names_fit(
    urls: Seq<Seq<char>>,
    images: Seq<Option<Seq<u8>>>,
    n: nat,
)
    requires
        n <= images.len(),
        images.len() <= u64::MAX,
    ensures
        fetched_in(images, n) <= n,
        forall|i: int|
            0 <= i < embedded_first(urls, images, n).len() ==> archive::name_fits(
                epub::oebps_name(#[trigger] embedded_first(urls, images, n)[i].filename),
            ),
    decreases n,
{
    if n > 0 {
        lemma_embedded_names_fit(urls, images, (n - 1) as nat);
        if images[n - 1] is Some {
            let f = image_file(urls[n - 1], fetched_in(images, n));
            lemma_image_file(urls[n - 1], fetched_in(images, n));
            reveal_strlit("OEBPS/");
            let name = epub::oebps_name(f);
            assert forall|i: int| 0 <= i < name.len() implies (#[trigger] name[i]) as nat <= 127 by {
                if i < 6 {
                    assert(name[i] == "OEBPS/"@[i]);
                } else {
                    assert(name[i] == f[i - 6]);
                }
            }
            epub::lemma_ascii_name_fits(name);
        }
        let before = embedded_first(urls, images, (n - 1) as nat);
        assert forall|i: int| 0 <= i < embedded_first(urls, images, n).len() implies archive::name_fits(
            epub::oebps_name(#[trigger] embedded_first(urls, images, n)[i].filename),
        ) by {
            if i < before.len() {
                assert(embedded_first(urls, images, n)[i].filename == before[i].filename);
            }
        }
    }
}

/// The file of some image with that number.
pub open spec fn is_image_file(f: Seq<char>, number: nat) -> bool {
    exists|u: Seq<char>| f == #[trigger] image_file(u, number)
}

/// The embedded files are numbered from one.
pub proof fn lemma_embedded_numbered(urls: Seq<Seq<char>>, images: Seq<Option<Seq<u8>>>, n: nat)
    requires
        n <= images.len(),
        images.len() == urls.len(),
    ensures
        forall|k: int|
            0 <= k < embedded_first(urls, images, n).len() ==> is_image_file(
                (#[trigger] embedded_first(urls, images, n)[k]).filename,
                (k + 1) as nat,
            ),
    decreases n,
{
    if n > 0 {
        let before = embedded_first(urls, images, (n - 1) as nat);
        let all = embedded_first(urls, images, n);
        lemma_embedded_numbered(urls, images, (n - 1) as nat);
        law_embedded_are_the_fetched(urls, images, (n - 1) as nat);
        assert forall|k: int| 0 <= k < all.len() implies is_image_file(
            (#[trigger] all[k]).filename,
            (k + 1) as nat,
        ) by {
            if k < before.len() {
                assert(all[k] == before[k]);
            } else {
                assert(all[k].filename == image_file(urls[n - 1], (k + 1) as nat));
            }
        }
    }
}

/// A target that a source attribute can hold and that does not end like the beginning of another
/// attribute.
pub open spec fn is_target(u: Seq<char>) -> bool {
    &&& u.len() > 0
    &&& !u.contains('"')
    &&& !text::has_suffix(u, "src="@)
}

proof fn lemma_src_text(u: Seq<char>)
    requires
        !u.contains('"'),
    ensures
        src_text(u).len() == u.len() + 6,
        src_text(u)[0] == 's',
        src_text(u)[1] == 'r',
        src_text(u)[2] == 'c',
        src_text(u)[3] == '=',
        forall|k: int|
            0 <= k < src_text(u).len() ==> (#[trigger] src_text(u)[k] == '"' <==> k == 4 || k
                == u.len() + 5),
        forall|k: int| 5 <= k < u.len() + 5 ==> #[trigger] src_text(u)[k] == u[k - 5],
{
    reveal_strlit("src=\"");
    reveal_strlit("\"");
    let t = src_text(u);
    assert forall|k: int| 0 <= k < t.len() implies (#[trigger] t[k] == '"' <==> k == 4 || k
        == u.len() + 5) by {
        if 5 <= k < u.len() + 5 {
            assert(t[k] == u[k - 5]);
            assert(u.contains(u[k - 5]));
        }
    }
}

/// A text that ends with the last four characters of `"src="` before its end is excluded by
/// [`is_target`].
proof fn lemma_not_like_src(u: Seq<char>)
    requires
        u.len() >= 4,
        u[u.len() - 4] == 's',
        u[u.len() - 3] == 'r',
        u[u.len() - 2] == 'c',
        u[u.len() - 1] == '=',
    ensures
        text::has_suffix(u, "src="@),
{
    reveal_strlit("src=");
    assert(u.subrange(u.len() - 4, u.len() as int) =~= "src="@);
}

/// Between two source attributes of different targets nothing of the one begins the other: an
/// occurrence of the first cannot begin inside the second, nor run into it.
proof fn lemma_src_apart(
    a: Seq<char>,
    f: Seq<char>,
    rest: Seq<char>,
    u: Seq<char>,
    x: int,
)
    requires
        is_target(u),
        is_target(f),
        u[0] != f[0],
        a.len() < x + src_text(u).len(),
        x < a.len() + src_text(f).len(),
    ensures
        !text::occurs_at(a + src_text(f) + rest, src_text(u), x),
{
    let n = src_text(u);
    let r = src_text(f);
    let whole = a + r + rest;
    lemma_src_text(u);
    lemma_src_text(f);
    if text::occurs_at(whole, n, x) {
        assert forall|k: int| 0 <= k < n.len() implies #[trigger] n[k] == whole[x + k] by {
            assert(whole.subrange(x, x + n.len())[k] == whole[x + k]);
        }
        assert forall|k: int| 0 <= k < r.len() implies #[trigger] r[k] == whole[a.len() + k] by {}
        if x < a.len() {
            let d = a.len() - x;
            if d + 4 < n.len() {
                assert(n[d + 4] == whole[x + (d + 4)]);
                assert(r[4] == whole[a.len() + 4int]);
                assert(n[d + 4] == '"');
                assert(d == u.len() + 1);
                assert(n[d] == r[0] && n[d + 1] == r[1] && n[d + 2] == r[2] && n[d + 3] == r[3]);
                if u.len() >= 4 {
                    assert(n[d] == u[d - 5] && n[d + 1] == u[d - 4] && n[d + 2] == u[d - 3] && n[d + 3]
                        == u[d - 2]);
                    lemma_not_like_src(u);
                } else {
                    assert(n[4] == '"');
                    assert(n[d + (4 - d)] == r[4 - d]);
                }
            } else {
                let k = n.len() - 1;
                assert(n[k] == '"');
                assert(n[k] == whole[x + k]);
                assert(r[k - d] == whole[a.len() + (k - d)]);
            }
        } else {
            let e = x - a.len();
            if e == 0 {
                assert(n[5] == whole[x + 5]);
                assert(r[5] == whole[a.len() + 5int]);
                assert(n[5] == u[0]);
                assert(r[5] == f[0]);
            } else if e + 4 < r.len() {
                assert(n[4] == whole[x + 4]);
                assert(r[e + 4] == whole[a.len() + (e + 4)]);
                assert(r[e + 4] == '"');
                assert(e == f.len() + 1);
                assert(n[0] == r[e] && n[1] == r[e + 1] && n[2] == r[e + 2] && n[3] == r[e + 3]);
                if f.len() >= 4 {
                    assert(r[e] == f[e - 5] && r[e + 1] == f[e - 4] && r[e + 2] == f[e - 3] && r[e + 3]
                        == f[e - 2]);
                    lemma_not_like_src(f);
                } else {
                    assert(r[4] == '"');
                    assert(r[e + (4 - e)] == n[4 - e]);
                }
            } else {
                let k = r.len() - 1;
                assert(r[k] == '"');
                assert(r[k] == whole[a.len() + k]);
                assert(n[k - e] == whole[x + (k - e)]);
            }
        }
    }
}

/// Replacing a source attribute leaves none of it behind, and makes none of another.
proof fn lemma_src_replaced(
    s: Seq<char>,
    needle: Seq<char>,
    f: Seq<char>,
    u: Seq<char>,
    from: int,
    x: int,
)
    requires
        0 <= from <= s.len(),
        needle.len() > 0,
        is_target(u),
        is_target(f),
        u[0] != f[0],
        needle == src_text(u) || !text::contains_text(s, src_text(u)),
    ensures
        !text::occurs_at(text::replace_from(s, needle, src_text(f), from), src_text(u), x),
    decreases s.len() - from,
{
    let n = src_text(u);
    let r = text::replace_from(s, needle, src_text(f), from);
    text::lemma_find_from(s, needle, from);
    match text::find_from(s, needle, from) {
        None => {
            if text::occurs_at(r, n, x) {
                assert(s.subrange(from + x, from + x + n.len()) =~= r.subrange(x, x + n.len()));
                assert(text::occurs_at(s, n, from + x));
            }
        },
        Some(i) => {
            let a = s.subrange(from, i);
            let by = src_text(f);
            let rest = text::replace_from(s, needle, by, i + needle.len());
            assert(r == a + by + rest);
            if x + n.len() <= a.len() {
                if text::occurs_at(r, n, x) {
                    assert(s.subrange(from + x, from + x + n.len()) =~= r.subrange(
                        x,
                        x + n.len(),
                    ));
                    assert(text::occurs_at(s, n, from + x));
                }
            } else if x < a.len() + by.len() {
                lemma_src_apart(a, f, rest, u, x);
            } else {
                let y = x - a.len() - by.len();
                lemma_src_replaced(s, needle, f, u, i + needle.len(), y);
                if text::occurs_at(r, n, x) {
                    assert(rest.subrange(y, y + n.len()) =~= r.subrange(x, x + n.len()));
                }
            }
        },
    }
}

proof fn lemma_image_file_is_target(url: Seq<char>, number: nat)
    ensures
        is_target(image_file(url, number)),
        image_file(url, number)[0] == 'm',
{
    lemma_stored_extension(url);
    text::lemma_padded(number, 4);
    reveal_strlit("media/img");
    reveal_strlit(".");
    reveal_strlit("src=");
    let d = text::zero_padded(text::decimal(number), 4);
    let e = stored_extension(url);
    let f = image_file(url, number);
    assert forall|i: int| 0 <= i < f.len() implies #[trigger] f[i] != '"' && f[i] != '=' by {
        if i < 9 {
            assert(f[i] == "media/img"@[i]);
        } else if i < 9 + d.len() {
            assert(f[i] == d[i - 9]);
            assert(text::is_digit(d[i - 9]));
        } else if i == 9 + d.len() {
            assert(f[i] == '.');
        } else {
            assert(f[i] == e[i - 10 - d.len()]);
            assert(text::is_alnum(e[i - 10 - d.len()]));
        }
    }
    assert(f[0] == "media/img"@[0]);
    if text::has_suffix(f, "src="@) {
        assert(f.subrange(f.len() - 4, f.len() as int)[3] == f[f.len() - 1]);
    }
}

/// Once the fetched images are embedded, no chapter shows one of them from its URL. A URL that
/// ends in `src=` is left out: it reads like the beginning of another source.
pub proof fn law_embedded_images_are_local(
    body: Seq<char>,
    urls: Seq<Seq<char>>,
    images: Seq<Option<Seq<u8>>>,
    n: nat,
    i: int,
)
    requires
        n <= urls.len(),
        images.len() == urls.len(),
        forall|j: int|
            0 <= j < urls.len() ==> is_target(#[trigger] urls[j]) && text::has_prefix(
                urls[j],
                "http"@,
            ),
        0 <= i < n,
        images[i] is Some,
    ensures
        !text::contains_text(localised(body, urls, images, n), src_text(urls[i])),
    decreases n,
{
    let before = localised(body, urls, images, (n - 1) as nat);
    let u = urls[i];
    if i < n - 1 {
        law_embedded_images_are_local(body, urls, images, (n - 1) as nat, i);
    }
    if images[n - 1] is Some {
        let v = urls[n - 1];
        let f = image_file(v, fetched_in(images, n));
        lemma_image_file_is_target(v, fetched_in(images, n));
        lemma_src_text(v);
        reveal_strlit("http");
        assert(is_target(u) && text::has_prefix(u, "http"@));
        assert(u.subrange(0, 4)[0] == u[0]);
        assert(is_target(v));
        let after = text::replaced(before, src_text(v), src_text(f));
        if text::contains_text(after, src_text(u)) {
            let x = choose|x: int| text::occurs_at(after, src_text(u), x);
            lemma_src_replaced(before, src_text(v), f, u, 0, x);
        }
    }
}

proof fn lemma_img_srcs_unquoted(html: Seq<char>, pos: int)
    ensures
        forall|k: int|
            0 <= k < img_srcs_from(html, pos).len() ==> !(#[trigger] img_srcs_from(
                html,
                pos,
            )[k]).contains('"'),
    decreases html.len() - pos,
{
    let all = img_srcs_from(html, pos);
    if 0 <= pos <= html.len() && text::find_from(html, "<img"@, pos) is Some {
        reveal_strlit("<img");
        reveal_strlit("src=\"");
        text::lemma_find_from(html, "<img"@, pos);
        let after = text::find_from(html, "<img"@, pos)->Some_0 + "<img"@.len();
        text::lemma_find_from(html, "src=\""@, after);
        match text::find_from(html, "src=\""@, after) {
            Some(s) => {
                let start = s + "src=\""@.len();
                match text::find_from(html, "\""@, start) {
                    Some(e) => {
                        text::lemma_find_from(html, "\""@, start);
                        lemma_img_srcs_unquoted(html, e);
                        lemma_up_to_quote(html, start, e);
                        let rest = img_srcs_from(html, e);
                        assert(all == seq![html.subrange(start, e)] + rest);
                        assert forall|k: int| 0 <= k < all.len() implies !(
                        #[trigger] all[k]).contains('"') by {
                            if k > 0 {
                                assert(all[k] == rest[k - 1]);
                            }
                        }
                    },
                    None => {
                        lemma_img_srcs_unquoted(html, after);
                        assert(all == img_srcs_from(html, after));
                    },
                }
            },
            None => {
                lemma_img_srcs_unquoted(html, after);
                assert(all == img_srcs_from(html, after));
            },
        }
    }
}

proof fn lemma_up_to_quote(html: Seq<char>, start: int, end: int)
    requires
        0 <= start,
        text::find_from(html, "\""@, start) == Some(end),
    ensures
        !html.subrange(start, end).contains('"'),
{
    reveal_strlit("\"");
    text::lemma_find_from(html, "\""@, start);
    let src = html.subrange(start, end);
    if src.contains('"') {
        let k = choose|k: int| 0 <= k < src.len() && src[k] == '"';
        assert(html.subrange(start + k, start + k + 1) =~= "\""@);
        assert(text::occurs_at(html, "\""@, start + k));
    }
}

proof fn lemma_chapter_srcs_unquoted(chapters: Seq<ChapterView>, n: nat)
    ensures
        forall|k: int|
            0 <= k < chapter_srcs(chapters, n).len() ==> !(#[trigger] chapter_srcs(
                chapters,
                n,
            )[k]).contains('"'),
    decreases n,
{
    if n > 0 {
        lemma_chapter_srcs_unquoted(chapters, (n - 1) as nat);
        lemma_img_srcs_unquoted(chapters[n - 1].body, 0);
        let a = chapter_srcs(chapters, (n - 1) as nat);
        let b = img_srcs_from(chapters[n - 1].body, 0);
        assert forall|k: int| 0 <= k < chapter_srcs(chapters, n).len() implies !(
        #[trigger] chapter_srcs(chapters, n)[k]).contains('"') by {
            if k < a.len() {
                assert(chapter_srcs(chapters, n)[k] == a[k]);
            } else {
                assert(chapter_srcs(chapters, n)[k] == b[k - a.len()]);
            }
        }
    }
}

proof fn lemma_remote_first(srcs: Seq<Seq<char>>, n: nat, u: Seq<char>)
    requires
        n <= srcs.len(),
        remote_first(srcs, n).contains(u),
    ensures
        text::has_prefix(u, "http"@),
        srcs.contains(u),
    decreases n,
{
    if n > 0 {
        let before = remote_first(srcs, (n - 1) as nat);
        let k = choose|k: int|
            0 <= k < remote_first(srcs, n).len() && remote_first(srcs, n)[k] == u;
        if k < before.len() {
            assert(before[k] == u);
            lemma_remote_first(srcs, (n - 1) as nat, u);
        } else {
            assert(srcs[n - 1] == u);
        }
    }
}

/// The images of a book are asked for once each, and only remote ones: each URL begins with
/// `http` and fits a source attribute.
pub proof fn law_image_urls(chapters: Seq<ChapterView>)
    ensures
        image_urls(chapters).no_duplicates(),
        forall|k: int|
            0 <= k < image_urls(chapters).len() ==> text::has_prefix(
                #[trigger] image_urls(chapters)[k],
                "http"@,
            ) && !image_urls(chapters)[k].contains('"'),
{
    let srcs = chapter_srcs(chapters, chapters.len());
    let remote = remote_first(srcs, srcs.len());
    let urls = image_urls(chapters);
    catalog::law_deduped(remote);
    lemma_chapter_srcs_unquoted(chapters, chapters.len());
    assert forall|k: int| 0 <= k < urls.len() implies text::has_prefix(
        #[trigger] urls[k],
        "http"@,
    ) && !urls[k].contains('"') by {
        assert(urls.contains(urls[k]));
        assert(remote.contains(urls[k]));
        lemma_remote_first(srcs, srcs.len(), urls[k]);
        let j = choose|j: int| 0 <= j < srcs.len() && srcs[j] == urls[k];
        assert(!srcs[j].contains('"'));
    }
}

proof fn lemma_srcs_shift(a: Seq<char>, b: Seq<char>, pos: int)
    requires
        0 <= pos <= b.len(),
    ensures
        img_srcs_from(a + b, a.len() + pos) == img_srcs_from(b, pos),
    decreases b.len() - pos,
{
    reveal_strlit("<img");
    reveal_strlit("src=\"");
    reveal_strlit("\"");
    let s = a + b;
    let n = a.len() as int;
    text::lemma_find_shift(a, b, "<img"@, pos);
    text::lemma_find_from(b, "<img"@, pos);
    if let Some(i) = text::find_from(b, "<img"@, pos) {
        let after = i + 4;
        text::lemma_find_shift(a, b, "src=\""@, after);
        text::lemma_find_from(b, "src=\""@, after);
        if let Some(k) = text::find_from(b, "src=\""@, after) {
            let start = k + 5;
            text::lemma_find_shift(a, b, "\""@, start);
            text::lemma_find_from(b, "\""@, start);
            if let Some(e) = text::find_from(b, "\""@, start) {
                assert(s.subrange(n + start, n + e) =~= b.subrange(start, e));
                lemma_srcs_shift(a, b, e);
            }
        }
        lemma_srcs_shift(a, b, after);
    }
}

/// Every image of a page is collected: its source is what stands between the quotes, and the
/// images behind it are collected in the same way.
pub proof fn law_every_image_is_collected(
    a: Seq<char>,
    mid: Seq<char>,
    url: Seq<char>,
    b: Seq<char>,
)
    requires
        !text::contains_text(a, "<img"@),
        !text::contains_text(mid, "src=\""@),
        !url.contains('"'),
    ensures
        img_srcs_from(a + "<img"@ + mid + "src=\""@ + url + "\""@ + b, 0) == seq![url]
            + img_srcs_from("\""@ + b, 0),
        img_srcs_from(a, 0) == Seq::<Seq<char>>::empty(),
{
    reveal_strlit("<img");
    reveal_strlit("src=\"");
    reveal_strlit("\"");
    let s = a + "<img"@ + mid + "src=\""@ + url + "\""@ + b;
    let n = a.len() as int;
    let r1 = "<img"@ + (mid + ("src=\""@ + (url + ("\""@ + b))));
    assert(s =~= a + r1);
    assert forall|i: int| 0 <= i < n implies !text::occurs_at(s, "<img"@, i) by {
        text::lemma_no_straddle(a, r1, "<img"@, i);
    }
    assert(s.subrange(n, n + 4) =~= "<img"@);
    text::lemma_find_first(s, "<img"@, 0, n);
    let after = n + 4;
    let k = after + mid.len();
    let r2 = "src=\""@ + (url + ("\""@ + b));
    assert(s =~= (a + "<img"@) + (mid + r2));
    assert(s.subrange(k, k + 5) =~= "src=\""@);
    assert forall|i: int| after <= i < k implies !text::occurs_at(s, "src=\""@, i) by {
        text::lemma_no_straddle(mid, r2, "src=\""@, i - after);
        text::lemma_occurs_behind(a + "<img"@, mid + r2, "src=\""@, i - after);
    }
    text::lemma_find_first(s, "src=\""@, after, k);
    let start = k + 5;
    let e = start + url.len();
    assert(s.subrange(e, e + 1) =~= "\""@);
    assert forall|i: int| start <= i < e implies !text::occurs_at(s, "\""@, i) by {
        assert(s[i] == url[i - start]);
        assert(url.contains(url[i - start]));
        if text::occurs_at(s, "\""@, i) {
            assert(s.subrange(i, i + 1)[0] == s[i]);
        }
    }
    text::lemma_find_first(s, "\""@, start, e);
    assert(s.subrange(start, e) =~= url);
    let front = a + "<img"@ + mid + "src=\""@ + url;
    assert(s =~= front + ("\""@ + b));
    lemma_srcs_shift(front, "\""@ + b, 0);
    text::lemma_find_none(a, "<img"@, 0);
}

proof fn lemma_in_chapter_srcs(chapters: Seq<ChapterView>, n: nat, url: Seq<char>)
    requires
        n <= chapters.len(),
    ensures
        chapter_srcs(chapters, n).contains(url) <==> exists|c: int|
            0 <= c < n && img_srcs_from((#[trigger] chapters[c]).body, 0).contains(url),
    decreases n,
{
    if n > 0 {
        lemma_in_chapter_srcs(chapters, (n - 1) as nat, url);
        let a = chapter_srcs(chapters, (n - 1) as nat);
        let b = img_srcs_from(chapters[n - 1].body, 0);
        let all = chapter_srcs(chapters, n);
        if a.contains(url) {
            let i = choose|i: int| 0 <= i < a.len() && a[i] == url;
            assert(all[i] == url);
        }
        if b.contains(url) {
            let i = choose|i: int| 0 <= i < b.len() && b[i] == url;
            assert(all[a.len() + i] == url);
        }
        if all.contains(url) {
            let i = choose|i: int| 0 <= i < all.len() && all[i] == url;
            if i < a.len() {
                assert(a[i] == url);
            } else {
                assert(b[i - a.len()] == url);
                assert(img_srcs_from(chapters[n - 1].body, 0).contains(url));
            }
        }
    }
}

proof fn lemma_remote_kept(srcs: Seq<Seq<char>>, n: nat, i: int)
    requires
        0 <= i < n <= srcs.len(),
        text::has_prefix(srcs[i], "http"@),
    ensures
        remote_first(srcs, n).contains(srcs[i]),
    decreases n,
{
    let before = remote_first(srcs, (n - 1) as nat);
    let now = remote_first(srcs, n);
    if i < n - 1 {
        lemma_remote_kept(srcs, (n - 1) as nat, i);
        let k = choose|k: int| 0 <= k < before.len() && before[k] == srcs[i];
        assert(now[k] == srcs[i]);
    } else {
        assert(now[before.len() as int] == srcs[i]);
    }
}

/// The images that are asked for are the remote ones that some chapter shows: all of them, and no
/// others.
pub proof fn law_images_of_all_chapters(chapters: Seq<ChapterView>, url: Seq<char>)
    ensures
        image_urls(chapters).contains(url) <==> text::has_prefix(url, "http"@) && exists|c: int|
            0 <= c < chapters.len() && img_srcs_from((#[trigger] chapters[c]).body, 0).contains(url),
{
    let srcs = chapter_srcs(chapters, chapters.len());
    let remote = remote_first(srcs, srcs.len());
    catalog::law_deduped(remote);
    lemma_in_chapter_srcs(chapters, chapters.len(), url);
    if remote.contains(url) {
        lemma_remote_first(srcs, srcs.len(), url);
    }
    if text::has_prefix(url, "http"@) && srcs.contains(url) {
        let i = choose|i: int| 0 <= i < srcs.len() && srcs[i] == url;
        lemma_remote_kept(srcs, srcs.len(), i);
    }
}

/// What shows none of the fetched images stays as it is: an image that could not be fetched keeps
/// its URL.
pub proof fn law_other_text_is_kept(
    body: Seq<char>,
    urls: Seq<Seq<char>>,
    images: Seq<Option<Seq<u8>>>,
    n: nat,
)
    requires
        n <= urls.len(),
        images.len() == urls.len(),
        forall|i: int|
            0 <= i < n && (#[trigger] images[i]) is Some ==> !text::contains_text(
                body,
                "src=\""@ + urls[i] + "\""@,
            ),
    ensures
        localised(body, urls, images, n) == body,
    decreases n,
{
    if n > 0 {
        law_other_text_is_kept(body, urls, images, (n - 1) as nat);
        if images[n - 1] is Some {
            reveal_strlit("src=\"");
            text::law_nothing_to_replace(
                body,
                src_text(urls[n - 1]),
                src_text(image_file(urls[n - 1], fetched_in(images, n))),
            );
        }
    }
}

/// A fetched image is shown from the file that it is embedded as, at every place where a page
/// shows it, and the text around it stays.
pub proof fn law_a_fetched_image_is_shown_from_its_file(
    a: Seq<char>,
    url: Seq<char>,
    b: Seq<char>,
    data: Seq<u8>,
)
    requires
        forall|i: int|
            0 <= i < a.len() ==> !text::occurs_at(
                a + ("src=\""@ + url + "\""@) + b,
                "src=\""@ + url + "\""@,
                i,
            ),
    ensures
        ({
            let images = seq![Some(data)];
            let file = embedded_first(seq![url], images, 1)[0];
            &&& embedded_first(seq![url], images, 1).len() == 1
            &&& file.data == data
            &&& localised(a + ("src=\""@ + url + "\""@) + b, seq![url], images, 1) == a + ("src=\""@
                + file.filename + "\""@) + localised(b, seq![url], images, 1)
        }),
{
    reveal_with_fuel(localised, 2);
    reveal_with_fuel(embedded_first, 2);
    reveal_with_fuel(fetched_in, 2);
    reveal_strlit("src=\"");
    let images = seq![Some(data)];
    let urls = seq![url];
    assert(images[0] == Some(data));
    assert(urls[0] == url);
    let file = image_file(url, 1);
    assert(fetched_in(images, 1) == 1);
    text::law_replaced(a, b, src_text(url), src_text(file));
}

/// Embedding changes the text of a chapter only, and the type of an embedded file is that of the
/// image that was fetched: a drawing is stored as a bitmap.
pub proof fn law_embedding_keeps_the_chapter(
    c: ChapterView,
    urls: Seq<Seq<char>>,
    images: Seq<Option<Seq<u8>>>,
    n: nat,
    i: int,
)
    requires
        0 <= i < n <= images.len(),
        images.len() == urls.len(),
        images[i] is Some,
    ensures
        localised_chapter(c, urls, images).id == c.id,
        localised_chapter(c, urls, images).filename == c.filename,
        localised_chapter(c, urls, images).title == c.title,
        localised_chapter(c, urls, images).module_header == c.module_header,
        ({
            let r = embedded_first(urls, images, n)[fetched_in(images, (i + 1) as nat) - 1];
            &&& is_svg(urls[i]) ==> r.media_type == "image/png"@ && text::has_suffix(
                r.filename,
                ".png"@,
            )
            &&& !is_svg(urls[i]) ==> r.media_type == media_type(extension(urls[i]))
                && text::has_suffix(r.filename, "."@ + extension(urls[i]))
        }),
    decreases n,
{
    law_embedded_are_the_fetched(urls, images, n);
    lemma_embedded_type(urls, images, n, i);
    let f = image_file(urls[i], fetched_in(images, (i + 1) as nat));
    let e = "."@ + stored_extension(urls[i]);
    assert(f.subrange(f.len() - e.len(), f.len() as int) =~= e);
    reveal_strlit(".png");
    reveal_strlit("png");
    reveal_strlit(".");
    reveal_strlit("jpg");
    reveal_strlit("jpeg");
    reveal_strlit("gif");
    reveal_strlit("svg");
    reveal_strlit("webp");
    assert("."@ + "png"@ =~= ".png"@);
    assert("png"@[0] == 'p' && "jpg"@[0] == 'j' && "jpeg"@[0] == 'j' && "gif"@[0] == 'g'
        && "svg"@[0] == 's' && "webp"@[0] == 'w');
}

proof fn lemma_embedded_type(
    urls: Seq<Seq<char>>,
    images: Seq<Option<Seq<u8>>>,
    n: nat,
    i: int,
)
    requires
        0 <= i < n <= images.len(),
        images.len() == urls.len(),
        images[i] is Some,
    ensures
        embedded_first(urls, images, n)[fetched_in(images, (i + 1) as nat) - 1].media_type
            == media_type(stored_extension(urls[i])),
    decreases n,
{
    law_embedded_are_the_fetched(urls, images, n);
    law_embedded_are_the_fetched(urls, images, (n - 1) as nat);
    if i < n - 1 {
        lemma_embedded_type(urls, images, (n - 1) as nat, i);
    }
}

/// What kind of image an address names does not depend on its query or its fragment.
pub proof fn law_kind_of_image(url: Seq<char>, rest: Seq<char>)
    requires
        !url.contains('?'),
        !url.contains('#'),
    ensures
        extension(url + seq!['?'] + rest) == extension(url),
        is_svg(url + seq!['?'] + rest) == is_svg(url),
        !rest.contains('?') ==> extension(url + seq!['#'] + rest) == extension(url) && is_svg(
            url + seq!['#'] + rest,
        ) == is_svg(url),
{
    text::law_before(url, '?', rest);
    text::law_before(url, '#', rest);
    if !rest.contains('?') {
        let s = url + seq!['#'] + rest;
        assert(!s.contains('?')) by {
            if s.contains('?') {
                let i = choose|i: int| 0 <= i < s.len() && s[i] == '?';
                if i < url.len() {
                    assert(url[i] == '?');
                } else if i > url.len() {
                    assert(rest[i - url.len() - 1] == '?');
                }
            }
        }
        text::law_before(s, '?', Seq::empty());
    }
}

/// The extension of a file is what stands behind its last dot, where that looks like one.
pub proof fn law_extension(stem: Seq<char>, ext: Seq<char>)
    requires
        !(stem + "."@ + ext).contains('?'),
        !(stem + "."@ + ext).contains('#'),
        !ext.contains('.'),
        text::all_alnum(ext),
        ext.len() <= 5,
    ensures
        extension(stem + "."@ + ext) == text::lowered(ext),
{
    reveal_strlit(".");
    let url = stem + "."@ + ext;
    assert("."@ =~= seq!['.']);
    text::law_before(url, '?', Seq::empty());
    text::law_before(url, '#', Seq::empty());
    text::law_after_last(stem, '.', ext);
}

/// An image is declared as what its extension says, where that is a kind of image, and as a PNG
/// otherwise.
pub proof fn law_media_types(ext: Seq<char>)
    requires
        ext != "jpg"@,
        ext != "svg"@,
    ensures
        ext == "jpeg"@ || ext == "gif"@ || ext == "webp"@ || ext == "png"@ ==> media_type(ext)
            == "image/"@ + ext,
        ext != "jpeg"@ && ext != "gif"@ && ext != "webp"@ ==> media_type(ext) == "image/png"@,
        media_type("jpg"@) == media_type("jpeg"@),
        media_type("svg"@) == "image/svg+xml"@,
{
    reveal_strlit("jpg");
    reveal_strlit("jpeg");
    reveal_strlit("gif");
    reveal_strlit("svg");
    reveal_strlit("webp");
    reveal_strlit("png");
    reveal_strlit("image/");
    reveal_strlit("image/jpeg");
    reveal_strlit("image/gif");
    reveal_strlit("image/webp");
    reveal_strlit("image/png");
    assert("image/"@ + "jpeg"@ =~= "image/jpeg"@);
    assert("image/"@ + "gif"@ =~= "image/gif"@);
    assert("image/"@ + "webp"@ =~= "image/webp"@);
    assert("image/"@ + "png"@ =~= "image/png"@);
    assert("jpeg"@[0] == 'j' && "gif"@[0] == 'g' && "webp"@[0] == 'w' && "png"@[0] == 'p');
    assert("jpg"@[0] == 'j' && "svg"@[0] == 's');
}

} // verus!
