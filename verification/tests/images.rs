use mslx::epub::Chapter;
use mslx::images::embed_images;
use mslx::images::ext_from_url;
use mslx::images::extract_img_srcs;
use mslx::images::is_svg_url;
use mslx::images::media_type_for;
use mslx::images::remote_images;

fn chapter(body: &str) -> Chapter {
    Chapter {
        id: "c".into(),
        filename: "c.xhtml".into(),
        title: "C".into(),
        body: body.into(),
        module_header: None,
    }
}

#[test]
fn svg_urls() {
    assert!(is_svg_url("https://x/a.svg"));
    assert!(is_svg_url("https://x/a.SVG#frag"));
    assert!(is_svg_url("https://x/a.svg?v=2.png"));
    assert!(!is_svg_url("https://x/a.png?b=.svg"));
    assert!(!is_svg_url("https://x/svg"));
}

#[test]
fn extensions() {
    assert_eq!(ext_from_url("https://x/a.PNG?v=1.gif"), "png");
    assert_eq!(ext_from_url("https://x/a.jpeg#top"), "jpeg");
    // Too long, or with a sign in it: taken for a PNG.
    assert_eq!(ext_from_url("https://x/a.longer"), "png");
    assert_eq!(ext_from_url("https://x.y/abc"), "png");
    // Nothing after the last dot is an extension of nothing.
    assert_eq!(ext_from_url("https://x/a."), "");
    // Without a dot the whole text is looked at.
    assert_eq!(ext_from_url("abc"), "abc");
}

#[test]
fn media_types() {
    assert_eq!(media_type_for("jpg"), "image/jpeg");
    assert_eq!(media_type_for("jpeg"), "image/jpeg");
    assert_eq!(media_type_for("gif"), "image/gif");
    assert_eq!(media_type_for("svg"), "image/svg+xml");
    assert_eq!(media_type_for("webp"), "image/webp");
    assert_eq!(media_type_for("png"), "image/png");
    assert_eq!(media_type_for("other"), "image/png");
}

#[test]
fn sources_of_images() {
    let html = "<img alt=\"x\" src=\"a.png\"/><p><img src=\"b.png\"><img alt=\"none\"/> src=\"c.png\"";
    // An image without a source of its own takes the next one in the text.
    assert_eq!(extract_img_srcs(html), ["a.png", "b.png", "c.png"]);
    assert!(extract_img_srcs("<img src=\"open").is_empty());
    assert!(extract_img_srcs("no image").is_empty());
}

#[test]
fn remote_images_once_each_in_order() {
    let chapters = vec![
        chapter("<img src=\"https://x/b.png\"/><img src=\"media/local.png\"/>"),
        chapter("<img src=\"http://x/a.png\"/><img src=\"https://x/b.png\"/>"),
    ];
    assert_eq!(remote_images(&chapters), ["https://x/b.png", "http://x/a.png"]);
}

#[test]
fn fetched_images_become_local() {
    let urls = vec![
        "https://x/a.svg".to_string(),
        "https://x/gone.gif".to_string(),
        "https://x/b.JPG?v=1".to_string(),
    ];
    let body = "<img src=\"https://x/a.svg\"/><img src=\"https://x/gone.gif\"/>\
                <img src=\"https://x/b.JPG?v=1\"/><img src=\"https://x/a.svg\"/>";
    let images = vec![Some(vec![1]), None, Some(vec![2, 3])];
    let (chapters, resources) = embed_images(vec![chapter(body)], &urls, images);
    assert_eq!(
        chapters[0].body,
        "<img src=\"media/img0001.png\"/><img src=\"https://x/gone.gif\"/>\
         <img src=\"media/img0002.jpg\"/><img src=\"media/img0001.png\"/>"
    );
    assert_eq!(chapters[0].title, "C");
    assert_eq!(resources.len(), 2);
    assert_eq!(resources[0].filename, "media/img0001.png");
    assert_eq!(resources[0].media_type, "image/png");
    assert_eq!(resources[0].data, [1]);
    assert_eq!(resources[1].filename, "media/img0002.jpg");
    assert_eq!(resources[1].media_type, "image/jpeg");
    assert_eq!(resources[1].data, [2, 3]);
}

#[test]
fn nothing_fetched_changes_nothing() {
    let body = "<img src=\"https://x/a.png\"/>";
    let (chapters, resources) =
        embed_images(vec![chapter(body)], &vec!["https://x/a.png".to_string()], vec![None]);
    assert_eq!(chapters[0].body, body);
    assert!(resources.is_empty());
}
