use mslx::FetchError;
use mslx::ResolveError;

fn failure() -> FetchError {
    FetchError { url: "https://x/y".into(), message: "404".into() }
}

#[test]
fn errors_say_what_happened() {
    assert_eq!(failure().text(), "fetch failed for https://x/y: 404");
    assert_eq!(ResolveError::Fetch(failure()).text(), failure().text());
    assert_eq!(ResolveError::Json("eof".into()).text(), "could not parse JSON: eof");
    assert_eq!(
        ResolveError::BadInput("empty".into()).text(),
        "could not derive a certification uid from input: empty"
    );
    assert_eq!(
        ResolveError::CertNotFound("c".into()).text(),
        "certification not found in catalog: c"
    );
    assert_eq!(
        ResolveError::ModuleNotFound("m".into()).text(),
        "module not found in catalog: m"
    );
    assert_eq!(
        ResolveError::NoPaths("exam.x".into()).text(),
        "exam.x has no learning paths in its study guide"
    );
    assert_eq!(
        ResolveError::ContentUnavailable("T".into()).text(),
        "no exportable source content found for \"T\""
    );
}
