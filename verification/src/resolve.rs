//! Certification to exam-code overrides for the resolution chain.
//!
//! The catalog leaves some certifications empty: no linked exams and no study guide. The
//! authoritative path list of those exams lives on their instructor-led course, which is resolved
//! generically; the only thing that cannot be derived is which exam a certification maps to, so
//! that small, stable mapping is kept here.

use crate::text;
use vstd::prelude::*;

verus! {

/// The exam code of a certification whose catalog entry has neither a study guide nor a linked
/// exam. `uid` is in lower case.
pub open spec fn lower_curated_code(uid: Seq<char>) -> Option<Seq<char>> {
    if uid == "certification.azure-fundamentals"@ {
        Some("az-900"@)
    } else if uid == "certification.d365-business-central-functional-consultant-associate"@ {
        Some("mb-800"@)
    } else {
        None
    }
}

/// [`lower_curated_code`] of a uid in whatever case, with white space around it.
pub open spec fn curated_code(cert_uid: Seq<char>) -> Option<Seq<char>> {
    lower_curated_code(text::lowered(text::trim(cert_uid)))
}

/// Maps a certification uid to its exam code. Returns `None` to fall through to normal
/// resolution.
pub fn curated_exam_code(cert_uid: &str) -> (r: Option<&'static str>)
    ensures
        r.deep_view() == curated_code(cert_uid@),
{
    let cs = text::chars_of(cert_uid);
    curated_lower_exam_code(
        text::lowercase(text::text_of(text::trimmed(cs.as_slice())).as_str()).as_str(),
    )
}

/// [`curated_exam_code`] of a uid that is in lower case already.
pub fn curated_lower_exam_code(uid: &str) -> (r: Option<&'static str>)
    ensures
        r.deep_view() == lower_curated_code(uid@),
{
    if text::same_text(uid, "certification.azure-fundamentals") {
        return Some("az-900");
    }
    if text::same_text(
        uid,
        "certification.d365-business-central-functional-consultant-associate",
    ) {
        return Some("mb-800");
    }
    None
}

} // verus!
