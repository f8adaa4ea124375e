//! The ZIP archive that an EPUB is packed into, over the `zip` crate.
//!
//! An archive is seen as the sequence of its entries: the name of each, whether its bytes are
//! stored as they are (or else deflated), and its bytes.

use std::io::Cursor;
use std::io::Error;
use std::io::Write;
use vstd::prelude::*;
use vstd::string::*;
use zip::write::SimpleFileOptions;
use zip::CompressionMethod;
use zip::ZipWriter;

verus! {

/// How the bytes of an entry are kept.
#[derive(Clone, Copy, PartialEq, Eq, Structural, Debug)]
pub enum Packing {
    /// As they are.
    Stored,
    /// Compressed.
    Deflated,
}

/// An archive being written in memory: a `zip::ZipWriter` over a buffer.
#[verifier::external_body]
pub struct Packer {
    inner: ZipWriter<Cursor<Vec<u8>>>,
}

/// `std::io::Error`, why the archive could not be written. Nothing is claimed of what it holds.
#[verifier::external_type_specification]
#[verifier::external_body]
pub struct ExIoError(Error);

/// The entries written to an archive so far, in order.
pub uninterp spec fn zip_entries(w: Packer) -> Seq<(Seq<char>, bool, Seq<u8>)>;

/// The entries that `zip::ZipArchive` reads out of the bytes of a finished archive, in order.
pub uninterp spec fn archive_entries(bytes: Seq<u8>) -> Seq<(Seq<char>, bool, Seq<u8>)>;

/// An entry's name fits the sixteen bits that the format has for its length in bytes.
pub open spec fn name_fits(name: Seq<char>) -> bool {
    vstd::utf8::encode_utf8(name).len() <= 65535
}

/// `ZipWriter::new` over an empty buffer: no entry yet.
#[verifier::external_body]
pub(crate) fn zip_new() -> (w: Packer)
    ensures
        zip_entries(w).len() == 0,
{
    Packer { inner: ZipWriter::new(Cursor::new(Vec::new())) }
}

/// No two entries have one name.
pub open spec fn names_differ(entries: Seq<(Seq<char>, bool, Seq<u8>)>) -> bool {
    forall|i: int, j: int|
        0 <= i < j < entries.len() ==> (#[trigger] entries[i]).0 != (#[trigger] entries[j]).0
}

/// Whether `ZipWriter::start_file` starts an entry of that name and packing behind `entries`.
pub uninterp spec fn zip_starts(
    entries: Seq<(Seq<char>, bool, Seq<u8>)>,
    name: Seq<char>,
    stored: bool,
) -> bool;

/// Whether `ZipWriter::write_all` takes the bytes of the last of `entries`, which has none yet.
pub uninterp spec fn zip_writes(
    entries: Seq<(Seq<char>, bool, Seq<u8>)>,
    data: Seq<u8>,
) -> bool;

/// Whether `ZipWriter::finish` completes an archive of `entries`.
pub uninterp spec fn zip_finishes(entries: Seq<(Seq<char>, bool, Seq<u8>)>) -> bool;

/// The first `n` of `files` can be written to an archive, one behind the other.
pub open spec fn packs_first(files: Seq<(Seq<char>, bool, Seq<u8>)>, n: nat) -> bool
    decreases n,
{
    if n == 0 {
        true
    } else {
        let before = files.take(n - 1);
        let f = files[n - 1];
        &&& packs_first(files, (n - 1) as nat)
        &&& zip_starts(before, f.0, f.1)
        &&& zip_writes(before.push((f.0, f.1, Seq::empty())), f.2)
    }
}

/// An archive of `files` can be written: each of them can, one behind the other, and then the
/// archive can be completed.
pub open spec fn packs(files: Seq<(Seq<char>, bool, Seq<u8>)>) -> bool {
    packs_first(files, files.len()) && zip_finishes(files)
}

/// Where some of the files cannot be written, the files as a whole cannot.
pub proof fn lemma_packs_prefix(files: Seq<(Seq<char>, bool, Seq<u8>)>, m: nat, n: nat)
    requires
        m <= n,
        packs_first(files, n),
    ensures
        packs_first(files, m),
    decreases n,
{
    if m < n {
        lemma_packs_prefix(files, m, (n - 1) as nat);
    }
}

/// `ZipWriter::start_file`: where it succeeds, one more entry of that name and packing stands
/// at the end, still without bytes. Whether it succeeds depends on the entries that are there,
/// the name and the packing alone. It refuses a name that an entry already has, and panics on
/// one of more than 65535 bytes. A writer that has failed is not handed back.
#[verifier::external_body]
pub(crate) fn zip_start(w: Packer, name: &str, packing: Packing) -> (r: Result<Packer, Error>)
    requires
        name_fits(name@),
    ensures
        r is Ok <==> zip_starts(zip_entries(w), name@, packing == Packing::Stored),
        r matches Ok(after) ==> zip_entries(after) == zip_entries(w).push(
            (name@, packing == Packing::Stored, Seq::<u8>::empty()),
        ),
        r matches Ok(after) ==> names_differ(zip_entries(w)) ==> names_differ(zip_entries(after)),
{
    let method = match packing {
        Packing::Stored => CompressionMethod::Stored,
        Packing::Deflated => CompressionMethod::Deflated,
    };
    let mut w = w;
    w.inner.start_file(name, SimpleFileOptions::default().compression_method(method))?;
    Ok(w)
}

/// `ZipWriter::write_all` for an entry that has no bytes yet: where it succeeds, the bytes are
/// those of the last entry, and nothing else has changed. Whether it succeeds depends on the
/// entries and the bytes alone. A writer that has failed is not handed back.
#[verifier::external_body]
pub(crate) fn zip_write(w: Packer, data: &[u8]) -> (r: Result<Packer, Error>)
    requires
        zip_entries(w).len() > 0,
        zip_entries(w).last().2.len() == 0,
    ensures
        r is Ok <==> zip_writes(zip_entries(w), data@),
        r matches Ok(after) ==> zip_entries(after) == zip_entries(w).drop_last().push(
            (zip_entries(w).last().0, zip_entries(w).last().1, data@),
        ),
{
    let mut w = w;
    w.inner.write_all(data)?;
    Ok(w)
}

/// `ZipWriter::finish`: where it succeeds, the bytes are an archive in which a reader finds the
/// entries that were written. Whether it succeeds depends on the entries alone.
#[verifier::external_body]
pub(crate) fn zip_finish(w: Packer) -> (r: Result<Vec<u8>, Error>)
    ensures
        r is Ok <==> zip_finishes(zip_entries(w)),
        r is Ok ==> archive_entries(r->Ok_0@) == zip_entries(w),
{
    let c = w.inner.finish()?;
    Ok(c.into_inner())
}

/// The message of a `std::io::Error`, as its `Display` gives it. What the message says is left
/// open.
#[verifier::external_body]
pub(crate) fn io_error_text(e: &Error) -> (r: String) {
    e.to_string()
}

} // verus!
