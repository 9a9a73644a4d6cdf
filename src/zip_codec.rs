//! The zip codec of the `zip` crate, behind contracts: reading an
//! archive's listing out of its bytes, and writing entries into a new
//! archive image.
use vstd::prelude::*;
use std::io::Cursor;
use zip::result::ZipError;
use zip::{ZipArchive, ZipWriter};

verus! {

#[verifier::external_type_specification]
#[verifier::external_body]
#[verifier::reject_recursive_types(T)]
pub struct ExCursor<T>(Cursor<T>);

#[verifier::external_type_specification]
#[verifier::external_body]
#[verifier::reject_recursive_types(R)]
pub struct ExZipArchive<R>(ZipArchive<R>);

/// An archive being written into an in-memory buffer.
#[verifier::external_body]
pub struct ArchiveWriter {
    inner: ZipWriter<Cursor<Vec<u8>>>,
}

#[verifier::external_type_specification]
#[verifier::external_body]
pub struct ExZipError(ZipError);

/// An archive entry as a plain value: its name, whether it is a directory
/// entry, and its uncompressed bytes.
pub type EntryView = (Seq<char>, bool, Seq<u8>);

/// Largest file, in bytes, that the writer is asked to store: deflate adds
/// at most a few bytes per block, so the compressed size stays below the
/// 4 GiB that an entry without the zip64 extension can hold.
pub const ENTRY_LIMIT: usize = 0x8000_0000;

/// Whether `ZipArchive::new` accepts `bytes`: an end-of-central-directory
/// record is found and the central directory it points to parses.
pub uninterp spec fn zip_opens(bytes: Seq<u8>) -> bool;

/// What `ZipArchive::new` finds in `bytes`: each entry's name, in
/// central-directory order, with its bytes as read back, or `None` when the
/// entry cannot be read (unsupported method, encryption, bad stream or
/// checksum).
pub uninterp spec fn zip_listing(bytes: Seq<u8>) -> Seq<(Seq<char>, Option<Seq<u8>>)>;

/// What an open archive holds, by index, in the same form as `zip_listing`.
pub uninterp spec fn archive_listing(a: ZipArchive<Cursor<Vec<u8>>>) -> Seq<(Seq<char>, Option<Seq<u8>>)>;

/// The bytes that `ZipWriter::finish` produces for these entries, each
/// written with `FileOptions::default()` (deflate, fixed timestamp).
pub uninterp spec fn zip_image(entries: Seq<EntryView>) -> Seq<u8>;

/// The entries written so far into a writer, in order.
pub uninterp spec fn written(w: ArchiveWriter) -> Seq<EntryView>;

/// The writer is still open: it was not finished and no write into it
/// failed.
pub uninterp spec fn writable(w: ArchiveWriter) -> bool;

/// The archive opens and every entry in it can be read.
pub open spec fn zip_readable(bytes: Seq<u8>) -> bool {
    zip_opens(bytes) && forall|i: int| 0 <= i < zip_listing(bytes).len() ==> (#[trigger] zip_listing(bytes)[i]).1 is Some
}

/// The entry started last, if any, is small enough to be closed.
pub open spec fn last_fits(es: Seq<EntryView>) -> bool {
    es.len() == 0 || es.last().2.len() <= ENTRY_LIMIT
}

pub open spec fn total_data(es: Seq<EntryView>) -> nat
    decreases es.len(),
{
    if es.len() == 0 {
        0
    } else {
        total_data(es.drop_last()) + es.last().2.len()
    }
}

/// Entries that fit a plain (not zip64) archive with room to spare: fewer
/// than 65535 of them, names of at most 16383 characters (so at most 65532
/// bytes in UTF-8), at most 1 GiB of data in all.
pub open spec fn fits_plain_archive(es: Seq<EntryView>) -> bool {
    &&& es.len() < 0xffff
    &&& forall|i: int| 0 <= i < es.len() ==> (#[trigger] es[i]).0.len() <= 0x3fff
    &&& total_data(es) <= 0x4000_0000
}

/// How the written entries read back: names as written, bytes as written
/// (a directory entry reads back empty).
pub open spec fn read_back(es: Seq<EntryView>) -> Seq<(Seq<char>, Option<Seq<u8>>)> {
    es.map_values(|e: EntryView| (e.0, Some(e.2)))
}

/// Relies on `ZipArchive::new`: reads the central directory of `bytes`; an
/// input shorter than the 22-byte end record is refused.
#[verifier::external_body]
pub(crate) fn open_archive(bytes: Vec<u8>) -> (r: Result<ZipArchive<Cursor<Vec<u8>>>, ZipError>)
    ensures
        r is Ok <==> zip_opens(bytes@),
        bytes@.len() < 22 ==> r is Err,
        r matches Ok(a) ==> archive_listing(a) == zip_listing(bytes@),
{
    ZipArchive::new(Cursor::new(bytes))
}

/// Relies on `ZipArchive::len`: the number of entries.
#[verifier::external_body]
pub(crate) fn entry_count(a: &ZipArchive<Cursor<Vec<u8>>>) -> (n: usize)
    ensures
        n == archive_listing(*a).len(),
{
    a.len()
}

/// Relies on `ZipArchive::by_index_decrypt`: the name of entry `i` and its
/// bytes, read through the entry's `Read` impl. The empty password is
/// dropped for an entry that is not encrypted; an entry that cannot be
/// read without one gives an error here.
#[verifier::external_body]
pub(crate) fn read_entry(a: &mut ZipArchive<Cursor<Vec<u8>>>, i: usize) -> (r: Result<(String, Vec<u8>), ZipError>)
    requires
        i < archive_listing(*old(a)).len(),
    ensures
        archive_listing(*final(a)) == archive_listing(*old(a)),
        r is Ok <==> archive_listing(*old(a))[i as int].1 is Some,
        r matches Ok((n, d)) ==> n@ == archive_listing(*old(a))[i as int].0 && Some(d@)
            == archive_listing(*old(a))[i as int].1,
{
    let mut f = match a.by_index_decrypt(i, &[])? {
        Ok(f) => f,
        Err(_) => return Err(ZipError::UnsupportedArchive(ZipError::PASSWORD_REQUIRED)),
    };
    let mut data = Vec::new();
    std::io::Read::read_to_end(&mut f, &mut data)?;
    Ok((f.name().to_string(), data))
}

/// Relies on `ZipWriter::new`: a writer over an empty in-memory buffer.
#[verifier::external_body]
pub(crate) fn new_writer() -> (w: ArchiveWriter)
    ensures
        written(w) == Seq::<EntryView>::empty(),
        writable(w),
{
    ArchiveWriter { inner: ZipWriter::new(Cursor::new(Vec::new())) }
}

/// Relies on `ZipWriter::start_file`: closes the entry before and starts a
/// file entry named `name`. On an in-memory buffer it fails only on a
/// closed writer or when the entry before is too large.
#[verifier::external_body]
pub(crate) fn start_file(w: &mut ArchiveWriter, name: &str) -> (r: Result<(), ZipError>)
    ensures
        writable(*old(w)) && last_fits(written(*old(w))) ==> r is Ok,
        r is Ok ==> writable(*final(w)) && written(*final(w)) == written(*old(w)).push(
            (name@, false, Seq::<u8>::empty()),
        ),
{
    w.inner.start_file(name, zip::write::FileOptions::default())
}

/// Relies on `ZipWriter::add_directory`: closes the entry before and adds a
/// directory entry; `name` already ends in `/`, so it is kept as it is.
#[verifier::external_body]
pub(crate) fn add_directory(w: &mut ArchiveWriter, name: &str) -> (r: Result<(), ZipError>)
    requires
        name@.len() > 0 && name@.last() == '/',
    ensures
        writable(*old(w)) && last_fits(written(*old(w))) ==> r is Ok,
        r is Ok ==> writable(*final(w)) && written(*final(w)) == written(*old(w)).push(
            (name@, true, Seq::<u8>::empty()),
        ),
{
    w.inner.add_directory(name, zip::write::FileOptions::default())
}

/// Relies on `ZipWriter`'s `Write::write_all`: appends `data` to the file
/// entry started last; it fails on a closed writer, or once the entry
/// passes 4 GiB.
#[verifier::external_body]
pub(crate) fn write_data(w: &mut ArchiveWriter, data: &[u8]) -> (r: Result<(), ZipError>)
    requires
        written(*old(w)).len() > 0,
        !written(*old(w)).last().1,
    ensures
        writable(*old(w)) && written(*old(w)).last().2.len() + data@.len() <= ENTRY_LIMIT ==> r is Ok,
        r is Ok ==> writable(*final(w)) && written(*final(w)) == written(*old(w)).update(
            written(*old(w)).len() - 1,
            (
                written(*old(w)).last().0,
                false,
                written(*old(w)).last().2 + data@,
            ),
        ),
{
    std::io::Write::write_all(&mut w.inner, data).map_err(ZipError::Io)
}

/// Relies on `ZipWriter::finish`: closes the last entry, writes the central
/// directory and hands back the buffer. What it writes, `ZipArchive::new`
/// reads back: the same entries with the same bytes.
#[verifier::external_body]
pub(crate) fn finish(w: &mut ArchiveWriter) -> (r: Result<Vec<u8>, ZipError>)
    ensures
        writable(*old(w)) && last_fits(written(*old(w))) ==> r is Ok,
        r matches Ok(b) ==> b@ == zip_image(written(*old(w))),
        r matches Ok(b) ==> fits_plain_archive(written(*old(w))) ==> zip_opens(b@) && zip_listing(b@)
            == read_back(written(*old(w))),
{
    w.inner.finish().map(|c| c.into_inner())
}

} // verus!
