//! The zip crate behind trusted items, and the model of what an archive holds.
//!
//! An archive is modelled as the sequence of its entries in central-directory order, each as
//! (name, uncompressed size, compressed size, contents), where the contents are `Some(d)`
//! exactly where opening the entry and reading it in full gives the bytes `d`.
use std::io::{Cursor, Write};
use vstd::prelude::*;
use zip::result::ZipError;
use zip::write::SimpleFileOptions;
use zip::{CompressionMethod, DateTime, ZipArchive, ZipWriter};

verus! {

/// The standard library's in-memory reader and writer.
#[verifier::external_type_specification]
#[verifier::external_body]
#[verifier::reject_recursive_types(T)]
pub struct ExCursor<T>(Cursor<T>);

/// The standard library's I/O error.
#[verifier::external_type_specification]
#[verifier::external_body]
pub struct ExIoError(std::io::Error);

/// A zip archive being read.
#[verifier::external_type_specification]
#[verifier::external_body]
#[verifier::reject_recursive_types(R)]
pub struct ExZipArchive<R>(ZipArchive<R>);

/// A zip archive being written to an in-memory buffer. Verus refuses a declaration of the
/// zip crate's `ZipWriter` (its parameter is bounded by `std::io` traits), so the writer is
/// held in a private field, and only the trusted items below touch it.
#[verifier::external_body]
pub struct ArchiveWriter {
    inner: ZipWriter<Cursor<Vec<u8>>>,
}

/// The zip crate's error.
#[verifier::external_type_specification]
#[verifier::external_body]
pub struct ExZipError(ZipError);

/// A modification time as the zip crate stores it.
#[verifier::external_type_specification]
#[verifier::external_body]
pub struct ExDateTime(DateTime);

/// What `ZipArchive::new` makes of an in-memory reader over `bytes`: `None` where it fails,
/// else the entries it lists, in the form described at the top of this module.
pub uninterp spec fn zip_parse(bytes: Seq<u8>) -> Option<Seq<(Seq<char>, u64, u64, Option<Seq<u8>>)>>;

/// The entries that an open archive holds.
pub uninterp spec fn archive_entries(a: ZipArchive<Cursor<Vec<u8>>>) -> Seq<(Seq<char>, u64, u64, Option<Seq<u8>>)>;

/// The entries written so far to an archive being written, each as (name, contents), the
/// contents `None` where they are not known (a raw copy of an entry that could not be read).
pub uninterp spec fn writer_entries(w: ArchiveWriter) -> Seq<(Seq<char>, Option<Seq<u8>>)>;

/// Which entries of the archive that `ZipArchive::new` reads from `bytes` can be opened with
/// `ZipArchive::by_index` (it refuses, for one, an encrypted entry or an unsupported
/// compression method), in archive order. Empty where the bytes are not an archive.
pub uninterp spec fn zip_opens(bytes: Seq<u8>) -> Seq<bool>;

/// Which entries of an open archive can be opened (see `zip_opens`).
pub uninterp spec fn archive_opens(a: ZipArchive<Cursor<Vec<u8>>>) -> Seq<bool>;

/// How each entry of the archive that `ZipArchive::new` reads from `bytes` is stored, as
/// `ZipArchive::by_index_raw` shows it: (compression method code, CRC-32, uncompressed size,
/// compressed bytes),
/// in archive order; `None` for an entry whose stored form cannot be had. Empty where the
/// bytes are not an archive.
pub uninterp spec fn zip_stored(bytes: Seq<u8>) -> Seq<Option<(u16, u32, u64, Seq<u8>)>>;

/// How each entry of an open archive is stored (see `zip_stored`).
pub uninterp spec fn archive_stored(a: ZipArchive<Cursor<Vec<u8>>>) -> Seq<Option<(u16, u32, u64, Seq<u8>)>>;

/// For each entry written so far to an archive being written, how it is stored where that is
/// known: `Some` for a raw copy of a readable entry (its source's stored form), `None` for an
/// entry written anew.
pub uninterp spec fn writer_stored(w: ArchiveWriter) -> Seq<Option<(u16, u32, u64, Seq<u8>)>>;

/// The archive in `bytes` stores its first entries as `forms` says, wherever that is known.
pub open spec fn stored_as(bytes: Seq<u8>, forms: Seq<Option<(u16, u32, u64, Seq<u8>)>>) -> bool {
    &&& forms.len() <= zip_stored(bytes).len()
    &&& forall|j: int| 0 <= j < forms.len() ==> ((#[trigger] forms[j]) is Some ==> zip_stored(bytes)[j] == forms[j])
}

/// The modification time that each entry of the archive that `ZipArchive::new` reads from
/// `bytes` records, as `ZipArchive::by_index_raw(..).last_modified()` shows it: the MS-DOS
/// (date, time) pair, `None` where the recorded pair is not a valid date and time (or the
/// entry cannot be had). Empty where the bytes are not an archive.
pub uninterp spec fn zip_times(bytes: Seq<u8>) -> Seq<Option<(u16, u16)>>;

/// The modification times of the entries of an open archive (see `zip_times`).
pub uninterp spec fn archive_times(a: ZipArchive<Cursor<Vec<u8>>>) -> Seq<Option<(u16, u16)>>;

/// For each entry written so far, its modification time where that is known: `None` for an
/// entry stamped with the current time.
pub uninterp spec fn writer_times(w: ArchiveWriter) -> Seq<Option<(u16, u16)>>;

/// The archive in `bytes` records the modification times `times` for its first entries,
/// wherever they are known.
pub open spec fn times_as(bytes: Seq<u8>, times: Seq<Option<(u16, u16)>>) -> bool {
    &&& times.len() <= zip_times(bytes).len()
    &&& forall|j: int| 0 <= j < times.len() ==> ((#[trigger] times[j]) is Some ==> zip_times(bytes)[j] == times[j])
}

/// The zip crate's default time, 1980-01-01 00:00:00, as an MS-DOS (date, time) pair.
pub open spec fn default_time() -> (u16, u16) {
    (0x21, 0)
}

/// A recorded time, or the default time where none is recorded.
pub open spec fn time_or_default(t: Option<(u16, u16)>) -> (u16, u16) {
    match t {
        Some(x) => x,
        None => default_time(),
    }
}

/// Whether an entry is open on an archive being written, so that data written go to it:
/// after starting a new entry, and until another entry is started, copied or the archive is
/// finished.
pub uninterp spec fn writer_in_entry(w: ArchiveWriter) -> bool;

/// A name the zip crate can write: its UTF-8 encoding fits the 16-bit length field (the crate
/// panics on a longer one).
pub open spec fn name_fits(name: Seq<char>) -> bool {
    vstd::utf8::encode_utf8(name).len() <= 0xffff
}

/// Contents small enough that neither they nor their deflated form reach the 4 GiB limit of
/// an entry written without the zip64 option: at most 2 GiB - 1 bytes.
pub open spec fn data_fits(d: Seq<u8>) -> bool {
    d.len() <= 0x7fff_ffff
}

/// Every known content among written entries fits (see `data_fits`).
pub open spec fn written_fit(ws: Seq<(Seq<char>, Option<Seq<u8>>)>) -> bool {
    forall|i: int| 0 <= i < ws.len() ==> ((#[trigger] ws[i]).1 matches Some(d) ==> data_fits(d))
}

/// Every name among written entries can be written (see `name_fits`).
pub open spec fn names_fit(ws: Seq<(Seq<char>, Option<Seq<u8>>)>) -> bool {
    forall|i: int| 0 <= i < ws.len() ==> name_fits((#[trigger] ws[i]).0)
}

/// No two entries share a name.
pub open spec fn names_distinct(es: Seq<(Seq<char>, u64, u64, Option<Seq<u8>>)>) -> bool {
    forall|i: int, j: int| 0 <= i < es.len() && 0 <= j < es.len() && i != j ==> es[i].0 != es[j].0
}

/// The name of some entry is `name`.
pub open spec fn has_entry_named(es: Seq<(Seq<char>, u64, u64, Option<Seq<u8>>)>, name: Seq<char>) -> bool {
    exists|i: int| 0 <= i < es.len() && #[trigger] es[i].0 == name
}

/// The name of some written entry is `name`.
pub open spec fn has_written_named(ws: Seq<(Seq<char>, Option<Seq<u8>>)>, name: Seq<char>) -> bool {
    exists|i: int| 0 <= i < ws.len() && #[trigger] ws[i].0 == name
}

/// The zip crate takes an entry whose name ends with `/` or `\` for a directory.
pub open spec fn zip_is_dir(name: Seq<char>) -> bool {
    name.len() > 0 && (name.last() == '/' || name.last() == '\\')
}

/// `ws` with `data` added to the contents of its last entry.
pub open spec fn append_to_last(ws: Seq<(Seq<char>, Option<Seq<u8>>)>, data: Seq<u8>) -> Seq<(Seq<char>, Option<Seq<u8>>)> {
    ws.update(
        ws.len() - 1,
        (
            ws.last().0,
            match ws.last().1 {
                Some(d) => Some(d + data),
                None => None,
            },
        ),
    )
}

/// The archive that reading `bytes` gives holds the written entries: the same names in the
/// same order, and the same contents wherever those are known.
pub open spec fn reads_back_as(bytes: Seq<u8>, ws: Seq<(Seq<char>, Option<Seq<u8>>)>) -> bool {
    &&& zip_parse(bytes) is Some
    &&& zip_parse(bytes).unwrap().len() == ws.len()
    &&& forall|i: int| #![trigger ws[i]] 0 <= i < ws.len() ==> {
        &&& zip_parse(bytes).unwrap()[i].0 == ws[i].0
        &&& (ws[i].1 matches Some(d) ==> zip_parse(bytes).unwrap()[i].3 == Some(d))
    }
}

/// Metadata of one entry, as `ZipArchive::by_index` reports it.
pub struct EntryInfo {
    pub name: String,
    pub is_dir: bool,
    pub size: u64,
    pub compressed_size: u64,
}

/// Why an entry could not be read: opening it, or reading its contents, failed.
pub enum EntryReadFailure {
    Open(ZipError),
    Read(std::io::Error),
}

/// Calls `ZipArchive::new` on an in-memory reader over `bytes`. It succeeds exactly where
/// `zip_parse` gives entries, and the archive holds those entries. The crate keeps the entries
/// in a map keyed by name, so no two share a name.
#[verifier::external_body]
pub(crate) fn archive_from_bytes(bytes: Vec<u8>) -> (r: Result<ZipArchive<Cursor<Vec<u8>>>, ZipError>)
    ensures
        r is Ok <==> zip_parse(bytes@) is Some,
        r matches Ok(a) ==> archive_entries(a) == zip_parse(bytes@).unwrap(),
        r matches Ok(a) ==> names_distinct(archive_entries(a)),
        r matches Ok(a) ==> archive_stored(a) == zip_stored(bytes@),
        r matches Ok(a) ==> archive_times(a) == zip_times(bytes@),
        r matches Ok(a) ==> archive_opens(a) == zip_opens(bytes@) && archive_opens(a).len() == archive_entries(a).len()
            && forall|i: int| 0 <= i < archive_entries(a).len() ==> ((#[trigger] archive_entries(a)[i]).3 is Some
                ==> archive_opens(a)[i]),
{
    ZipArchive::new(Cursor::new(bytes))
}

/// Calls `ZipArchive::len`: the number of entries.
#[verifier::external_body]
pub(crate) fn archive_len(a: &ZipArchive<Cursor<Vec<u8>>>) -> (r: usize)
    ensures
        r == archive_entries(*a).len(),
{
    a.len()
}

/// Calls `ZipArchive::index_for_name`, turning a missing name into the `FileNotFound` error
/// that `ZipArchive::by_name` gives: the index of the entry with that name.
#[verifier::external_body]
pub(crate) fn archive_index_for_name(a: &ZipArchive<Cursor<Vec<u8>>>, name: &str) -> (r: Result<usize, ZipError>)
    ensures
        r matches Ok(i) ==> i < archive_entries(*a).len() && archive_entries(*a)[i as int].0 == name@,
        has_entry_named(archive_entries(*a), name@) ==> r is Ok,
{
    a.index_for_name(name).ok_or(ZipError::FileNotFound)
}

/// Calls `ZipArchive::by_index` and reads the entry's name, directory flag and sizes. Where
/// the entry can be read in full, opening it succeeds.
#[verifier::external_body]
pub(crate) fn archive_entry_info(a: &mut ZipArchive<Cursor<Vec<u8>>>, i: usize) -> (r: Result<EntryInfo, ZipError>)
    ensures
        archive_entries(*final(a)) == archive_entries(*old(a)),
        archive_stored(*final(a)) == archive_stored(*old(a)),
        archive_opens(*final(a)) == archive_opens(*old(a)),
        archive_times(*final(a)) == archive_times(*old(a)),
        r matches Ok(e) ==> {
            &&& i < archive_entries(*old(a)).len()
            &&& e.name@ == archive_entries(*old(a))[i as int].0
            &&& e.is_dir == zip_is_dir(e.name@)
            &&& e.size == archive_entries(*old(a))[i as int].1
            &&& e.compressed_size == archive_entries(*old(a))[i as int].2
            &&& archive_opens(*old(a))[i as int]
        },
        i < archive_entries(*old(a)).len() && archive_entries(*old(a))[i as int].3 is Some ==> r is Ok,
        i < archive_entries(*old(a)).len() && archive_opens(*old(a))[i as int] ==> r is Ok,
{
    let f = a.by_index(i)?;
    Ok(EntryInfo {
        name: f.name().to_string(),
        is_dir: f.is_dir(),
        size: f.size(),
        compressed_size: f.compressed_size(),
    })
}

/// Calls `ZipArchive::by_index`, takes the entry's uncompressed size, and reads the entry in
/// full with `Read::read_to_end`: the data are the entry's contents, and the result is `Ok`
/// exactly where those can be read. Opening fails (`Open`) exactly where the entry does not
/// open; a `Read` failure comes after it opened.
#[verifier::external_body]
pub(crate) fn archive_read_entry(a: &mut ZipArchive<Cursor<Vec<u8>>>, i: usize) -> (r: Result<(u64, Vec<u8>), EntryReadFailure>)
    ensures
        archive_entries(*final(a)) == archive_entries(*old(a)),
        archive_stored(*final(a)) == archive_stored(*old(a)),
        archive_opens(*final(a)) == archive_opens(*old(a)),
        archive_times(*final(a)) == archive_times(*old(a)),
        r matches Ok(p) ==> i < archive_entries(*old(a)).len() && p.0 == archive_entries(*old(a))[i as int].1
            && archive_entries(*old(a))[i as int].3 == Some(p.1@),
        i < archive_entries(*old(a)).len() && archive_entries(*old(a))[i as int].3 is Some ==> r is Ok,
        r matches Err(EntryReadFailure::Open(_)) ==> !(i < archive_entries(*old(a)).len() && archive_opens(*old(a))[i as int]),
        r matches Err(EntryReadFailure::Read(_)) ==> i < archive_entries(*old(a)).len() && archive_opens(*old(a))[i as int],
        r is Ok ==> archive_opens(*old(a))[i as int],
{
    let mut f = a.by_index(i).map_err(EntryReadFailure::Open)?;
    let size = f.size();
    let mut data = Vec::new();
    std::io::Read::read_to_end(&mut f, &mut data).map_err(EntryReadFailure::Read)?;
    Ok((size, data))
}

/// Calls `ZipArchive::by_index_raw` and reads the entry's name.
#[verifier::external_body]
pub(crate) fn archive_raw_entry_info(a: &mut ZipArchive<Cursor<Vec<u8>>>, i: usize) -> (r: Result<String, ZipError>)
    ensures
        archive_entries(*final(a)) == archive_entries(*old(a)),
        archive_stored(*final(a)) == archive_stored(*old(a)),
        archive_opens(*final(a)) == archive_opens(*old(a)),
        archive_times(*final(a)) == archive_times(*old(a)),
        r matches Ok(p) ==> i < archive_entries(*old(a)).len() && p@ == archive_entries(*old(a))[i as int].0,
        i < archive_entries(*old(a)).len() && archive_entries(*old(a))[i as int].3 is Some ==> r is Ok,
{
    let f = a.by_index_raw(i)?;
    Ok(f.name().to_string())
}

/// Calls `ZipArchive::name_for_index`: the name of the `i`-th entry, `None` past the end.
#[verifier::external_body]
pub(crate) fn archive_name_at(a: &ZipArchive<Cursor<Vec<u8>>>, i: usize) -> (r: Option<String>)
    ensures
        r is Some <==> i < archive_entries(*a).len(),
        r matches Some(s) ==> s@ == archive_entries(*a)[i as int].0,
{
    match a.name_for_index(i) {
        Some(s) => Some(s.to_string()),
        None => None,
    }
}

/// Calls `DateTime::default_for_write`: the time that new entries are stamped with (the
/// current time where the crate can tell it). Nothing is claimed of its value.
#[verifier::external_body]
pub(crate) fn time_for_new_entries() -> (r: DateTime) {
    DateTime::default_for_write()
}

/// Calls `ZipWriter::new` on an empty in-memory buffer: nothing is written yet.
#[verifier::external_body]
pub(crate) fn writer_new() -> (w: ArchiveWriter)
    ensures
        writer_entries(w) == Seq::<(Seq<char>, Option<Seq<u8>>)>::empty(),
        writer_stored(w) == Seq::<Option<(u16, u32, u64, Seq<u8>)>>::empty(),
        writer_times(w) == Seq::<Option<(u16, u16)>>::empty(),
        !writer_in_entry(w),
{
    ArchiveWriter { inner: ZipWriter::new(Cursor::new(Vec::new())) }
}

/// Calls `ZipWriter::start_file` with deflate compression and the given modification time:
/// on success a new, empty entry of that name follows the others and is open. The crate
/// refuses a name that is already written. Writing to memory, it fails on nothing else while
/// the entries written so far fit (`written_fit`): it first closes the previous entry, which
/// fails only for an entry over 4 GiB. A name longer than the crate's 16-bit length field
/// makes it panic, hence the `requires`.
#[verifier::external_body]
pub(crate) fn writer_start_entry(w: &mut ArchiveWriter, name: &str, modified: DateTime) -> (r: Result<(), ZipError>)
    requires
        name_fits(name@),
    ensures
        r is Ok ==> writer_entries(*final(w)) == writer_entries(*old(w)).push((name@, Some(Seq::<u8>::empty())))
            && writer_in_entry(*final(w)) && writer_stored(*final(w)) == writer_stored(*old(w)).push(None)
            && writer_times(*final(w)) == writer_times(*old(w)).push(None),
        has_written_named(writer_entries(*old(w)), name@) ==> r is Err,
        !has_written_named(writer_entries(*old(w)), name@) && written_fit(writer_entries(*old(w))) ==> r is Ok,
{
    let options = SimpleFileOptions::default()
        .compression_method(CompressionMethod::Deflated)
        .last_modified_time(modified);
    w.inner.start_file(name, options)
}

/// Calls `ZipArchive::by_index_raw` for the `i`-th entry's modification time (the default time
/// where it records none), then `ZipWriter::start_file` with deflate compression and that
/// time: on success a new, empty entry `name` follows the others and is open, stamped with the
/// source entry's time. As for `writer_start_entry`, the crate refuses a name already written
/// and otherwise, for an entry that can be read and while the entries written fit, succeeds;
/// it panics on a name longer than its 16-bit length field, hence the `requires`.
#[verifier::external_body]
pub(crate) fn writer_start_entry_like(
    w: &mut ArchiveWriter,
    name: &str,
    a: &mut ZipArchive<Cursor<Vec<u8>>>,
    i: usize,
) -> (r: Result<(), ZipError>)
    requires
        name_fits(name@),
    ensures
        archive_entries(*final(a)) == archive_entries(*old(a)),
        archive_stored(*final(a)) == archive_stored(*old(a)),
        archive_opens(*final(a)) == archive_opens(*old(a)),
        archive_times(*final(a)) == archive_times(*old(a)),
        r is Ok ==> i < archive_entries(*old(a)).len()
            && writer_entries(*final(w)) == writer_entries(*old(w)).push((name@, Some(Seq::<u8>::empty())))
            && writer_in_entry(*final(w)) && writer_stored(*final(w)) == writer_stored(*old(w)).push(None)
            && writer_times(*final(w)) == writer_times(*old(w)).push(
                Some(time_or_default(archive_times(*old(a))[i as int])),
            ),
        has_written_named(writer_entries(*old(w)), name@) ==> r is Err,
        i < archive_entries(*old(a)).len() && archive_entries(*old(a))[i as int].3 is Some
            && !has_written_named(writer_entries(*old(w)), name@) && written_fit(writer_entries(*old(w))) ==> r is Ok,
{
    let t = a.by_index_raw(i)?.last_modified().unwrap_or_default();
    let options = SimpleFileOptions::default()
        .compression_method(CompressionMethod::Deflated)
        .last_modified_time(t);
    w.inner.start_file(name, options)
}

/// Calls `Write::write_all` on the writer. Empty data succeed at once and change nothing
/// (std's `write_all` does not call `write` then). Otherwise, on success, `data` is added to the
/// contents of the entry being written (the last one); the zip crate refuses to write with no
/// entry open. With an entry open, it fails (writing to memory) only when that entry would pass
/// 4 GiB, so never while its contents fit (`data_fits`).
#[verifier::external_body]
pub(crate) fn writer_write_all(w: &mut ArchiveWriter, data: &[u8]) -> (r: Result<(), std::io::Error>)
    ensures
        data@.len() == 0 ==> r is Ok && writer_entries(*final(w)) == writer_entries(*old(w))
            && writer_in_entry(*final(w)) == writer_in_entry(*old(w))
            && writer_stored(*final(w)) == writer_stored(*old(w))
            && writer_times(*final(w)) == writer_times(*old(w)),
        r is Ok && data@.len() > 0 ==> writer_entries(*old(w)).len() > 0 && writer_entries(*final(w))
            == append_to_last(writer_entries(*old(w)), data@)
            && writer_in_entry(*final(w)) == writer_in_entry(*old(w))
            && writer_stored(*final(w)) == writer_stored(*old(w))
            && writer_times(*final(w)) == writer_times(*old(w)),
        writer_in_entry(*old(w)) && writer_entries(*old(w)).len() > 0 && (writer_entries(*old(w)).last().1 matches Some(d)
            && data_fits(d + data@)) ==> r is Ok,
{
    w.inner.write_all(data)
}

/// Calls `ZipArchive::by_index_raw` and hands the entry to `ZipWriter::raw_copy_file`: on
/// success an entry with the same name and the same compressed data follows the others (and
/// none is open), so it reads back as the source entry did: the copy keeps the compression
/// method, the CRC-32 and the compressed bytes (the stored form, for a readable entry). The crate refuses a name that is
/// already written; otherwise, for an entry that can be read and while the entries written so
/// far fit, it succeeds (the copy sets the zip64 option itself where the entry needs it). The
/// crate panics on a name whose UTF-8 form passes its 16-bit length field, hence the
/// `requires`.
#[verifier::external_body]
pub(crate) fn writer_raw_copy(w: &mut ArchiveWriter, a: &mut ZipArchive<Cursor<Vec<u8>>>, i: usize) -> (r: Result<(), ZipError>)
    requires
        i < archive_entries(*old(a)).len() ==> name_fits(archive_entries(*old(a))[i as int].0),
    ensures
        archive_entries(*final(a)) == archive_entries(*old(a)),
        archive_stored(*final(a)) == archive_stored(*old(a)),
        archive_opens(*final(a)) == archive_opens(*old(a)),
        archive_times(*final(a)) == archive_times(*old(a)),
        r is Ok ==> i < archive_entries(*old(a)).len() && writer_entries(*final(w)) == writer_entries(*old(w)).push(
            (archive_entries(*old(a))[i as int].0, archive_entries(*old(a))[i as int].3),
        ) && !writer_in_entry(*final(w)) && writer_stored(*final(w)) == writer_stored(*old(w)).push(
            if archive_entries(*old(a))[i as int].3 is Some { archive_stored(*old(a))[i as int] } else { None },
        ) && writer_times(*final(w)) == writer_times(*old(w)).push(
            if archive_entries(*old(a))[i as int].3 is Some { archive_times(*old(a))[i as int] } else { None },
        ),
        i < archive_entries(*old(a)).len() && has_written_named(writer_entries(*old(w)), archive_entries(*old(a))[i as int].0) ==> r is Err,
        i < archive_entries(*old(a)).len() && archive_entries(*old(a))[i as int].3 is Some
            && !has_written_named(writer_entries(*old(w)), archive_entries(*old(a))[i as int].0)
            && written_fit(writer_entries(*old(w))) ==> r is Ok,
{
    let f = a.by_index_raw(i)?;
    w.inner.raw_copy_file(f)
}

/// Calls `ZipWriter::finish` and takes the buffer: on success the bytes form an archive that
/// reads back as the written entries (same names in the same order, same contents where
/// known, each raw copy stored as its source was). As for any archive the crate reads, no two
/// entries share a name. Writing to
/// memory, it fails only in closing an open entry over 4 GiB, so never while the entries
/// written fit.
#[verifier::external_body]
pub(crate) fn writer_finish(w: ArchiveWriter) -> (r: Result<Vec<u8>, ZipError>)
    ensures
        r matches Ok(bytes) ==> reads_back_as(bytes@, writer_entries(w)),
        r matches Ok(bytes) ==> names_distinct(zip_parse(bytes@).unwrap()),
        r matches Ok(bytes) ==> stored_as(bytes@, writer_stored(w)),
        r matches Ok(bytes) ==> times_as(bytes@, writer_times(w)),
        written_fit(writer_entries(w)) ==> r is Ok,
{
    Ok(w.inner.finish()?.into_inner())
}

/// The text of a zip error (its `Display`). Nothing is claimed of it.
#[verifier::external_body]
pub(crate) fn zip_error_text(e: &ZipError) -> (r: String) {
    e.to_string()
}

/// The text of an I/O error (its `Display`). Nothing is claimed of it.
#[verifier::external_body]
pub(crate) fn io_error_text(e: &std::io::Error) -> (r: String) {
    e.to_string()
}

/// Whether an I/O error's kind is `ErrorKind::PermissionDenied`. Nothing is claimed of it.
#[verifier::external_body]
pub(crate) fn io_error_is_permission_denied(e: &std::io::Error) -> (r: bool) {
    e.kind() == std::io::ErrorKind::PermissionDenied
}

} // verus!
