//! Opening a package, and reading its entries.
use crate::codec::{base64_encode, base64_standard};
use crate::error::ViewerError;
use crate::hexdump::{hex_dump, spec_hex_dump};
use crate::paths::{display_file_name, file_name_or_path};
use crate::stdx::{str_lowercase, string_from_utf8};
use crate::text::{detect_kind, is_image_path, is_textual_entry, spec_is_image, spec_is_textual, spec_kind};
use crate::types::{OpenResult, ReadEntryResult, ZipEntry};
use crate::workbook::{
    check_tags_closed, find_last, lookup_last, pair_views, parse_sheets, sheet_paths,
    sheet_texts_scannable, spec_parse_sheets, spec_sheet_paths, tags_closed,
};
use crate::zip_io::{
    archive_entries, archive_entry_info, archive_from_bytes, archive_index_for_name, archive_len,
    archive_opens, archive_read_entry, has_entry_named, names_distinct, zip_error_text, zip_is_dir,
    zip_opens, zip_parse,
    EntryReadFailure,
};
use std::io::Cursor;
use vstd::prelude::*;
use vstd::string::*;
use zip::ZipArchive;

verus! {

/// The index of the entry named `name` (meaningful where there is one).
pub open spec fn entry_index(es: Seq<(Seq<char>, u64, u64, Option<Seq<u8>>)>, name: Seq<char>) -> int {
    choose|i: int| 0 <= i < es.len() && es[i].0 == name
}

/// What reading the entry named `name` in full gives: `None` where there is no such entry or
/// it cannot be read.
pub open spec fn entry_bytes(es: Seq<(Seq<char>, u64, u64, Option<Seq<u8>>)>, name: Seq<char>) -> Option<Seq<u8>> {
    if has_entry_named(es, name) {
        es[entry_index(es, name)].3
    } else {
        None
    }
}

/// The text of the entry named `name`: `None` where it cannot be read or is not UTF-8.
pub open spec fn entry_text(es: Seq<(Seq<char>, u64, u64, Option<Seq<u8>>)>, name: Seq<char>) -> Option<Seq<char>> {
    match entry_bytes(es, name) {
        Some(d) => if vstd::utf8::valid_utf8(d) {
            Some(vstd::utf8::decode_utf8(d))
        } else {
            None
        },
        None => None,
    }
}

/// The worksheet path → sheet name pairs of a package.
pub open spec fn package_sheet_paths(es: Seq<(Seq<char>, u64, u64, Option<Seq<u8>>)>) -> Seq<(Seq<char>, Seq<char>)> {
    spec_sheet_paths(entry_text(es, "xl/workbook.xml"@), entry_text(es, "xl/_rels/workbook.xml.rels"@))
}

/// The workbook parts of a package (where it has them) can be scanned for sheets.
pub open spec fn package_scannable(es: Seq<(Seq<char>, u64, u64, Option<Seq<u8>>)>) -> bool {
    sheet_texts_scannable(entry_text(es, "xl/workbook.xml"@), entry_text(es, "xl/_rels/workbook.xml.rels"@))
}

/// With distinct names, the entry at `i` is the entry of its name.
pub proof fn lemma_entry_index(es: Seq<(Seq<char>, u64, u64, Option<Seq<u8>>)>, name: Seq<char>, i: int)
    requires
        names_distinct(es),
        0 <= i < es.len(),
        es[i].0 == name,
    ensures
        has_entry_named(es, name),
        entry_index(es, name) == i,
{
    assert(has_entry_named(es, name));
    let j = entry_index(es, name);
    assert(es[j].0 == name);
}

/// The view of an optional string.
pub open spec fn opt_string_view(o: Option<String>) -> Option<Seq<char>> {
    match o {
        Some(s) => Some(s@),
        None => None,
    }
}

/// Reads the entry named `name` as UTF-8 text.
fn read_entry_text(a: &mut ZipArchive<Cursor<Vec<u8>>>, name: &str) -> (r: Option<String>)
    requires
        names_distinct(archive_entries(*old(a))),
    ensures
        archive_entries(*final(a)) == archive_entries(*old(a)),
        archive_opens(*final(a)) == archive_opens(*old(a)),
        opt_string_view(r) == entry_text(archive_entries(*old(a)), name@),
{
    let ghost es = archive_entries(*a);
    match archive_index_for_name(a, name) {
        Err(_) => None,
        Ok(i) => {
            proof {
                lemma_entry_index(es, name@, i as int);
            }
            match archive_read_entry(a, i) {
                Err(_) => None,
                Ok((_, d)) => string_from_utf8(d),
            }
        },
    }
}

/// Whether the workbook parts that `package_scannable` speaks of can be scanned.
fn check_package_scannable(a: &mut ZipArchive<Cursor<Vec<u8>>>) -> (r: bool)
    requires
        names_distinct(archive_entries(*old(a))),
    ensures
        archive_entries(*final(a)) == archive_entries(*old(a)),
        r == package_scannable(archive_entries(*old(a))),
{
    let wb = read_entry_text(a, "xl/workbook.xml");
    let rels = read_entry_text(a, "xl/_rels/workbook.xml.rels");
    match &wb {
        None => true,
        Some(w) => {
            proof {
                reveal_strlit("<sheet");
                reveal_strlit("<Relationship");
            }
            if !check_tags_closed(w.as_str(), "<sheet") {
                return false;
            }
            let sheets = parse_sheets(w.as_str());
            if sheets.len() > 0 {
                match &rels {
                    Some(x) => check_tags_closed(x.as_str(), "<Relationship"),
                    None => true,
                }
            } else {
                true
            }
        },
    }
}

/// The worksheet path → sheet name pairs of an open package.
fn extract_sheet_names(a: &mut ZipArchive<Cursor<Vec<u8>>>) -> (r: Vec<(String, String)>)
    requires
        names_distinct(archive_entries(*old(a))),
        package_scannable(archive_entries(*old(a))),
    ensures
        archive_entries(*final(a)) == archive_entries(*old(a)),
        archive_opens(*final(a)) == archive_opens(*old(a)),
        pair_views(r@) == package_sheet_paths(archive_entries(*old(a))),
{
    let wb = read_entry_text(a, "xl/workbook.xml");
    let rels = read_entry_text(a, "xl/_rels/workbook.xml.rels");
    let w: Option<&str> = match &wb {
        Some(x) => Some(x.as_str()),
        None => None,
    };
    let x: Option<&str> = match &rels {
        Some(y) => Some(y.as_str()),
        None => None,
    };
    sheet_paths(w, x)
}

/// How an entry of the archive is listed, given the package's sheet paths.
pub open spec fn listed_as(
    e: ZipEntry,
    src: (Seq<char>, u64, u64, Option<Seq<u8>>),
    sheets: Seq<(Seq<char>, Seq<char>)>,
) -> bool {
    &&& e.path@ == src.0
    &&& e.name@ == file_name_or_path(src.0)
    &&& opt_string_view(e.display_name) == lookup_last(sheets, src.0)
    &&& e.is_dir == zip_is_dir(src.0)
    &&& e.size == src.1
    &&& e.compressed_size == src.2
}

/// The listing of a package file: its name, path, size and kind, and each entry in archive
/// order.
pub open spec fn opened_as(
    r: OpenResult,
    file_path: Seq<char>,
    file_size: u64,
    es: Seq<(Seq<char>, u64, u64, Option<Seq<u8>>)>,
) -> bool {
    &&& r.file_name@ == file_name_or_path(file_path)
    &&& r.file_path@ == file_path
    &&& r.file_size == file_size
    &&& r.kind@ == spec_kind(str_lowercase(file_path))
    &&& r.entries@.len() == es.len()
    &&& forall|i: int| 0 <= i < es.len() ==> listed_as(#[trigger] r.entries@[i], es[i], package_sheet_paths(es))
}

/// The first `n` entries can all be opened.
pub open spec fn all_open(opens: Seq<bool>, n: int) -> bool {
    forall|i: int| 0 <= i < n ==> #[trigger] opens[i]
}

/// Every entry can be read in full.
pub open spec fn all_readable(es: Seq<(Seq<char>, u64, u64, Option<Seq<u8>>)>) -> bool {
    forall|i: int| 0 <= i < es.len() ==> (#[trigger] es[i]).3 is Some
}

fn open_archive(
    a: &mut ZipArchive<Cursor<Vec<u8>>>,
    file_path: &str,
    file_size: u64,
) -> (r: Result<OpenResult, ViewerError>)
    requires
        names_distinct(archive_entries(*old(a))),
        package_scannable(archive_entries(*old(a))),
    ensures
        r matches Ok(res) ==> opened_as(res, file_path@, file_size, archive_entries(*old(a))),
        r matches Err(e) ==> e is Zip,
        all_readable(archive_entries(*old(a))) ==> r is Ok,
        r is Ok <==> all_open(archive_opens(*old(a)), archive_entries(*old(a)).len() as int),
{
    let ghost es = archive_entries(*a);
    let sheet_names = extract_sheet_names(a);
    let n = archive_len(a);
    let mut entries: Vec<ZipEntry> = Vec::new();
    let mut i: usize = 0;
    while i < n
        invariant
            n == es.len(),
            archive_entries(*a) == es,
            es == archive_entries(*old(a)),
            pair_views(sheet_names@) == package_sheet_paths(es),
            0 <= i <= n,
            entries@.len() == i,
            forall|k: int| 0 <= k < i ==> listed_as(#[trigger] entries@[k], es[k], package_sheet_paths(es)),
            archive_opens(*a) == archive_opens(*old(a)),
            forall|k: int| 0 <= k < i ==> #[trigger] archive_opens(*old(a))[k],
        decreases n - i,
    {
        let info = match archive_entry_info(a, i) {
            Ok(info) => info,
            Err(e) => {
                return Err(ViewerError::Zip(zip_error_text(&e)));
            },
        };
        let name = display_file_name(info.name.as_str());
        let display_name = find_last(&sheet_names, info.name.as_str());
        let entry = ZipEntry {
            display_name,
            is_dir: info.is_dir,
            size: info.size,
            compressed_size: info.compressed_size,
            path: info.name,
            name,
        };
        entries.push(entry);
        i = i + 1;
    }
    let file_name = display_file_name(file_path);
    let kind = detect_kind(file_path);
    Ok(OpenResult { file_name, file_path: String::from_str(file_path), file_size, kind, entries })
}

/// Opens a package from the bytes of its file: lists its entries (with each worksheet's sheet
/// name as display name), its file name and its kind. `file_size` is the size of the file on
/// disk. Fails where the bytes are not a zip archive, or where the zip crate cannot open an
/// entry.
pub fn open_ooxml(file_path: &str, file_size: u64, bytes: Vec<u8>) -> (r: Result<OpenResult, ViewerError>)
    requires
        zip_parse(bytes@) matches Some(es) ==> package_scannable(es),
    ensures
        r matches Err(ViewerError::NotZip(_)) <==> zip_parse(bytes@) is None,
        r matches Ok(res) ==> opened_as(res, file_path@, file_size, zip_parse(bytes@).unwrap()),
        r matches Err(e) ==> e is NotZip || e is Zip,
        zip_parse(bytes@) matches Some(es) && all_readable(es) ==> r is Ok,
        zip_parse(bytes@) matches Some(es) ==> (r is Ok <==> all_open(zip_opens(bytes@), es.len() as int)),
{
    let mut a = match archive_from_bytes(bytes) {
        Ok(a) => a,
        Err(e) => {
            return Err(ViewerError::NotZip(zip_error_text(&e)));
        },
    };
    open_archive(&mut a, file_path, file_size)
}

/// Opens a package as `open_ooxml` does, after checking that its workbook parts can be
/// scanned for sheets; where they cannot (a tag runs to the end without `>`), it gives
/// `UnterminatedTag`.
pub fn open_ooxml_checked(file_path: &str, file_size: u64, bytes: Vec<u8>) -> (r: Result<OpenResult, ViewerError>)
    ensures
        r matches Err(ViewerError::NotZip(_)) <==> zip_parse(bytes@) is None,
        r matches Err(ViewerError::UnterminatedTag) <==> (zip_parse(bytes@) matches Some(es) && !package_scannable(es)),
        r matches Ok(res) ==> opened_as(res, file_path@, file_size, zip_parse(bytes@).unwrap()),
        r matches Err(e) ==> e is NotZip || e is Zip || e is UnterminatedTag,
        zip_parse(bytes@) matches Some(es) && package_scannable(es) && all_readable(es) ==> r is Ok,
        zip_parse(bytes@) matches Some(es) ==> (package_scannable(es) ==> (r is Ok <==> all_open(
            zip_opens(bytes@),
            es.len() as int,
        ))),
{
    let copy = bytes.clone();
    assert(copy@ == bytes@);
    let mut a = match archive_from_bytes(bytes) {
        Ok(a) => a,
        Err(e) => {
            return Err(ViewerError::NotZip(zip_error_text(&e)));
        },
    };
    if !check_package_scannable(&mut a) {
        return Err(ViewerError::UnterminatedTag);
    }
    open_ooxml(file_path, file_size, copy)
}

} // verus!

verus! {

/// How an entry's data are shown: as text where the entry is a text entry and the data are
/// UTF-8; else as a hexadecimal preview of at most 2048 bytes. Gives (kind, content,
/// whether the preview is cut short).
pub open spec fn spec_entry_view(textual: bool, data: Seq<u8>) -> (Seq<char>, Seq<char>, bool) {
    if textual && vstd::utf8::valid_utf8(data) {
        ("text"@, vstd::utf8::decode_utf8(data), false)
    } else {
        ("binary"@, spec_hex_dump(data, 2048).0, spec_hex_dump(data, 2048).1)
    }
}

/// The result shows `data` of an entry of the given size as `spec_entry_view` says.
pub open spec fn shown_as(r: ReadEntryResult, textual: bool, size: u64, data: Seq<u8>) -> bool {
    &&& r.kind@ == spec_entry_view(textual, data).0
    &&& r.content@ == spec_entry_view(textual, data).1
    &&& r.size == size
    &&& r.preview_truncated == spec_entry_view(textual, data).2
}

/// Shows the data of an entry: as text where `textual` holds and the data are UTF-8, else as
/// a hexadecimal preview of the first 2048 bytes.
pub fn entry_view(textual: bool, size: u64, data: Vec<u8>) -> (r: ReadEntryResult)
    ensures
        shown_as(r, textual, size, data@),
{
    if textual {
        let copy = data.clone();
        assert(copy@ == data@);
        if let Some(s) = string_from_utf8(copy) {
            return ReadEntryResult {
                kind: String::from_str("text"),
                content: s,
                size,
                preview_truncated: false,
            };
        }
    }
    let (content, truncated) = hex_dump(data.as_slice(), 2048);
    ReadEntryResult { kind: String::from_str("binary"), content, size, preview_truncated: truncated }
}

/// What reading a present entry named `name` gives, once found: where it does not open, the
/// error that it cannot be read; where it opens, the directory error for a directory name,
/// else its data where they can be read and the extraction error where they cannot.
pub open spec fn read_outcome<T>(
    r: Result<T, ViewerError>,
    opens: Seq<bool>,
    es: Seq<(Seq<char>, u64, u64, Option<Seq<u8>>)>,
    name: Seq<char>,
) -> bool {
    if !opens[entry_index(es, name)] {
        r matches Err(ViewerError::CannotReadEntry { .. })
    } else if zip_is_dir(name) {
        r matches Err(ViewerError::DirectoryEntry)
    } else if es[entry_index(es, name)].3 is Some {
        r is Ok
    } else {
        r matches Err(ViewerError::ExtractionFailed(_))
    }
}

/// What extracting a present entry named `name` gives, once found: as `read_outcome`, but a
/// directory gives the error that a directory cannot be extracted.
pub open spec fn extract_outcome<T>(
    r: Result<T, ViewerError>,
    opens: Seq<bool>,
    es: Seq<(Seq<char>, u64, u64, Option<Seq<u8>>)>,
    name: Seq<char>,
) -> bool {
    if !opens[entry_index(es, name)] {
        r matches Err(ViewerError::CannotReadEntry { .. })
    } else if zip_is_dir(name) {
        r matches Err(ViewerError::CannotExtractDirectory)
    } else if es[entry_index(es, name)].3 is Some {
        r is Ok
    } else {
        r matches Err(ViewerError::ExtractionFailed(_))
    }
}

/// Reads the data of the entry named `path`, as `read_entry` and `read_image` do: its size and
/// data, or why it cannot be had (no such entry; a directory; the data cannot be read).
fn read_named(a: &mut ZipArchive<Cursor<Vec<u8>>>, path: &str) -> (r: Result<(u64, Vec<u8>), ViewerError>)
    requires
        names_distinct(archive_entries(*old(a))),
    ensures
        ({
            let es = archive_entries(*old(a));
            &&& !has_entry_named(es, path@) ==> (r matches Err(ViewerError::CannotReadEntry { .. }))
            &&& has_entry_named(es, path@) && es[entry_index(es, path@)].3 is Some ==> {
                if zip_is_dir(path@) {
                    (r matches Err(ViewerError::DirectoryEntry))
                } else {
                    r is Ok
                }
            }
            &&& r matches Ok(p) ==> has_entry_named(es, path@) && !zip_is_dir(path@)
                && es[entry_index(es, path@)].3 == Some(p.1@) && p.0 == es[entry_index(es, path@)].1
            &&& r matches Err(e) ==> (e is CannotReadEntry || e is DirectoryEntry
                || e is ExtractionFailed)
            &&& r matches Err(ViewerError::CannotReadEntry { path: p, .. }) ==> p@ == path@
            &&& has_entry_named(es, path@) ==> read_outcome(r, archive_opens(*old(a)), es, path@)
        }),
{
    let ghost es = archive_entries(*a);
    let i = match archive_index_for_name(a, path) {
        Ok(i) => i,
        Err(e) => {
            return Err(
                ViewerError::CannotReadEntry {
                    path: String::from_str(path),
                    detail: zip_error_text(&e),
                },
            );
        },
    };
    proof {
        lemma_entry_index(es, path@, i as int);
    }
    let pc = crate::stdx::chars_of(path);
    let slash = vec!['/'];
    let backslash = vec!['\\'];
    let is_dir = crate::text::chars_end_with(pc.as_slice(), slash.as_slice())
        || crate::text::chars_end_with(pc.as_slice(), backslash.as_slice());
    assert(is_dir == zip_is_dir(path@)) by {
        assert(slash@ =~= seq!['/']);
        assert(backslash@ =~= seq!['\\']);
        if path@.len() > 0 {
            assert(path@.subrange(path@.len() - 1, path@.len() as int) =~= seq![path@.last()]);
        }
    }
    match archive_read_entry(a, i) {
        Ok((size, data)) => {
            if is_dir {
                Err(ViewerError::DirectoryEntry)
            } else {
                Ok((size, data))
            }
        },
        Err(EntryReadFailure::Open(e)) => Err(
            ViewerError::CannotReadEntry { path: String::from_str(path), detail: zip_error_text(&e) },
        ),
        Err(EntryReadFailure::Read(e)) => {
            if is_dir {
                Err(ViewerError::DirectoryEntry)
            } else {
                Err(ViewerError::ExtractionFailed(crate::zip_io::io_error_text(&e)))
            }
        },
    }
}

/// Reads one entry of a package from the bytes of its file: text entries whose data are
/// UTF-8 as text, anything else as a hexadecimal preview of the first 2048 bytes.
pub fn read_entry(bytes: Vec<u8>, entry_path: &str) -> (r: Result<ReadEntryResult, ViewerError>)
    ensures
        r matches Err(ViewerError::NotZip(_)) <==> zip_parse(bytes@) is None,
        zip_parse(bytes@) matches Some(es) ==> {
            let textual = spec_is_textual(entry_path@, str_lowercase(entry_path@));
            &&& !has_entry_named(es, entry_path@) ==> (r matches Err(ViewerError::CannotReadEntry { .. }))
            &&& has_entry_named(es, entry_path@) ==> read_outcome(r, zip_opens(bytes@), es, entry_path@)
            &&& has_entry_named(es, entry_path@) && es[entry_index(es, entry_path@)].3 is Some ==> {
                if zip_is_dir(entry_path@) {
                    (r matches Err(ViewerError::DirectoryEntry))
                } else {
                    r is Ok
                }
            }
            &&& r matches Ok(v) ==> has_entry_named(es, entry_path@) && (es[entry_index(es, entry_path@)].3 matches Some(d)
                && shown_as(v, textual, es[entry_index(es, entry_path@)].1, d))
        },
        r matches Err(e) ==> (e is NotZip || e is CannotReadEntry || e is DirectoryEntry
            || e is ExtractionFailed),
        r matches Err(ViewerError::CannotReadEntry { path: p, .. }) ==> p@ == entry_path@,
{
    let mut a = match archive_from_bytes(bytes) {
        Ok(a) => a,
        Err(e) => {
            return Err(ViewerError::NotZip(zip_error_text(&e)));
        },
    };
    let (size, data) = read_named(&mut a, entry_path)?;
    let textual = is_textual_entry(entry_path);
    Ok(entry_view(textual, size, data))
}

/// Reads an image entry of a package from the bytes of its file, encoded in base64 (standard
/// alphabet, padded). Entries whose extension is not that of an image are refused first.
pub fn read_image(bytes: Vec<u8>, entry_path: &str) -> (r: Result<String, ViewerError>)
    ensures
        !spec_is_image(str_lowercase(entry_path@)) <==> r matches Err(ViewerError::PreviewUnsupported(_)),
        r matches Err(ViewerError::PreviewUnsupported(p)) ==> p@ == entry_path@,
        spec_is_image(str_lowercase(entry_path@)) ==> {
            &&& (r matches Err(ViewerError::NotZip(_))) <==> zip_parse(bytes@) is None
            &&& zip_parse(bytes@) matches Some(es) ==> {
                &&& !has_entry_named(es, entry_path@) ==> (r matches Err(ViewerError::CannotReadEntry { .. }))
                &&& has_entry_named(es, entry_path@) && es[entry_index(es, entry_path@)].3 is Some ==> {
                    if zip_is_dir(entry_path@) {
                        (r matches Err(ViewerError::DirectoryEntry))
                    } else {
                        r is Ok
                    }
                }
                &&& has_entry_named(es, entry_path@) ==> read_outcome(r, zip_opens(bytes@), es, entry_path@)
                &&& r matches Ok(s) ==> has_entry_named(es, entry_path@) && (es[entry_index(es, entry_path@)].3 matches Some(d)
                    && s@ == base64_standard(d))
            }
        },
        r matches Err(e) ==> (e is PreviewUnsupported || e is NotZip || e is CannotReadEntry
            || e is DirectoryEntry || e is ExtractionFailed),
        r matches Err(ViewerError::CannotReadEntry { path: p, .. }) ==> p@ == entry_path@,
{
    if !is_image_path(entry_path) {
        return Err(ViewerError::PreviewUnsupported(String::from_str(entry_path)));
    }
    let mut a = match archive_from_bytes(bytes) {
        Ok(a) => a,
        Err(e) => {
            return Err(ViewerError::NotZip(zip_error_text(&e)));
        },
    };
    let (_, data) = read_named(&mut a, entry_path)?;
    Ok(base64_encode(data.as_slice()))
}

} // verus!

verus! {

/// An entry path that may be extracted: not absolute, and with no `..` or root component.
pub open spec fn entry_path_confined(p: Seq<char>) -> bool {
    &&& !(p.len() > 0 && p[0] == '/')
    &&& !crate::paths::components(p).contains(seq!['.', '.'])
    &&& !crate::paths::components(p).contains(seq!['/'])
}

/// Where an entry is extracted to, or why it is not: a path ending in `/` names a directory;
/// a path that is absolute or climbs out is refused; and the destination must lie under
/// `dest_dir`, component by component.
pub open spec fn spec_extract_target(entry_path: Seq<char>, dest_dir: Seq<char>) -> Result<Seq<char>, ViewerError> {
    if crate::text::ends_with(entry_path, seq!['/']) {
        Err(ViewerError::CannotExtractDirectory)
    } else if !entry_path_confined(entry_path) {
        Err(ViewerError::InvalidEntryPath)
    } else {
        let dest = crate::paths::spec_join(dest_dir, entry_path);
        let dc = crate::paths::components(dest);
        let bc = crate::paths::components(dest_dir);
        if bc.len() <= dc.len() && dc.take(bc.len() as int) == bc {
            Ok(dest)
        } else {
            Err(ViewerError::DestinationOutOfBounds)
        }
    }
}

fn components_contain(c: &Vec<Vec<char>>, g: &[char]) -> (r: bool)
    ensures
        r == crate::paths::vec_views(c@).contains(g@),
{
    let ghost cv = crate::paths::vec_views(c@);
    let mut i: usize = 0;
    while i < c.len()
        invariant
            0 <= i <= c@.len(),
            cv == crate::paths::vec_views(c@),
            forall|k: int| 0 <= k < i ==> cv[k] != g@,
        decreases c@.len() - i,
    {
        if crate::paths::chars_eq(c[i].as_slice(), g) {
            assert(cv[i as int] == g@);
            return true;
        }
        i = i + 1;
    }
    false
}

/// Checks an entry path for extraction under `dest_dir`, and gives the destination path
/// (see `spec_extract_target`).
pub fn extract_target(entry_path: &str, dest_dir: &str) -> (r: Result<String, ViewerError>)
    ensures
        match spec_extract_target(entry_path@, dest_dir@) {
            Ok(d) => r matches Ok(x) && x@ == d,
            Err(ViewerError::CannotExtractDirectory) => r matches Err(ViewerError::CannotExtractDirectory),
            Err(ViewerError::InvalidEntryPath) => r matches Err(ViewerError::InvalidEntryPath),
            Err(_) => r matches Err(ViewerError::DestinationOutOfBounds),
        },
{
    let p = crate::stdx::chars_of(entry_path);
    let slash = vec!['/'];
    assert(slash@ =~= seq!['/']);
    if crate::text::chars_end_with(p.as_slice(), slash.as_slice()) {
        return Err(ViewerError::CannotExtractDirectory);
    }
    let comps = crate::paths::path_components(entry_path);
    let dotdot = vec!['.', '.'];
    assert(dotdot@ =~= seq!['.', '.']);
    if (p.len() > 0 && p[0] == '/') || components_contain(&comps, dotdot.as_slice())
        || components_contain(&comps, slash.as_slice()) {
        return Err(ViewerError::InvalidEntryPath);
    }
    let dest = crate::paths::join(dest_dir, entry_path);
    let dc = crate::paths::path_components(dest.as_str());
    let bc = crate::paths::path_components(dest_dir);
    if crate::paths::components_start_with(&dc, &bc) {
        Ok(dest)
    } else {
        Err(ViewerError::DestinationOutOfBounds)
    }
}

/// Reads an entry of a package for extraction under `dest_dir`: checks the entry path first
/// (see `extract_target`), then reads the entry; gives the destination path and the data to
/// write there. A directory entry cannot be extracted.
pub fn extract_entry(bytes: Vec<u8>, entry_path: &str, dest_dir: &str) -> (r: Result<(String, Vec<u8>), ViewerError>)
    ensures
        spec_extract_target(entry_path@, dest_dir@) matches Err(e) ==> match e {
            ViewerError::CannotExtractDirectory => r matches Err(ViewerError::CannotExtractDirectory),
            ViewerError::InvalidEntryPath => r matches Err(ViewerError::InvalidEntryPath),
            _ => r matches Err(ViewerError::DestinationOutOfBounds),
        },
        spec_extract_target(entry_path@, dest_dir@) matches Ok(dest) ==> {
            &&& (r matches Err(ViewerError::NotZip(_))) <==> zip_parse(bytes@) is None
            &&& zip_parse(bytes@) matches Some(es) ==> {
                &&& !has_entry_named(es, entry_path@) ==> (r matches Err(ViewerError::CannotReadEntry { .. }))
                &&& has_entry_named(es, entry_path@) && es[entry_index(es, entry_path@)].3 is Some ==> {
                    if zip_is_dir(entry_path@) {
                        (r matches Err(ViewerError::CannotExtractDirectory))
                    } else {
                        r is Ok
                    }
                }
                &&& has_entry_named(es, entry_path@) ==> extract_outcome(r, zip_opens(bytes@), es, entry_path@)
                &&& r matches Ok(p) ==> p.0@ == dest && has_entry_named(es, entry_path@)
                    && es[entry_index(es, entry_path@)].3 == Some(p.1@)
            }
        },
        r matches Err(e) ==> (e is CannotExtractDirectory || e is InvalidEntryPath
            || e is DestinationOutOfBounds || e is NotZip || e is CannotReadEntry
            || e is ExtractionFailed),
        r matches Err(ViewerError::CannotReadEntry { path: p, .. }) ==> p@ == entry_path@,
{
    let dest = extract_target(entry_path, dest_dir)?;
    let mut a = match archive_from_bytes(bytes) {
        Ok(a) => a,
        Err(e) => {
            return Err(ViewerError::NotZip(zip_error_text(&e)));
        },
    };
    match read_named(&mut a, entry_path) {
        Ok((_, data)) => Ok((dest, data)),
        Err(ViewerError::DirectoryEntry) => Err(ViewerError::CannotExtractDirectory),
        Err(e) => Err(e),
    }
}

} // verus!
