//! The errors of the package operations, and their messages.
use crate::stdx::{push_str, string_from_chars};
use crate::zip_io::{io_error_is_permission_denied, io_error_text};
use vstd::prelude::*;

verus! {

/// Why a package operation failed.
#[derive(Debug)]
pub enum ViewerError {
    /// The bytes are not a zip archive; the zip crate's explanation.
    NotZip(String),
    /// The zip crate failed; its explanation.
    Zip(String),
    /// The entry could not be found or opened.
    CannotReadEntry { path: String, detail: String },
    /// The entry is a directory.
    DirectoryEntry,
    /// The entry's data could not be read.
    ExtractionFailed(String),
    /// The entry is not an image that can be previewed.
    PreviewUnsupported(String),
    /// Only text entries may be added or updated; the offending path.
    TextOnly(String),
    /// A directory entry cannot be extracted.
    CannotExtractDirectory,
    /// The entry path is absolute or climbs out with `..`.
    InvalidEntryPath,
    /// The destination would lie outside the chosen directory.
    DestinationOutOfBounds,
    /// The backup does not lie beside the package file.
    BackupElsewhere,
    /// The backup's name is not that of a backup of this package file.
    InvalidBackup,
    /// A tag of the workbook (or of its relationships) runs to the end of the text without `>`.
    UnterminatedTag,
    /// A name to be written is longer than a zip archive can record (65535 bytes of UTF-8).
    NameTooLong,
}

/// The message shown for an error.
pub open spec fn spec_message(e: ViewerError) -> Seq<char> {
    match e {
        ViewerError::NotZip(d) => "Not a valid OOXML/ZIP file: "@ + d@,
        ViewerError::Zip(d) => d@,
        ViewerError::CannotReadEntry { path, detail } => "Cannot read entry ["@ + path@ + "]: "@
            + detail@,
        ViewerError::DirectoryEntry => "This is a directory entry"@,
        ViewerError::ExtractionFailed(d) => "Extraction failed: "@ + d@,
        ViewerError::PreviewUnsupported(p) => "Format not supported for preview: "@ + p@,
        ViewerError::TextOnly(p) => "Only text files can be written (.xml / .rels / .json, etc.): "@
            + p@,
        ViewerError::CannotExtractDirectory => "Cannot extract a directory entry"@,
        ViewerError::InvalidEntryPath => "Invalid entry path"@,
        ViewerError::DestinationOutOfBounds => "Destination path out of bounds"@,
        ViewerError::BackupElsewhere => "Backup file is not in the same directory as the original file"@,
        ViewerError::InvalidBackup => "Invalid backup file"@,
        ViewerError::UnterminatedTag => "Malformed workbook: a tag is not closed"@,
        ViewerError::NameTooLong => "Entry name is too long for a zip archive"@,
    }
}

impl ViewerError {
    /// The message shown for this error.
    pub fn message(&self) -> (r: String)
        ensures
            r@ == spec_message(*self),
    {
        let mut out: Vec<char> = Vec::new();
        match self {
            ViewerError::NotZip(d) => {
                push_str(&mut out, "Not a valid OOXML/ZIP file: ");
                push_str(&mut out, d.as_str());
            },
            ViewerError::Zip(d) => {
                push_str(&mut out, d.as_str());
            },
            ViewerError::CannotReadEntry { path, detail } => {
                push_str(&mut out, "Cannot read entry [");
                push_str(&mut out, path.as_str());
                push_str(&mut out, "]: ");
                push_str(&mut out, detail.as_str());
            },
            ViewerError::DirectoryEntry => {
                push_str(&mut out, "This is a directory entry");
            },
            ViewerError::ExtractionFailed(d) => {
                push_str(&mut out, "Extraction failed: ");
                push_str(&mut out, d.as_str());
            },
            ViewerError::PreviewUnsupported(p) => {
                push_str(&mut out, "Format not supported for preview: ");
                push_str(&mut out, p.as_str());
            },
            ViewerError::TextOnly(p) => {
                push_str(&mut out, "Only text files can be written (.xml / .rels / .json, etc.): ");
                push_str(&mut out, p.as_str());
            },
            ViewerError::CannotExtractDirectory => {
                push_str(&mut out, "Cannot extract a directory entry");
            },
            ViewerError::InvalidEntryPath => {
                push_str(&mut out, "Invalid entry path");
            },
            ViewerError::DestinationOutOfBounds => {
                push_str(&mut out, "Destination path out of bounds");
            },
            ViewerError::BackupElsewhere => {
                push_str(&mut out, "Backup file is not in the same directory as the original file");
            },
            ViewerError::InvalidBackup => {
                push_str(&mut out, "Invalid backup file");
            },
            ViewerError::UnterminatedTag => {
                push_str(&mut out, "Malformed workbook: a tag is not closed");
            },
            ViewerError::NameTooLong => {
                push_str(&mut out, "Entry name is too long for a zip archive");
            },
        }
        string_from_chars(out.as_slice())
    }
}

/// The message for a failed file operation: for a refused permission, a hint that macOS keeps
/// unsigned apps out of protected folders; else the action and the error's own text.
pub open spec fn spec_io_err_message(action: Seq<char>, permission_denied: bool, detail: Seq<char>) -> Seq<char> {
    if permission_denied {
        action + ": permission denied. macOS may block unsigned apps from accessing protected folders such as Desktop/Documents/Downloads. Please choose another folder, or build a signed .app."@
    } else {
        action + ": "@ + detail
    }
}

/// The message for a failed file operation, given whether permission was refused and the
/// error's text.
pub fn io_err_message(action: &str, permission_denied: bool, detail: &str) -> (r: String)
    ensures
        r@ == spec_io_err_message(action@, permission_denied, detail@),
{
    let mut out: Vec<char> = Vec::new();
    push_str(&mut out, action);
    if permission_denied {
        push_str(
            &mut out,
            ": permission denied. macOS may block unsigned apps from accessing protected folders such as Desktop/Documents/Downloads. Please choose another folder, or build a signed .app.",
        );
    } else {
        push_str(&mut out, ": ");
        push_str(&mut out, detail);
    }
    string_from_chars(out.as_slice())
}

/// The message for a failed file operation (see `io_err_message`); whether permission was
/// refused, and the error's text, come from the error.
pub fn io_err(action: &str, e: &std::io::Error) -> (r: String)
    ensures
        exists|denied: bool, detail: Seq<char>| r@ == spec_io_err_message(action@, denied, detail),
{
    let denied = io_error_is_permission_denied(e);
    let detail = io_error_text(e);
    io_err_message(action, denied, detail.as_str())
}

} // verus!
