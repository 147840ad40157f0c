//! The values that the package operations hand back.
use vstd::prelude::*;

verus! {

/// One entry of a package, as listed when the package is opened.
#[derive(Debug)]
pub struct ZipEntry {
    /// The full path inside the package, e.g. `word/document.xml`.
    pub path: String,
    /// The final component of the path.
    pub name: String,
    /// The sheet name shown for a worksheet part of a spreadsheet, if any.
    pub display_name: Option<String>,
    pub is_dir: bool,
    /// Size when uncompressed.
    pub size: u64,
    /// Size in the archive.
    pub compressed_size: u64,
}

/// An opened package.
#[derive(Debug)]
pub struct OpenResult {
    pub file_name: String,
    pub file_path: String,
    pub file_size: u64,
    /// `docx`, `xlsx`, `pptx` or `ooxml`.
    pub kind: String,
    pub entries: Vec<ZipEntry>,
}

/// The contents of one entry: text, or a hexadecimal preview of binary data.
#[derive(Debug)]
pub struct ReadEntryResult {
    /// `text` or `binary`.
    pub kind: String,
    pub content: String,
    pub size: u64,
    /// Whether the binary preview shows only the first part of the data.
    pub preview_truncated: bool,
}

/// A backup of a package file.
#[derive(Debug, Clone)]
pub struct BackupInfo {
    /// The backup's path.
    pub backup_path: String,
    /// The backup's file name, e.g. `.sample.docx.ooxml-backup-123-456.bak`.
    pub file_name: String,
    pub size: u64,
    /// When the backup was last modified, in milliseconds since the Unix epoch.
    pub modified_ms: u64,
}

/// A text entry to add or to update: its path and its new contents.
#[derive(Debug, Clone)]
pub struct EntryChange {
    pub path: String,
    pub content: String,
}

} // verus!
