//! Inspection and editing of OOXML packages (docx / xlsx / pptx), which are zip archives.
pub mod stdx;
pub mod text;
pub mod hexdump;
pub mod workbook;
pub mod paths;
pub mod types;
pub mod error;
pub mod codec;
pub mod package;
pub mod save;
pub mod backup;
pub mod laws;
pub mod zip_io;
