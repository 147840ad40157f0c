# ooxml_viewer

The backend of a desktop viewer and editor for OOXML packages (docx, xlsx, pptx), which are
zip archives. It lists a package's entries (with each worksheet's sheet name), reads an entry
as text or as a hexadecimal preview, encodes images in base64, rewrites a package with
entries added, updated and deleted, extracts an entry under a directory without letting it
climb out, and keeps and restores backups of the package file.

## Layout

- `src/` is the library, verified with Verus. The zip and base64 crates are called through
  the trusted items in `src/zip_io.rs` and `src/codec.rs`, and a few standard-library calls
  through those in `src/stdx.rs`; everything else is proved against its contract.
  - `text.rs`, `hexdump.rs`, `paths.rs`, `workbook.rs`: classification of entry paths,
    the hexadecimal preview, path handling, and the scan of a workbook for its sheets.
  - `package.rs`: opening a package and reading, previewing and extracting its entries.
  - `save.rs`: rewriting a package with changes applied.
  - `backup.rs`: backup names, the choice of backups to keep, and the checks before a restore.
  - `laws.rs`: properties that span several operations, such as what a saved package reads
    back as.
- `tests/` runs the library on concrete packages built in memory.
- `app/` is the desktop side: file I/O, the clock and process id, and the commands that the
  user interface invokes.
