use ooxml_viewer::error::ViewerError;
use ooxml_viewer::package::{extract_entry, open_ooxml_checked, read_entry, read_image};
use ooxml_viewer::save::{save_archive, save_archive_checked};
use ooxml_viewer::types::EntryChange;
use std::io::{Cursor, Read, Write};
use zip::write::SimpleFileOptions;
use zip::ZipWriter;

fn make_zip(files: &[(&str, &[u8])]) -> Vec<u8> {
    let mut out = Vec::new();
    {
        let mut w = ZipWriter::new(Cursor::new(&mut out));
        let opts = SimpleFileOptions::default();
        for (name, data) in files {
            w.start_file(*name, opts).unwrap();
            w.write_all(data).unwrap();
        }
        w.finish().unwrap();
    }
    out
}

fn make_sample_zip() -> Vec<u8> {
    make_zip(&[
        ("[Content_Types].xml", b"<Types/>"),
        ("word/document.xml", b"<w:document/>"),
        ("word/media/img1.png", &[0x89, 0x50, 0x4e, 0x47, 0x00, 0xff, 0xfe, 0xfd]),
    ])
}

const WORKBOOK: &str = r#"<workbook xmlns="http://schemas.openxmlformats.org/spreadsheetml/2006/main" xmlns:r="http://schemas.openxmlformats.org/officeDocument/2006/relationships">
  <sheets><sheet name="Sheet1" sheetId="1" r:id="rId1"/><sheet name="数据明细" sheetId="2" r:id="rId2"/></sheets>
</workbook>"#;

const WORKBOOK_RELS: &str = r#"<Relationships xmlns="http://schemas.openxmlformats.org/package/2006/relationships">
  <Relationship Id="rId1" Type="http://schemas.openxmlformats.org/officeDocument/2006/relationships/worksheet" Target="worksheets/sheet1.xml"/>
  <Relationship Id="rId2" Type="http://schemas.openxmlformats.org/officeDocument/2006/relationships/worksheet" Target="worksheets/sheet2.xml"/>
</Relationships>"#;

fn make_sample_xlsx() -> Vec<u8> {
    make_zip(&[
        ("xl/workbook.xml", WORKBOOK.as_bytes()),
        ("xl/_rels/workbook.xml.rels", WORKBOOK_RELS.as_bytes()),
        ("xl/worksheets/sheet1.xml", b"<worksheet/>"),
        ("xl/worksheets/sheet2.xml", b"<worksheet/>"),
    ])
}

fn change(path: &str, content: &str) -> EntryChange {
    EntryChange { path: path.to_string(), content: content.to_string() }
}

fn open(path: &str, bytes: &[u8]) -> ooxml_viewer::types::OpenResult {
    open_ooxml_checked(path, bytes.len() as u64, bytes.to_vec()).unwrap()
}

#[test]
fn test_open_read_update_roundtrip() {
    let bytes = make_sample_zip();
    let opened = open("/tmp/ooxml_viewer_test_roundtrip/sample.docx", &bytes);
    assert_eq!(opened.kind, "docx");
    assert_eq!(opened.entries.len(), 3);

    let r = read_entry(bytes.clone(), "word/document.xml").unwrap();
    assert_eq!(r.kind, "text");
    assert_eq!(r.content, "<w:document/>");

    let b = read_entry(bytes.clone(), "word/media/img1.png").unwrap();
    assert_eq!(b.kind, "binary");
    assert!(b.content.contains("89 50 4e 47"));

    let (saved, written) = save_archive(
        bytes.clone(),
        &vec![change("word/customXml/item1.xml", "<item>ok</item>")],
        &vec![change("word/document.xml", "<w:document><w:body/></w:document>")],
        &vec!["[Content_Types].xml".to_string()],
    )
    .unwrap();
    assert!(written > 0);

    let opened2 = open("/tmp/ooxml_viewer_test_roundtrip/sample.docx", &saved);
    assert_eq!(opened2.entries.len(), 3);

    let r2 = read_entry(saved.clone(), "word/document.xml").unwrap();
    assert_eq!(r2.content, "<w:document><w:body/></w:document>");

    let r3 = read_entry(saved.clone(), "word/customXml/item1.xml").unwrap();
    assert_eq!(r3.content, "<item>ok</item>");

    assert!(read_entry(saved.clone(), "[Content_Types].xml").is_err());

    let b2 = read_entry(saved.clone(), "word/media/img1.png").unwrap();
    assert_eq!(b2.kind, "binary");
    assert!(b2.content.contains("89 50 4e 47"));

    let err = save_archive(
        saved.clone(),
        &vec![],
        &vec![change("word/media/img1.png", "hack")],
        &vec![],
    )
    .unwrap_err();
    assert!(err.message().contains("Only text files can be written"));
}

#[test]
fn test_sheet_display_names() {
    let xlsx = make_sample_xlsx();
    let opened = open("/tmp/ooxml_viewer_test_sheets/sample.xlsx", &xlsx);
    assert_eq!(opened.kind, "xlsx");

    let sheet1 = opened.entries.iter().find(|e| e.path == "xl/worksheets/sheet1.xml").unwrap();
    assert_eq!(sheet1.display_name.as_deref(), Some("Sheet1"));

    let sheet2 = opened.entries.iter().find(|e| e.path == "xl/worksheets/sheet2.xml").unwrap();
    assert_eq!(sheet2.display_name.as_deref(), Some("数据明细"));

    let docx = make_sample_zip();
    let opened2 = open("/tmp/ooxml_viewer_test_sheets/plain.docx", &docx);
    assert!(opened2.entries.iter().all(|e| e.display_name.is_none()));
}

#[test]
fn test_extract_entry() {
    let docx = make_sample_zip();
    let dest = "/tmp/ooxml_viewer_test_extract/out";

    let (path, data) = extract_entry(docx.clone(), "word/document.xml", dest).unwrap();
    assert_eq!(data.len() as u64, "<w:document/>".len() as u64);
    assert_eq!(String::from_utf8(data).unwrap(), "<w:document/>");
    assert_eq!(path, "/tmp/ooxml_viewer_test_extract/out/word/document.xml");

    let (path2, data2) = extract_entry(docx.clone(), "word/media/img1.png", dest).unwrap();
    assert_eq!(path2, "/tmp/ooxml_viewer_test_extract/out/word/media/img1.png");
    assert_eq!(data2, vec![0x89, 0x50, 0x4e, 0x47, 0x00, 0xff, 0xfe, 0xfd]);

    let err = extract_entry(docx.clone(), "../evil.xml", dest).unwrap_err();
    assert!(err.message().contains("Invalid entry path"));
}

#[test]
fn test_read_image() {
    let docx = make_sample_zip();
    let b64 = read_image(docx.clone(), "word/media/img1.png").unwrap();
    assert!(b64.starts_with("iVBORwD"));
    assert_eq!(b64, "iVBORwD//v0=");

    let err = read_image(docx.clone(), "word/document.xml").unwrap_err();
    assert!(err.message().contains("not supported for preview"));
}

#[test]
fn open_lists_names_sizes_and_file_name() {
    let bytes = make_sample_zip();
    let opened = open("/tmp/dir/Report.DOCM", &bytes);
    assert_eq!(opened.kind, "docx");
    assert_eq!(opened.file_name, "Report.DOCM");
    assert_eq!(opened.file_path, "/tmp/dir/Report.DOCM");
    assert_eq!(opened.file_size, bytes.len() as u64);
    let names: Vec<&str> = opened.entries.iter().map(|e| e.name.as_str()).collect();
    assert_eq!(names, vec!["[Content_Types].xml", "document.xml", "img1.png"]);
    let paths: Vec<&str> = opened.entries.iter().map(|e| e.path.as_str()).collect();
    assert_eq!(paths, vec!["[Content_Types].xml", "word/document.xml", "word/media/img1.png"]);
    assert_eq!(opened.entries[1].size, 13);
    assert!(opened.entries.iter().all(|e| !e.is_dir));
}

#[test]
fn open_refuses_bytes_that_are_not_a_zip() {
    let err = open_ooxml_checked("x.docx", 5, b"hello".to_vec()).unwrap_err();
    assert!(matches!(err, ViewerError::NotZip(_)));
    assert!(err.message().starts_with("Not a valid OOXML/ZIP file: "));
    assert!(matches!(read_entry(b"hello".to_vec(), "a.xml"), Err(ViewerError::NotZip(_))));
}

#[test]
fn open_checked_reports_an_unterminated_sheet_tag() {
    let bytes = make_zip(&[("xl/workbook.xml", b"<workbook><sheets><sheet name=\"A\"")]);
    let err = open_ooxml_checked("book.xlsx", 1, bytes).unwrap_err();
    assert!(matches!(err, ViewerError::UnterminatedTag));
}

#[test]
fn sheets_without_relationships_get_numbered_paths() {
    let wb = r#"<sheets><sheet name="First" r:id="rIdX"/><sheet name="Second"/></sheets>"#;
    let bytes = make_zip(&[
        ("xl/workbook.xml", wb.as_bytes()),
        ("xl/worksheets/sheet1.xml", b"<worksheet/>"),
        ("xl/worksheets/sheet2.xml", b"<worksheet/>"),
    ]);
    let opened = open("b.xlsx", &bytes);
    assert_eq!(opened.entries[1].display_name.as_deref(), Some("First"));
    assert_eq!(opened.entries[2].display_name.as_deref(), Some("Second"));
    assert_eq!(opened.entries[0].display_name, None);
}

#[test]
fn read_entry_errors() {
    let mut out = Vec::new();
    {
        let mut w = ZipWriter::new(Cursor::new(&mut out));
        w.add_directory("word/", SimpleFileOptions::default()).unwrap();
        w.start_file("word/a.xml", SimpleFileOptions::default()).unwrap();
        w.write_all(b"<a/>").unwrap();
        w.finish().unwrap();
    }
    let missing = read_entry(out.clone(), "nope.xml").unwrap_err();
    assert!(matches!(missing, ViewerError::CannotReadEntry { .. }));
    assert!(missing.message().starts_with("Cannot read entry [nope.xml]: "));
    let dir = read_entry(out.clone(), "word/").unwrap_err();
    assert!(matches!(dir, ViewerError::DirectoryEntry));
    assert_eq!(dir.message(), "This is a directory entry");
    let ex = extract_entry(out.clone(), "word/", "/tmp/x").unwrap_err();
    assert!(matches!(ex, ViewerError::CannotExtractDirectory));
}

#[test]
fn invalid_utf8_text_entry_is_shown_as_binary() {
    let bytes = make_zip(&[("bad.xml", &[0x3c, 0xff, 0x3e])]);
    let r = read_entry(bytes, "bad.xml").unwrap();
    assert_eq!(r.kind, "binary");
    assert_eq!(r.size, 3);
    assert!(!r.preview_truncated);
    assert!(r.content.starts_with("00000000  3c ff 3e "));
}

#[test]
fn large_binary_preview_is_truncated() {
    let data: Vec<u8> = (0..3000u32).map(|i| (i % 256) as u8).collect();
    let bytes = make_zip(&[("big.bin", &data)]);
    let r = read_entry(bytes, "big.bin").unwrap();
    assert_eq!(r.kind, "binary");
    assert!(r.preview_truncated);
    assert_eq!(r.size, 3000);
    assert_eq!(r.content.lines().count(), 128);
}

#[test]
fn save_counts_written_bytes_and_keeps_order() {
    let bytes = make_sample_zip();
    let (saved, written) = save_archive(
        bytes,
        &vec![change("new.txt", "héllo")],
        &vec![change("word/document.xml", "<d/>")],
        &vec![],
    )
    .unwrap();
    assert_eq!(written, 4 + 6);
    let opened = open("s.docx", &saved);
    let paths: Vec<&str> = opened.entries.iter().map(|e| e.path.as_str()).collect();
    assert_eq!(
        paths,
        vec!["[Content_Types].xml", "word/document.xml", "word/media/img1.png", "new.txt"]
    );
    assert_eq!(read_entry(saved.clone(), "new.txt").unwrap().content, "héllo");
}

#[test]
fn save_add_wins_over_update_and_last_add_wins() {
    let bytes = make_sample_zip();
    let (saved, _) = save_archive(
        bytes,
        &vec![change("word/document.xml", "<first/>"), change("word/document.xml", "<second/>")],
        &vec![change("word/document.xml", "<update/>")],
        &vec![],
    )
    .unwrap();
    let opened = open("s.docx", &saved);
    assert_eq!(opened.entries.len(), 3);
    assert_eq!(read_entry(saved, "word/document.xml").unwrap().content, "<second/>");
}

#[test]
fn save_add_of_a_deleted_path_is_appended() {
    let bytes = make_sample_zip();
    let (saved, _) = save_archive(
        bytes,
        &vec![change("word/document.xml", "<new/>")],
        &vec![],
        &vec!["word/document.xml".to_string()],
    )
    .unwrap();
    let opened = open("s.docx", &saved);
    let paths: Vec<&str> = opened.entries.iter().map(|e| e.path.as_str()).collect();
    assert_eq!(paths, vec!["[Content_Types].xml", "word/media/img1.png", "word/document.xml"]);
    assert_eq!(read_entry(saved, "word/document.xml").unwrap().content, "<new/>");
}

#[test]
fn save_update_of_a_missing_entry_adds_nothing() {
    let bytes = make_sample_zip();
    let (saved, written) =
        save_archive(bytes, &vec![], &vec![change("word/none.xml", "<x/>")], &vec![]).unwrap();
    assert_eq!(written, 0);
    assert_eq!(open("s.docx", &saved).entries.len(), 3);
    assert!(read_entry(saved, "word/none.xml").is_err());
}

#[test]
fn save_without_changes_keeps_every_entry() {
    let bytes = make_sample_zip();
    let (saved, written) = save_archive(bytes.clone(), &vec![], &vec![], &vec![]).unwrap();
    assert_eq!(written, 0);
    for p in ["[Content_Types].xml", "word/document.xml", "word/media/img1.png"] {
        let a = read_entry(bytes.clone(), p).unwrap();
        let b = read_entry(saved.clone(), p).unwrap();
        assert_eq!(a.content, b.content);
        assert_eq!(a.kind, b.kind);
    }
}

#[test]
fn save_refuses_a_non_text_add_first() {
    let err = save_archive(
        b"not a zip".to_vec(),
        &vec![change("a.xml", "<a/>"), change("dir/", "x")],
        &vec![],
        &vec![],
    )
    .unwrap_err();
    match err {
        ViewerError::TextOnly(p) => assert_eq!(p, "dir/"),
        other => panic!("unexpected {:?}", other),
    }
    let err2 = save_archive(b"not a zip".to_vec(), &vec![], &vec![], &vec![]).unwrap_err();
    assert!(matches!(err2, ViewerError::NotZip(_)));
}

#[test]
fn save_gives_exact_count_and_order() {
    let bytes = make_sample_zip();
    let (saved, written) = save_archive_checked(
        bytes.clone(),
        &vec![change("word/customXml/item1.xml", "<item>ok</item>")],
        &vec![change("word/document.xml", "<w:document><w:body/></w:document>")],
        &vec!["[Content_Types].xml".to_string()],
    )
    .unwrap();
    assert_eq!(written, 49);
    let opened = open("/tmp/x/sample.docx", &saved);
    let paths: Vec<&str> = opened.entries.iter().map(|e| e.path.as_str()).collect();
    assert_eq!(paths, vec!["word/document.xml", "word/media/img1.png", "word/customXml/item1.xml"]);

    let (saved2, written2) = save_archive_checked(
        bytes.clone(),
        &vec![change("word/document.xml", "<a/>")],
        &vec![change("word/document.xml", "<b/>")],
        &vec![],
    )
    .unwrap();
    assert_eq!(written2, 4);
    let opened2 = open("/tmp/x/sample.docx", &saved2);
    let paths2: Vec<&str> = opened2.entries.iter().map(|e| e.path.as_str()).collect();
    assert_eq!(paths2, vec!["[Content_Types].xml", "word/document.xml", "word/media/img1.png"]);
    assert_eq!(read_entry(saved2, "word/document.xml").unwrap().content, "<a/>");
}

#[test]
fn save_refuses_name_too_long() {
    let bytes = make_sample_zip();
    let long = format!("{}.xml", "a".repeat(70000));
    let err = save_archive_checked(bytes.clone(), &vec![change(&long, "<x/>")], &vec![], &vec![]).unwrap_err();
    assert!(matches!(err, ViewerError::NameTooLong));
    // An update of a path the package lacks writes nothing either.
    let ok2 = save_archive_checked(bytes, &vec![], &vec![change(&long, "<x/>")], &vec![]);
    assert!(ok2.is_ok());
}

#[test]
fn missing_entry_error_names_the_path() {
    let bytes = make_sample_zip();
    let err = read_entry(bytes.clone(), "no/such.xml").unwrap_err();
    assert!(err.message().starts_with("Cannot read entry [no/such.xml]: "));
    let err2 = read_image(bytes.clone(), "no/such.png").unwrap_err();
    assert!(err2.message().starts_with("Cannot read entry [no/such.png]: "));
    let err3 = extract_entry(bytes, "no/such.bin", "/tmp/out").unwrap_err();
    assert!(err3.message().starts_with("Cannot read entry [no/such.bin]: "));
}

#[test]
fn extract_refusals_are_exact() {
    let bytes = make_sample_zip();
    assert!(matches!(extract_entry(bytes.clone(), "../evil.xml", "/tmp/out"), Err(ViewerError::InvalidEntryPath)));
    assert!(matches!(extract_entry(bytes.clone(), "/etc/passwd", "/tmp/out"), Err(ViewerError::InvalidEntryPath)));
    assert!(matches!(extract_entry(bytes.clone(), "word/", "/tmp/out"), Err(ViewerError::CannotExtractDirectory)));
    assert!(matches!(extract_entry(b"not a zip".to_vec(), "../evil.xml", "/tmp/out"), Err(ViewerError::InvalidEntryPath)));
}

#[test]
fn image_base64_is_exact() {
    let bytes = make_sample_zip();
    assert_eq!(read_image(bytes, "word/media/img1.png").unwrap(), "iVBORwD//v0=");
}

fn stored_form(bytes: &[u8], name: &str) -> (u32, zip::CompressionMethod, Vec<u8>) {
    let mut a = zip::ZipArchive::new(Cursor::new(bytes.to_vec())).unwrap();
    let i = a.index_for_name(name).unwrap();
    let mut f = a.by_index_raw(i).unwrap();
    let mut raw = Vec::new();
    f.read_to_end(&mut raw).unwrap();
    (f.crc32(), f.compression(), raw)
}

#[test]
fn untouched_entry_keeps_its_stored_form() {
    let bytes = make_zip(&[
        ("word/document.xml", b"<w:document/>"),
        ("word/media/img1.png", &[0x89, 0x50, 0x4e, 0x47, 0x00, 0xff, 0xfe, 0xfd, 1, 1, 1, 1, 1, 1, 1, 1]),
    ]);
    let (saved, _) = save_archive_checked(
        bytes.clone(),
        &vec![],
        &vec![change("word/document.xml", "<w:document><w:body/></w:document>")],
        &vec![],
    )
    .unwrap();
    assert_eq!(stored_form(&saved, "word/media/img1.png"), stored_form(&bytes, "word/media/img1.png"));
}

fn make_timed_zip() -> Vec<u8> {
    let mut out = Vec::new();
    {
        let mut w = ZipWriter::new(Cursor::new(&mut out));
        let t = zip::DateTime::from_date_and_time(2020, 5, 6, 7, 8, 10).unwrap();
        let opts = SimpleFileOptions::default().last_modified_time(t);
        w.start_file("word/document.xml", opts).unwrap();
        w.write_all(b"<w:document/>").unwrap();
        w.start_file("word/media/img1.png", opts).unwrap();
        w.write_all(&[0x89, 0x50, 0x4e, 0x47]).unwrap();
        w.finish().unwrap();
    }
    out
}

fn time_and_size(bytes: &[u8], name: &str) -> ((u16, u16), u64) {
    let mut a = zip::ZipArchive::new(Cursor::new(bytes.to_vec())).unwrap();
    let i = a.index_for_name(name).unwrap();
    let f = a.by_index_raw(i).unwrap();
    let t = f.last_modified().unwrap();
    ((t.datepart(), t.timepart()), f.size())
}

#[test]
fn kept_entries_keep_time_and_size() {
    let bytes = make_timed_zip();
    let (saved, _) = save_archive_checked(
        bytes.clone(),
        &vec![],
        &vec![change("word/document.xml", "<w:document><w:body/></w:document>")],
        &vec![],
    )
    .unwrap();
    assert_eq!(time_and_size(&saved, "word/document.xml").0, time_and_size(&bytes, "word/document.xml").0);
    assert_eq!(time_and_size(&saved, "word/media/img1.png"), time_and_size(&bytes, "word/media/img1.png"));
}

#[test]
fn directory_entry_that_cannot_be_read() {
    let mut out = Vec::new();
    {
        let mut w = ZipWriter::new(Cursor::new(&mut out));
        let opts = SimpleFileOptions::default().compression_method(zip::CompressionMethod::Stored);
        w.start_file("d\\", opts).unwrap();
        w.write_all(b"hello").unwrap();
        w.finish().unwrap();
    }
    let pos = out.windows(5).position(|x| x == b"hello").unwrap();
    out[pos] = b'j';
    assert!(matches!(read_entry(out.clone(), "d\\"), Err(ViewerError::DirectoryEntry)));
    assert!(matches!(extract_entry(out.clone(), "d\\", "/tmp/out"), Err(ViewerError::CannotExtractDirectory)));
}
