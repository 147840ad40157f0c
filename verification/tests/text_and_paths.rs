use ooxml_viewer::backup::{
    backup_file_name, backup_prefix, check_backup_name, check_restore, select_backups,
    stale_backups, temp_file_name,
};
use ooxml_viewer::error::{io_err, io_err_message, ViewerError};
use ooxml_viewer::hexdump::hex_dump;
use ooxml_viewer::package::entry_view;
use ooxml_viewer::paths::{display_file_name, file_name, join, path_components};
use ooxml_viewer::text::{detect_kind, is_image_path, is_textual_entry, kind_from_lowered};
use ooxml_viewer::types::BackupInfo;
use ooxml_viewer::workbook::{
    attr, check_tags_closed, find_last, parse_rels, parse_sheets, resolve_target, sheet_paths,
};

#[test]
fn detect_kind_by_extension() {
    assert_eq!(detect_kind("a/b/Report.DOCX"), "docx");
    assert_eq!(detect_kind("x.docm"), "docx");
    assert_eq!(detect_kind("x.XLSM"), "xlsx");
    assert_eq!(detect_kind("x.xlsx"), "xlsx");
    assert_eq!(detect_kind("deck.pptx"), "pptx");
    assert_eq!(detect_kind("deck.PpTm"), "pptx");
    assert_eq!(detect_kind("archive.zip"), "ooxml");
    assert_eq!(kind_from_lowered("x.XLSX"), "ooxml");
}

#[test]
fn textual_and_image_entries() {
    assert!(is_textual_entry("word/document.xml"));
    assert!(is_textual_entry("_rels/.RELS"));
    assert!(is_textual_entry("docProps/app.Json"));
    assert!(is_textual_entry("a.yaml"));
    assert!(is_textual_entry("media/logo.svg"));
    assert!(!is_textual_entry("media/logo.png"));
    assert!(!is_textual_entry("word/"));
    assert!(!is_textual_entry("word/x.bin"));
    assert!(is_image_path("media/A.PNG"));
    assert!(is_image_path("media/a.tiff"));
    assert!(is_image_path("media/a.jpeg"));
    assert!(!is_image_path("media/a.svg"));
    assert!(!is_image_path("word/document.xml"));
}

#[test]
fn hex_dump_exact_lines() {
    let (s, t) = hex_dump(&[0x89, 0x50, 0x4e, 0x47, 0x00, 0xff, 0xfe, 0xfd], 2048);
    assert!(!t);
    let expected = format!("00000000  89 50 4e 47 00 ff fe fd {}  |.PNG....|\n", " ".repeat(23));
    assert_eq!(s, expected);
    let data: Vec<u8> = (0x20u8..0x40).collect();
    let (s2, t2) = hex_dump(&data, 20);
    assert!(t2);
    let lines: Vec<&str> = s2.lines().collect();
    assert_eq!(lines.len(), 2);
    assert_eq!(
        lines[0],
        "00000000  20 21 22 23 24 25 26 27 28 29 2a 2b 2c 2d 2e 2f  | !\"#$%&'()*+,-./|"
    );
    assert_eq!(lines[1], format!("00000010  30 31 32 33 {} |0123|", " ".repeat(36)));
    let (empty, te) = hex_dump(&[], 16);
    assert_eq!(empty, "");
    assert!(!te);
}

#[test]
fn entry_view_text_and_binary() {
    let v = entry_view(true, 7, "héllo".as_bytes().to_vec());
    assert_eq!(v.kind, "text");
    assert_eq!(v.content, "héllo");
    assert_eq!(v.size, 7);
    let b = entry_view(false, 2, vec![0x41, 0x42]);
    assert_eq!(b.kind, "binary");
    assert!(b.content.contains("41 42"));
    assert!(b.content.ends_with("|AB|\n"));
}

#[test]
fn attr_values() {
    assert_eq!(attr(r#"<sheet name="S1" r:id="rId1"/>"#, "name").as_deref(), Some("S1"));
    assert_eq!(attr(r#"<sheet name="S1" r:id="rId1"/>"#, "r:id").as_deref(), Some("rId1"));
    assert_eq!(attr(r#"<sheet name="S1"/>"#, "r:id"), None);
    assert_eq!(attr(r#"<sheet name="unterminated"#, "name"), None);
    assert_eq!(attr(r#"<x name="""#, "name").as_deref(), Some(""));
    assert_eq!(attr(r#"<sheet sheetname="A" name="B"/>"#, "name").as_deref(), Some("A"));
}

#[test]
fn parse_sheets_and_rels() {
    let wb = r#"<sheets><sheet name="Sheet1" sheetId="1" r:id="rId1"/><sheet sheetId="2"/><sheet name="B"/></sheets>"#;
    assert!(check_tags_closed(wb, "<sheet"));
    let sheets = parse_sheets(wb);
    assert_eq!(
        sheets,
        vec![
            ("Sheet1".to_string(), "rId1".to_string()),
            ("B".to_string(), "".to_string())
        ]
    );
    let rels = r#"<Relationship Id="rId1" Target="worksheets/sheet1.xml"/><Relationship Id="" Target="x"/><Relationship Id="rId2" Target="/xl/worksheets/s2.xml"/>"#;
    assert!(check_tags_closed(rels, "<Relationship"));
    let r = parse_rels(rels);
    assert_eq!(
        r,
        vec![
            ("rId1".to_string(), "worksheets/sheet1.xml".to_string()),
            ("rId2".to_string(), "/xl/worksheets/s2.xml".to_string())
        ]
    );
    assert!(!check_tags_closed("<sheet name=\"a\"", "<sheet"));
    assert!(check_tags_closed("no tags", "<sheet"));
}

#[test]
fn resolve_targets() {
    assert_eq!(resolve_target("worksheets/sheet1.xml"), "xl/worksheets/sheet1.xml");
    assert_eq!(resolve_target("/xl/worksheets/sheet1.xml"), "xl/worksheets/sheet1.xml");
    assert_eq!(resolve_target("//a.xml"), "xl/a.xml");
    assert_eq!(resolve_target("xl/x.xml"), "xl/x.xml");
}

#[test]
fn sheet_paths_with_fallback_numbers() {
    let wb = r#"<sheet name="A" r:id="r1"/><sheet name="B" r:id="r9"/><sheet name="C"/>"#;
    let rels = r#"<Relationship Id="r1" Target="worksheets/a.xml"/>"#;
    let m = sheet_paths(Some(wb), Some(rels));
    assert_eq!(
        m,
        vec![
            ("xl/worksheets/a.xml".to_string(), "A".to_string()),
            ("xl/worksheets/sheet1.xml".to_string(), "B".to_string()),
            ("xl/worksheets/sheet2.xml".to_string(), "C".to_string()),
        ]
    );
    assert_eq!(find_last(&m, "xl/worksheets/sheet2.xml").as_deref(), Some("C"));
    assert_eq!(find_last(&m, "xl/none.xml"), None);
    assert!(sheet_paths(None, Some(rels)).is_empty());
}

#[test]
fn file_names_and_components() {
    assert_eq!(file_name("word/document.xml").as_deref(), Some("document.xml"));
    assert_eq!(file_name("word/").as_deref(), Some("word"));
    assert_eq!(file_name("foo.txt/.").as_deref(), Some("foo.txt"));
    assert_eq!(file_name("a/.."), None);
    assert_eq!(file_name("/"), None);
    assert_eq!(file_name("."), None);
    assert_eq!(file_name(""), None);
    assert_eq!(display_file_name("a/.."), "a/..");
    let c = path_components("/tmp//a/./b/../");
    let c: Vec<String> = c.iter().map(|v| v.iter().collect()).collect();
    assert_eq!(c, vec!["/", "tmp", "a", "b", ".."]);
    let d: Vec<String> = path_components("./x").iter().map(|v| v.iter().collect()).collect();
    assert_eq!(d, vec![".", "x"]);
    assert!(path_components("").is_empty());
    assert_eq!(join("/tmp/out", "word/a.xml"), "/tmp/out/word/a.xml");
    assert_eq!(join("/tmp/out/", "a.xml"), "/tmp/out/a.xml");
    assert_eq!(join("", "a.xml"), "a.xml");
    assert_eq!(join("/tmp", "/etc/x"), "/etc/x");
}

#[test]
fn backup_names() {
    assert_eq!(backup_prefix("/tmp/d/sample.docx"), ".sample.docx.ooxml-backup-");
    assert_eq!(backup_prefix("/"), ".ooxml.ooxml-backup-");
    assert_eq!(
        backup_file_name("/tmp/d/sample.docx", 42, 1234567890123),
        ".sample.docx.ooxml-backup-42-1234567890123.bak"
    );
    assert_eq!(temp_file_name("sample.docx", 7, 0), ".sample.docx.ooxml-save-7-0.tmp");
    assert!(check_backup_name(".s.docx.ooxml-backup-1-2.bak", ".s.docx.ooxml-backup-"));
    assert!(!check_backup_name(".s.docx.ooxml-backup-1-2.tmp", ".s.docx.ooxml-backup-"));
    assert!(!check_backup_name("not-a-backup.bak", ".s.docx.ooxml-backup-"));
}

fn info(path: &str, name: &str, modified_ms: u64) -> BackupInfo {
    BackupInfo { backup_path: path.to_string(), file_name: name.to_string(), size: 1, modified_ms }
}

#[test]
fn test_backup_restore() {
    let fp = "/tmp/ooxml_viewer_test_backup/sample.docx";
    assert!(select_backups(fp, &vec![]).is_empty());
    let listing = vec![
        info("/tmp/ooxml_viewer_test_backup/sample.docx", "sample.docx", 9),
        info(
            "/tmp/ooxml_viewer_test_backup/.sample.docx.ooxml-backup-1-5.bak",
            ".sample.docx.ooxml-backup-1-5.bak",
            5,
        ),
        info("/tmp/ooxml_viewer_test_backup/not-a-backup.bak", "not-a-backup.bak", 8),
        info(
            "/tmp/ooxml_viewer_test_backup/.sample.docx.ooxml-backup-1-7.bak",
            ".sample.docx.ooxml-backup-1-7.bak",
            7,
        ),
        info(
            "/tmp/ooxml_viewer_test_backup/.sample.docx.ooxml-backup-2-5.bak",
            ".sample.docx.ooxml-backup-2-5.bak",
            5,
        ),
    ];
    let backups = select_backups(fp, &listing);
    let names: Vec<&str> = backups.iter().map(|b| b.file_name.as_str()).collect();
    assert_eq!(
        names,
        vec![
            ".sample.docx.ooxml-backup-1-7.bak",
            ".sample.docx.ooxml-backup-1-5.bak",
            ".sample.docx.ooxml-backup-2-5.bak"
        ]
    );
    let stale = stale_backups(&backups, "/tmp/ooxml_viewer_test_backup/.sample.docx.ooxml-backup-1-7.bak");
    assert_eq!(
        stale,
        vec![
            "/tmp/ooxml_viewer_test_backup/.sample.docx.ooxml-backup-1-5.bak".to_string(),
            "/tmp/ooxml_viewer_test_backup/.sample.docx.ooxml-backup-2-5.bak".to_string()
        ]
    );

    assert!(check_restore(fp, &backups[0].backup_path).is_ok());
    let evil = "/tmp/ooxml_viewer_test_backup/../evil.bak";
    let err = check_restore(fp, evil).unwrap_err();
    assert!(err.message().contains("Backup"));
    let wrong = "/tmp/ooxml_viewer_test_backup/not-a-backup.bak";
    let err2 = check_restore(fp, wrong).unwrap_err();
    assert!(err2.message().contains("Invalid"));
}

#[test]
fn restore_directory_comparison_is_by_components() {
    assert!(check_restore("/a/b/s.docx", "/a//b/./.s.docx.ooxml-backup-1.bak").is_ok());
    assert!(check_restore("s.docx", ".s.docx.ooxml-backup-1.bak").is_ok());
    assert!(matches!(
        check_restore("s.docx", "./.s.docx.ooxml-backup-1.bak"),
        Err(ViewerError::BackupElsewhere)
    ));
    assert!(matches!(
        check_restore("/a/s.docx", "/a/"),
        Err(ViewerError::BackupElsewhere)
    ));
}

#[test]
fn io_error_messages() {
    assert_eq!(io_err_message("Failed to write file", false, "disk full"), "Failed to write file: disk full");
    assert!(io_err_message("Failed to write file", true, "x")
        .starts_with("Failed to write file: permission denied. macOS may block"));
    let e = std::io::Error::new(std::io::ErrorKind::PermissionDenied, "nope");
    assert!(io_err("Failed to create backup", &e).contains("permission denied. macOS"));
    let e2 = std::io::Error::new(std::io::ErrorKind::Other, "boom");
    assert_eq!(io_err("Failed to create backup", &e2), "Failed to create backup: boom");
}

#[test]
fn error_messages() {
    assert_eq!(ViewerError::InvalidEntryPath.message(), "Invalid entry path");
    assert_eq!(ViewerError::DestinationOutOfBounds.message(), "Destination path out of bounds");
    assert_eq!(
        ViewerError::BackupElsewhere.message(),
        "Backup file is not in the same directory as the original file"
    );
    assert_eq!(ViewerError::InvalidBackup.message(), "Invalid backup file");
    assert_eq!(
        ViewerError::TextOnly("a.png".to_string()).message(),
        "Only text files can be written (.xml / .rels / .json, etc.): a.png"
    );
    assert_eq!(
        ViewerError::PreviewUnsupported("a.xml".to_string()).message(),
        "Format not supported for preview: a.xml"
    );
    assert_eq!(ViewerError::ExtractionFailed("x".to_string()).message(), "Extraction failed: x");
    assert_eq!(ViewerError::CannotExtractDirectory.message(), "Cannot extract a directory entry");
}

#[test]
fn new_backup_is_restorable() {
    let fp = "/tmp/docs/report.xlsx";
    let name = backup_file_name(fp, 4242, 1_700_000_000_123_456_789);
    assert_eq!(name, ".report.xlsx.ooxml-backup-4242-1700000000123456789.bak");
    assert!(check_restore(fp, &join("/tmp/docs", &name)).is_ok());
    assert!(check_restore(fp, &join("/tmp/docs/", &name)).is_ok());
    assert!(check_restore("report.xlsx", &join("", &name)).is_ok());
    assert!(matches!(
        check_restore(fp, &join("/tmp/other", &name)),
        Err(ViewerError::BackupElsewhere)
    ));
}

#[test]
fn image_is_never_text() {
    assert!(is_textual_entry("word/media/x.svg"));
    assert!(!is_image_path("word/media/x.svg"));
    assert!(is_image_path("word/media/x.PNG"));
    assert!(!is_textual_entry("word/media/x.PNG"));
}
