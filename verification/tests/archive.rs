use mobile_zipper::archive::{
    build_zip_archive, sanitize_zip_name, zip_ready_message, ArchiveEntry, ArchiveError,
};
use std::io::{Cursor, Read};

#[test]
fn sanitize_trims_and_adds_extension() {
    assert_eq!(sanitize_zip_name("  my/files  "), "my_files.zip");
    assert_eq!(sanitize_zip_name("backup.zip"), "backup.zip");
    assert_eq!(sanitize_zip_name("notes.txt"), "notes.txt.zip");
}

#[test]
fn sanitize_falls_back_to_default_name() {
    assert_eq!(sanitize_zip_name(""), "archive.zip");
    assert_eq!(sanitize_zip_name(" \t\n"), "archive.zip");
}

#[test]
fn sanitize_trims_unicode_space() {
    assert_eq!(sanitize_zip_name("\u{3000}a b\u{00A0}"), "a b.zip");
}

#[test]
fn sanitize_is_idempotent_on_examples() {
    for raw in ["  x/y ", "", "a.zip", " .zip", "z"] {
        let once = sanitize_zip_name(raw);
        assert_eq!(sanitize_zip_name(&once), once);
    }
}

#[test]
fn ready_message_names_the_archive() {
    assert_eq!(zip_ready_message("archive.zip"), "ZIP ready: archive.zip");
}

fn read_back(bytes: Vec<u8>) -> Vec<(String, Vec<u8>)> {
    let mut archive = zip::ZipArchive::new(Cursor::new(bytes)).unwrap();
    let mut out = Vec::new();
    for i in 0..archive.len() {
        let mut file = archive.by_index(i).unwrap();
        let mut data = Vec::new();
        file.read_to_end(&mut data).unwrap();
        out.push((file.name().to_string(), data));
    }
    out
}

#[test]
fn archive_holds_entries_in_order() {
    let entries = vec![
        ArchiveEntry { path: "b/two.txt".to_string(), data: b"second file".to_vec() },
        ArchiveEntry { path: "a.txt".to_string(), data: b"first".to_vec() },
        ArchiveEntry { path: "empty.bin".to_string(), data: Vec::new() },
    ];
    let bytes = match build_zip_archive(&entries) {
        Ok(b) => b,
        Err(e) => panic!("{}", e.message()),
    };
    assert_eq!(
        read_back(bytes),
        vec![
            ("b/two.txt".to_string(), b"second file".to_vec()),
            ("a.txt".to_string(), b"first".to_vec()),
            ("empty.bin".to_string(), Vec::new()),
        ]
    );
}

#[test]
fn empty_archive_is_valid() {
    let bytes = build_zip_archive(&Vec::new()).ok().unwrap();
    assert!(!bytes.is_empty());
    assert_eq!(read_back(bytes), Vec::new());
}

#[test]
fn same_input_gives_same_archive() {
    let make = || vec![ArchiveEntry { path: "x".to_string(), data: vec![7u8; 1000] }];
    let a = build_zip_archive(&make()).ok().unwrap();
    let b = build_zip_archive(&make()).ok().unwrap();
    assert_eq!(a, b);
}

#[test]
fn duplicate_names_are_refused() {
    let entries = vec![
        ArchiveEntry { path: "x.txt".to_string(), data: b"1".to_vec() },
        ArchiveEntry { path: "x.txt".to_string(), data: b"2".to_vec() },
    ];
    match build_zip_archive(&entries) {
        Err(e @ ArchiveError::AddFile { index: 1, .. }) => {
            assert!(e.message().starts_with("Could not add file to ZIP: "));
        }
        _ => panic!("expected the second entry to be refused"),
    }
}

#[test]
fn error_messages_carry_detail() {
    let e = ArchiveError::WriteData { index: 0, detail: "disk".to_string() };
    assert_eq!(e.message(), "Could not write ZIP content: disk");
    let e = ArchiveError::Finish { detail: "end".to_string() };
    assert_eq!(e.message(), "Could not finalize ZIP: end");
}

#[test]
fn refused_entry_is_first_repeat() {
    let entries = vec![
        ArchiveEntry { path: "a".to_string(), data: b"1".to_vec() },
        ArchiveEntry { path: "b".to_string(), data: b"2".to_vec() },
        ArchiveEntry { path: "a".to_string(), data: b"3".to_vec() },
        ArchiveEntry { path: "b".to_string(), data: b"4".to_vec() },
    ];
    assert!(matches!(build_zip_archive(&entries), Err(ArchiveError::AddFile { index: 2, .. })));
}

#[test]
fn longest_recordable_name_is_accepted() {
    let name = "n".repeat(mobile_zipper::archive::MAX_NAME_BYTES);
    let entries = vec![ArchiveEntry { path: name.clone(), data: b"x".to_vec() }];
    let bytes = build_zip_archive(&entries).ok().unwrap();
    assert_eq!(read_back(bytes), vec![(name, b"x".to_vec())]);
}

#[test]
fn large_compressible_entry_round_trips() {
    let data = vec![42u8; 3_000_000];
    let entries = vec![ArchiveEntry { path: "big.bin".to_string(), data: data.clone() }];
    let bytes = build_zip_archive(&entries).ok().unwrap();
    assert!(bytes.len() < data.len());
    assert_eq!(read_back(bytes), vec![("big.bin".to_string(), data)]);
}
