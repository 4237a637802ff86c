use std::io::Cursor;
use std::io::Read;

use pawash::compression::{ArchiveBuilder, Compress, CompressError, PathProbe, SourceEntry};

fn dir(path: &str) -> SourceEntry {
    SourceEntry { path: path.as_bytes().to_vec(), is_file: false }
}

fn file(path: &str) -> SourceEntry {
    SourceEntry { path: path.as_bytes().to_vec(), is_file: true }
}

fn found_dir(path: &str) -> PathProbe {
    PathProbe { resolved: Some(path.as_bytes().to_vec()), is_dir: true }
}

fn missing() -> PathProbe {
    PathProbe { resolved: None, is_dir: false }
}

fn build(root: &str, entries: Vec<SourceEntry>, contents: Vec<Vec<u8>>) -> Vec<u8> {
    let mut b = ArchiveBuilder::new(root.as_bytes().to_vec());
    b.add_all(&entries, &contents).unwrap();
    b.finish().unwrap()
}

fn read_back(bytes: Vec<u8>) -> Vec<(String, bool, Vec<u8>)> {
    let mut archive = zip::ZipArchive::new(Cursor::new(bytes)).unwrap();
    let mut out = Vec::new();
    for i in 0..archive.len() {
        let mut f = archive.by_index(i).unwrap();
        let mut data = Vec::new();
        f.read_to_end(&mut data).unwrap();
        out.push((f.name().to_string(), f.is_dir(), data));
    }
    out
}

#[test]
fn name_gets_extension() {
    assert_eq!(Compress::validate_name("backup").unwrap(), "backup.zip");
}

#[test]
fn name_with_extension_unchanged() {
    assert_eq!(Compress::validate_name("x.zip").unwrap(), "x.zip");
}

#[test]
fn name_normalizing_twice_is_once() {
    let once = Compress::validate_name("report").unwrap();
    let twice = Compress::validate_name(&once).unwrap();
    assert_eq!(once, twice);
    assert_eq!(twice, "report.zip");
}

#[test]
fn name_extension_is_case_sensitive() {
    assert_eq!(Compress::validate_name("a.ZIP").unwrap(), "a.ZIP.zip");
}

#[test]
fn name_of_101_characters_too_long() {
    let name = "a".repeat(101);
    assert_eq!(Compress::validate_name(&name), Err(CompressError::NameTooLong));
}

#[test]
fn name_of_100_characters_accepted() {
    let name = "a".repeat(100);
    let n = Compress::validate_name(&name).unwrap();
    assert_eq!(n.len(), 104);
    assert!(n.ends_with(".zip"));
}

#[test]
fn name_length_counts_characters() {
    let name = "é".repeat(100);
    assert!(Compress::validate_name(&name).is_ok());
}

#[test]
fn validate_path_missing() {
    assert_eq!(Compress::validate_path(missing()), Err(CompressError::PathNotFound));
}

#[test]
fn validate_path_not_directory() {
    let probe = PathProbe { resolved: Some(b"/data/f".to_vec()), is_dir: false };
    assert_eq!(Compress::validate_path(probe), Err(CompressError::NotADirectory));
}

#[test]
fn validate_path_directory() {
    assert_eq!(Compress::validate_path(found_dir("/data")).unwrap(), b"/data".to_vec());
}

#[test]
fn prepare_plan() {
    let plan = Compress::prepare("backup", found_dir("/data"), found_dir("/out")).unwrap();
    assert_eq!(plan.file_name, "backup.zip");
    assert_eq!(plan.src_root, b"/data".to_vec());
    assert_eq!(plan.dest_dir, b"/out".to_vec());
}

#[test]
fn prepare_long_name_first() {
    let name = "b".repeat(101);
    let r = Compress::prepare(&name, missing(), missing());
    assert!(matches!(r, Err(CompressError::NameTooLong)));
}

#[test]
fn prepare_missing_source() {
    let r = Compress::prepare("backup", missing(), found_dir("/out"));
    assert!(matches!(r, Err(CompressError::PathNotFound)));
}

#[test]
fn prepare_source_checked_before_destination() {
    let not_dir = PathProbe { resolved: Some(b"/data".to_vec()), is_dir: false };
    let r = Compress::prepare("backup", not_dir, missing());
    assert!(matches!(r, Err(CompressError::NotADirectory)));
}

#[test]
fn prepare_destination_not_directory() {
    let not_dir = PathProbe { resolved: Some(b"/out".to_vec()), is_dir: false };
    let r = Compress::prepare("backup", found_dir("/data"), not_dir);
    assert!(matches!(r, Err(CompressError::NotADirectory)));
}

#[test]
fn single_file_without_root_entry() {
    let bytes = build(
        "/data",
        vec![dir("/data"), file("/data/notes.txt")],
        vec![vec![], b"hello notes".to_vec()],
    );
    let entries = read_back(bytes);
    assert_eq!(entries.len(), 1);
    assert_eq!(entries[0].0, "notes.txt");
    assert!(!entries[0].1);
    assert_eq!(entries[0].2, b"hello notes".to_vec());
}

#[test]
fn subdirectory_marker_and_file() {
    let content: Vec<u8> = (0u8..=255).chain(0u8..=255).collect();
    let bytes = build(
        "/data",
        vec![dir("/data"), dir("/data/sub"), file("/data/sub/f.bin")],
        vec![vec![], vec![], content.clone()],
    );
    let entries = read_back(bytes);
    assert_eq!(entries.len(), 2);
    assert_eq!(entries[0].0, "sub/");
    assert!(entries[0].1);
    assert_eq!(entries[1].0, "sub/f.bin");
    assert_eq!(entries[1].2, content);
}

#[test]
fn every_entry_once_round_trip() {
    let bytes = build(
        "/src",
        vec![
            dir("/src"),
            dir("/src/a"),
            file("/src/a/one.txt"),
            dir("/src/a/b"),
            file("/src/a/b/two.txt"),
            file("/src/top.txt"),
            file("/src/empty"),
        ],
        vec![vec![], vec![], b"1".to_vec(), vec![], b"22".to_vec(), b"top".to_vec(), vec![]],
    );
    let entries = read_back(bytes);
    let names: Vec<&str> = entries.iter().map(|e| e.0.as_str()).collect();
    assert_eq!(names, vec!["a/", "a/one.txt", "a/b/", "a/b/two.txt", "top.txt", "empty"]);
    assert_eq!(entries[1].2, b"1".to_vec());
    assert_eq!(entries[3].2, b"22".to_vec());
    assert_eq!(entries[4].2, b"top".to_vec());
    assert!(entries[5].2.is_empty());
}

#[test]
fn root_only_gives_empty_archive() {
    let entries = read_back(build("/data", vec![dir("/data")], vec![vec![]]));
    assert!(entries.is_empty());
}

#[test]
fn root_with_trailing_separator() {
    let entries = read_back(build("/", vec![dir("/"), file("/etc")], vec![vec![], b"x".to_vec()]));
    assert_eq!(entries.len(), 1);
    assert_eq!(entries[0].0, "etc");
}

#[test]
fn non_utf8_name_rejected() {
    let mut b = ArchiveBuilder::new(b"/data".to_vec());
    let e = SourceEntry { path: b"/data/\xff".to_vec(), is_file: true };
    assert_eq!(b.add_entry(&e, &vec![1]), Err(CompressError::NonUtf8Path(vec![0xff])));
}

#[test]
fn entry_outside_root_rejected() {
    let mut b = ArchiveBuilder::new(b"/data".to_vec());
    let e = file("/database/x");
    assert_eq!(b.add_entry(&e, &vec![]), Err(CompressError::EntryOutsideRoot(b"/database/x".to_vec())));
}

#[test]
fn add_all_stops_at_bad_entry() {
    let mut b = ArchiveBuilder::new(b"/data".to_vec());
    let r = b.add_all(&vec![file("/data/a"), file("/elsewhere")], &vec![vec![], vec![]]);
    assert_eq!(r, Err(CompressError::EntryOutsideRoot(b"/elsewhere".to_vec())));
}

#[test]
fn duplicate_file_name_is_io_failure() {
    let mut b = ArchiveBuilder::new(b"/data".to_vec());
    b.add_entry(&file("/data/a"), &vec![1]).unwrap();
    let r = b.add_entry(&file("/data/a"), &vec![2]);
    assert_eq!(r, Err(CompressError::IoFailure(b"/data/a".to_vec())));
}

#[test]
fn multibyte_names_kept() {
    let entries = read_back(build(
        "/data",
        vec![dir("/data"), dir("/data/été"), file("/data/été/ñ.txt")],
        vec![vec![], vec![], b"ok".to_vec()],
    ));
    assert_eq!(entries[0].0, "été/");
    assert_eq!(entries[1].0, "été/ñ.txt");
    assert_eq!(entries[1].2, b"ok".to_vec());
}

#[test]
fn directory_name_is_not_doubled() {
    let mut b = ArchiveBuilder::new(b"/data".to_vec());
    b.add_entry(&dir("/data/sub"), &vec![]).unwrap();
    let entries = read_back(b.finish().unwrap());
    assert_eq!(entries.len(), 1);
    assert_eq!(entries[0].0, "sub/");
}

#[test]
fn overlong_entry_name_rejected() {
    let mut b = ArchiveBuilder::new(b"/data".to_vec());
    let long = "n".repeat(65535);
    let e = file(&format!("/data/{long}"));
    assert_eq!(b.add_entry(&e, &vec![]), Err(CompressError::EntryNameTooLong(long.into_bytes())));
    assert!(read_back(b.finish().unwrap()).is_empty());
}

#[test]
fn longest_directory_name_accepted() {
    let mut b = ArchiveBuilder::new(b"/data".to_vec());
    let long = "d".repeat(65534);
    b.add_entry(&dir(&format!("/data/{long}")), &vec![]).unwrap();
    let entries = read_back(b.finish().unwrap());
    assert_eq!(entries.len(), 1);
    assert_eq!(entries[0].0.len(), 65535);
}

#[test]
fn naming_error_leaves_archive_usable() {
    let mut b = ArchiveBuilder::new(b"/data".to_vec());
    let bad = SourceEntry { path: b"/data/\xfe".to_vec(), is_file: true };
    assert!(b.add_entry(&bad, &vec![]).is_err());
    b.add_entry(&file("/data/ok"), &b"fine".to_vec()).unwrap();
    let entries = read_back(b.finish().unwrap());
    assert_eq!(entries.len(), 1);
    assert_eq!(entries[0].0, "ok");
}

#[test]
fn equal_walks_give_equal_archives() {
    let walk = || vec![dir("/data"), dir("/data/sub"), file("/data/sub/f.bin")];
    let contents = || vec![vec![], vec![], b"same bytes".to_vec()];
    assert_eq!(build("/data", walk(), contents()), build("/data", walk(), contents()));
}
