use scan_moodle::rewrite::patches::all;
use scan_moodle::rewrite::patches::select;
use scan_moodle::rewrite::patches::ArchiveEntry;

fn packed(files: &[(&str, &[u8])]) -> Vec<u8> {
    let mut builder = tar::Builder::new(Vec::new());
    for &(name, contents) in files {
        let mut header = tar::Header::new_gnu();
        header.set_size(contents.len() as u64);
        header.set_mode(0o644);
        builder.append_data(&mut header, name, contents).unwrap();
    }
    let tar = builder.into_inner().unwrap();
    zstd::encode_all(tar.as_slice(), 3).unwrap()
}

fn entry(name: &str, is_file: bool, contents: &[u8]) -> ArchiveEntry {
    ArchiveEntry { name: name.to_string(), is_file, contents: contents.to_vec() }
}

#[test]
fn patches_come_sorted_by_name_and_nothing_else_comes() {
    let archive = packed(&[
        ("misc/b.patch", b"second"),
        ("README.md", b"no patch"),
        ("generic/z.patch", b"first\n\xff"),
        ("misc/paths.csv", b"a,b"),
    ]);
    let patches = all(&archive).unwrap();
    let found: Vec<(&str, &[u8])> =
        patches.iter().map(|patch| (patch.name.as_str(), patch.contents.as_slice())).collect();
    assert_eq!(
        found,
        vec![("generic/z.patch", &b"first\n\xff"[..]), ("misc/b.patch", &b"second"[..])]
    );
}

#[test]
fn an_archive_that_is_not_compressed_is_an_error() {
    assert!(all(b"not an archive").is_err());
}

#[test]
fn a_compressed_file_that_is_no_tar_archive_is_an_error() {
    let bytes = zstd::encode_all(&b"not a tar archive"[..], 3).unwrap();
    assert!(all(&bytes).is_err());
}

#[test]
fn an_archive_without_entries_has_no_patches() {
    assert!(all(&packed(&[])).unwrap().is_empty());
}

#[test]
fn directories_are_no_patches() {
    let patches = select(&vec![
        entry("b.patch", true, b"1"),
        entry("a.patch", false, b""),
        entry("a.patch", true, b"2"),
        entry("a.patch", true, b"3"),
    ]);
    let found: Vec<(&str, &[u8])> =
        patches.iter().map(|patch| (patch.name.as_str(), patch.contents.as_slice())).collect();
    assert_eq!(
        found,
        vec![("a.patch", &b"2"[..]), ("a.patch", &b"3"[..]), ("b.patch", &b"1"[..])]
    );
}
