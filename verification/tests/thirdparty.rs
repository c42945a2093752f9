use scan_moodle::collections::StringSet;
use scan_moodle::moodle::thirdparty::is_thirdparty;

#[test]
fn exact_and_nested_paths_are_thirdparty() {
    let mut locations = StringSet::new();
    locations.insert("public/lib/phpspreadsheet/phpspreadsheet".to_string());
    assert!(is_thirdparty(&locations, "public/lib/phpspreadsheet/phpspreadsheet"));
    assert!(is_thirdparty(&locations, "public/lib/phpspreadsheet/phpspreadsheet/src/Writer/Xlsx/Rels.php"));
}

#[test]
fn unrelated_and_sibling_paths_are_not_thirdparty() {
    let mut locations = StringSet::new();
    locations.insert("public/lib/phpspreadsheet/phpspreadsheet".to_string());
    assert!(!is_thirdparty(&locations, "public/lib/moodlelib.php"));
    // A sibling directory sharing the same prefix must not be matched by a bare `starts_with`.
    assert!(!is_thirdparty(&locations, "public/lib/phpspreadsheet/phpspreadsheet2/lib.php"));
}
