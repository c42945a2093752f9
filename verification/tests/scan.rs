use scan_moodle::collections::StringMap;
use scan_moodle::collections::StringSet;
use scan_moodle::moodle::categorise::PathCategory;
use scan_moodle::moodle::components::ComponentDiscovery;
use scan_moodle::moodle::dirroot_prefix;
use scan_moodle::moodle::is_excluded_from_scan;
use scan_moodle::moodle::scan::categorise_all;
use scan_moodle::moodle::scan::is_scanned;
use scan_moodle::moodle::scan::relative_unix_path;
use scan_moodle::moodle::scan::scan_file;
use scan_moodle::moodle::scan::Scan;
use scan_moodle::moodle::thirdparty::find_thirdparty_locations;
use scan_moodle::moodle::thirdparty::is_thirdparty;
use scan_moodle::moodle::thirdparty::manifest_dirs;
use scan_moodle::moodle::thirdparty::read_locations;
use scan_moodle::path_finder::PathNotation;
use scan_moodle::path_finder::PathResult;

fn parts(path: &str) -> Vec<String> {
    path.split('/').map(str::to_string).collect()
}

fn map(entries: &[(&str, &str)]) -> StringMap<String> {
    let mut map = StringMap::new();
    for &(name, path) in entries {
        map.insert(name.to_string(), path.to_string());
    }
    map
}

fn discovery() -> ComponentDiscovery {
    ComponentDiscovery {
        components: map(&[("core", "public/lib"), ("core_access", ""), ("mod_quiz", "public/mod/quiz")]),
        subsystems: StringMap::new(),
        plugin_types: map(&[("mod", "public/mod")]),
    }
}

fn scanned(files: &[(&str, &str)]) -> Scan {
    let notation = PathNotation::from_root(true);
    let files = files
        .iter()
        .map(|(file, source)| (file.to_string(), Some(scan_file(source.as_bytes(), file, &notation))))
        .collect();
    Scan::from_discovery(discovery(), notation, files)
}

#[test]
fn relative_paths_leave_the_root_out() {
    assert_eq!(relative_unix_path(&parts("srv/moodle"), &parts("srv/moodle/public/lib.php")), "public/lib.php");
    assert_eq!(relative_unix_path(&parts("srv/moodle"), &parts("srv/other/lib.php")), "srv/other/lib.php");
    assert_eq!(relative_unix_path(&parts("srv/moodle"), &parts("srv/moodle")), "");
}

#[test]
fn only_php_files_of_the_codebase_itself_are_scanned() {
    let mut thirdparty = StringSet::new();
    thirdparty.insert("public/lib/vendored".to_string());
    assert!(is_scanned(&thirdparty, "public/lib/setup.php"));
    assert!(is_scanned(&thirdparty, "setup.php"));
    assert!(!is_scanned(&thirdparty, "public/lib/setup.PHP"));
    assert!(!is_scanned(&thirdparty, "public/lib/.php"));
    assert!(!is_scanned(&thirdparty, "public/lib/setup.js"));
    assert!(!is_scanned(&thirdparty, "public/lib/vendored/a.php"));
    assert!(is_scanned(&thirdparty, "public/lib/vendored2/a.php"));
    assert!(!is_scanned(&thirdparty, "config-dist.php"));
    assert!(is_scanned(&thirdparty, "public/config-dist.php"));
    assert!(is_excluded_from_scan("config-dist.php"));
    assert!(!is_excluded_from_scan("config.php"));
}

#[test]
fn dirroot_depends_on_the_layout() {
    assert_eq!(dirroot_prefix(true), "public/");
    assert_eq!(dirroot_prefix(false), "");
}

#[test]
fn files_that_cannot_be_read_are_counted() {
    let results: Vec<PathResult> = Vec::new();
    let scan = Scan::from_discovery(
        discovery(),
        PathNotation::from_root(true),
        vec![("a.php".to_string(), None), ("b.php".to_string(), Some(results)), ("c.php".to_string(), None)],
    );
    assert_eq!(scan.failed_reads, 2);
    assert_eq!(scan.files.len(), 1);
    assert_eq!(scan.files[0].0, "b.php");
}

#[test]
fn bytes_that_are_no_text_do_not_stop_a_scan() {
    let results = scan_file(b"<?php // \xff\nrequire $CFG->libdir . '/x.php';", "public/a.php", &PathNotation::from_root(true));
    assert_eq!(results.len(), 1);
    assert_eq!(results[0].real_path, "public/lib/x.php");
    assert_eq!(results[0].line, 2);
}

#[test]
fn every_reference_is_resolved_and_categorised() {
    let scan = scanned(&[
        ("public/config.php", "<?php require_once(__DIR__ . '/../config.php');"),
        ("lib/setup.php", "<?php require_once(__DIR__ . '/../public/lib/setup.php');"),
        ("public/lib/setup.php", "<?php require_once(__DIR__ . '/classes/component.php');"),
        ("public/lib/classes/component.php", "<?php $x = $CFG->dirroot . '/a.php';"),
        (
            "public/mod/quiz/view.php",
            "<?php\nrequire($CFG->dirroot . '/mod/quiz/early.php');\nrequire(__DIR__ . '/../../config.php');\nrequire($CFG->libdir . '/x.php');\nrequire($CFG->dirroot . '/mod/quiz/lib.php');\n$a = $CFG->dirroot . '/mod/' . $name . '/lib.php';\n$b = \"$CFG->dirroot\";\n$c = \"$CFG->dirroot$path\";\n",
        ),
    ]);
    let references = categorise_all(&scan, "public");
    let found: Vec<(&str, &str, PathCategory)> = references
        .iter()
        .map(|reference| (reference.file.as_str(), reference.result.real_path.as_str(), reference.category))
        .collect();
    assert_eq!(
        found,
        vec![
            ("public/config.php", "config.php", PathCategory::Config),
            ("lib/setup.php", "public/lib/setup.php", PathCategory::PreComponent),
            ("public/lib/setup.php", "public/lib/classes/component.php", PathCategory::PreComponent),
            ("public/lib/classes/component.php", "public/a.php", PathCategory::Component),
            ("public/mod/quiz/view.php", "public/mod/quiz/early.php", PathCategory::PreComponent),
            ("public/mod/quiz/view.php", "public/config.php", PathCategory::Config),
            ("public/mod/quiz/view.php", "public/lib/x.php", PathCategory::StaticDifferentComponent),
            ("public/mod/quiz/view.php", "public/mod/quiz/lib.php", PathCategory::StaticSameComponent),
            ("public/mod/quiz/view.php", "public/mod/{$name}/lib.php", PathCategory::DynamicComponent),
            ("public/mod/quiz/view.php", "public", PathCategory::DirrootWrangling),
            ("public/mod/quiz/view.php", "public{$path}", PathCategory::VariableOnly),
        ]
    );
    assert_eq!(references[6].source_component.as_deref(), Some("mod_quiz"));
    assert_eq!(references[6].target.as_ref().unwrap().component, "core");
}

const MANIFEST: &str = "<?xml version=\"1.0\"?>\n<libraries>\n  <library>\n    <location> phpspreadsheet </location>\n    <name>x</name>\n  </library>\n  <library><location/></library>\n  <library><location>   </location></library>\n  <library><location>a&amp;b</location></library>\n</libraries>\n";

#[test]
fn manifests_declare_the_locations_they_name() {
    assert_eq!(
        read_locations("public/lib", MANIFEST),
        Some(vec!["public/lib/phpspreadsheet".to_string(), "public/lib/a&b".to_string()])
    );
    assert_eq!(read_locations("public/lib", "<libraries>"), None);
}

#[test]
fn thirdparty_locations_come_from_components_and_the_repository_lib() {
    let discovered = discovery();
    let dirs = manifest_dirs(&discovered);
    assert_eq!((0..dirs.len()).map(|i| dirs.at(i)).collect::<Vec<_>>(), vec!["lib", "public/lib", "public/mod/quiz"]);

    let locations = find_thirdparty_locations(
        &discovered,
        &map(&[("lib", MANIFEST), ("public/mod/quiz", "not xml"), ("elsewhere", MANIFEST)]),
    );
    assert_eq!((0..locations.len()).map(|i| locations.at(i)).collect::<Vec<_>>(), vec!["lib/a&b", "lib/phpspreadsheet"]);
    assert!(is_thirdparty(&locations, "lib/phpspreadsheet/src/x.php"));
    assert!(!is_thirdparty(&locations, "lib/phpspreadsheets"));
}

#[test]
fn literals_on_the_include_path_are_told_by_their_text() {
    let scan = scanned(&[(
        "public/lib/form/checkbox.php",
        "<?php require('HTML/a.php'); require(b\"PEAR/b.php\"); require('html/c.php');",
    )]);
    let categories: Vec<PathCategory> =
        categorise_all(&scan, "public").iter().map(|reference| reference.category).collect();
    assert_eq!(
        categories,
        vec![
            PathCategory::IncludePathRelative,
            PathCategory::IncludePathRelative,
            PathCategory::StaticSameComponent,
        ]
    );
}
