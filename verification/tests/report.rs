use scan_moodle::collections::StringMap;
use scan_moodle::moodle::components::ComponentDiscovery;
use scan_moodle::moodle::entrypoints::BootstrapKind;
use scan_moodle::moodle::entrypoints::BoundaryEdge;
use scan_moodle::moodle::entrypoints::FileClassification;
use scan_moodle::moodle::entrypoints::PreComponentExtent;
use scan_moodle::moodle::entrypoints::classify;
use scan_moodle::moodle::resolver::ComponentResolver;
use scan_moodle::moodle::scan::scan_file;
use scan_moodle::moodle::scan::Scan;
use scan_moodle::path_finder::PathNotation;
use scan_moodle::report::components::components_report;
use scan_moodle::report::components::components_summary;
use scan_moodle::report::components::type_dirs_report;
use scan_moodle::report::document::opt_to_string;
use scan_moodle::report::document::sanitize;
use scan_moodle::report::document::Document;
use scan_moodle::report::entrypoints::count_kinds;
use scan_moodle::report::entrypoints::entrypoints_report;
use scan_moodle::report::entrypoints::format_summary;
use scan_moodle::report::ownership::ownership_report;
use scan_moodle::report::paths::count_paths;
use scan_moodle::report::paths::failed_reads_message;
use scan_moodle::report::paths::paths_report;
use scan_moodle::report::paths::paths_summary;

fn map(entries: &[(&str, &str)]) -> StringMap<String> {
    let mut map = StringMap::new();
    for &(name, path) in entries {
        map.insert(name.to_string(), path.to_string());
    }
    map
}

fn discovery() -> ComponentDiscovery {
    let mut subsystems = StringMap::new();
    subsystems.insert("calendar".to_string(), Some("public/calendar".to_string()));
    subsystems.insert("access".to_string(), None);
    ComponentDiscovery {
        components: map(&[("mod_quiz", "public/mod/quiz"), ("core", "public/lib")]),
        subsystems,
        plugin_types: map(&[("mod", "public/mod")]),
    }
}

fn scan() -> Scan {
    let notation = PathNotation::new("public/");
    let source = b"<?php\n\nrequire($CFG->libdir . '/a,b.php');\n";
    let results = scan_file(source, "public/mod/quiz/view.php", &notation);
    Scan::from_discovery(discovery(), notation, vec![("public/mod/quiz/view.php".to_string(), Some(results))])
}

#[test]
fn summary_mentions_all_three_kinds() {
    let message = format_summary(12, "1.00s", 2, 5, 3);
    assert!(message.contains("found 2 cli, 5 other, 3 bootstrap-dependency files"));
    assert_eq!(
        message,
        "Scanned 12 PHP files in 1.00s, found 2 cli, 5 other, 3 bootstrap-dependency files"
    );
}

#[test]
fn the_report_of_paths_has_the_columns_that_were_asked_for() {
    let plain = "public/mod/quiz/view.php,3,15,40,\"$CFG->libdir . '/a,b.php'\",libdir,\"@/lib/a,b.php\",\"public/lib/a,b.php\"";
    let header = "\u{feff}file,line,start,end,code,kind,glyph_path,normalised_path";
    assert_eq!(paths_report(&scan(), "public", false, false), format!("{header}\r\n{plain}\r\n"));
    assert_eq!(
        paths_report(&scan(), "public", true, false),
        format!("{header},source_component,target_component,path_in_component\r\n{plain},mod_quiz,core,\"/a,b.php\"\r\n")
    );
    for resolve_components in [false, true] {
        assert_eq!(
            paths_report(&scan(), "public", resolve_components, true),
            format!(
                "{header},source_component,target_component,path_in_component,category\r\n{plain},mod_quiz,core,\"/a,b.php\",static-different-component\r\n"
            )
        );
    }
}

#[test]
fn paths_are_counted_and_summed_up() {
    assert_eq!(count_paths(&scan()), 1);
    assert_eq!(paths_summary(1, "2.50ms", 1), "Scanned 1 PHP files in 2.50ms, found 1 paths");
    assert_eq!(failed_reads_message(0), None);
    assert_eq!(failed_reads_message(3), Some("Failed to read 3 files".to_string()));
}

#[test]
fn components_are_reported_in_order() {
    assert_eq!(
        components_report(&discovery()),
        "\u{feff}component,path\r\ncore,public/lib\r\nmod_quiz,public/mod/quiz\r\n"
    );
    assert_eq!(components_summary(&discovery(), false), "Found 2 components");
}

#[test]
fn type_directories_are_reported_with_their_kind() {
    assert_eq!(
        type_dirs_report(&discovery()),
        "\u{feff}kind,name,path\r\nsubsystem,access,\r\nsubsystem,calendar,public/calendar\r\nplugintype,mod,public/mod\r\n"
    );
    assert_eq!(components_summary(&discovery(), true), "Found 2 subsystems and 1 plugin types");
}

#[test]
fn entry_points_are_reported_with_their_lines() {
    let edges = vec![BoundaryEdge::unbounded(12), BoundaryEdge { line: 40, reach_end: Some(44) }];
    let classifications = vec![
        FileClassification { file: "a.php".to_string(), kind: BootstrapKind::Other, extent: None },
        FileClassification {
            file: "admin/cli/b.php".to_string(),
            kind: BootstrapKind::Cli,
            extent: Some(PreComponentExtent::UpToLine(edges)),
        },
        FileClassification {
            file: "c.php".to_string(),
            kind: BootstrapKind::BootstrapDependency,
            extent: Some(PreComponentExtent::WholeFile),
        },
    ];
    assert_eq!(
        entrypoints_report(&classifications),
        "\u{feff}file,kind,line\r\na.php,other,\r\nadmin/cli/b.php,cli,12+40\r\nc.php,bootstrap-dependency,whole-file\r\n"
    );
    assert_eq!(count_kinds(&classifications), (1, 1, 1));
}

#[test]
fn fields_are_put_on_a_single_line() {
    assert_eq!(sanitize("a\tb\nc"), "a b\\nc");
    assert_eq!(opt_to_string(Some(17)), "17");
    assert_eq!(opt_to_string(None), "");
}

#[test]
fn fields_are_quoted_where_they_must_be() {
    let record = |fields: &[&str]| fields.iter().map(|field| field.to_string()).collect::<Vec<String>>();
    let mut document = Document::new(&record(&["a", "b"]));
    document.add_record(&record(&["", ""]));
    document.add_record(&record(&["x\"y", "1,2"]));
    document.add_record(&record(&["x\ry", " z "]));
    assert_eq!(document.finish(), "\u{feff}a,b\r\n,\r\n\"x\"\"y\",\"1,2\"\r\n\"x\ry\", z \r\n");
}

#[test]
fn files_with_work_before_the_boundary_are_reported_with_their_owner() {
    let notation = PathNotation::new("public/");
    let sources = [
        ("public/lib/classes/component.php", "<?php"),
        ("public/mod/quiz/early.php", "<?php"),
        ("public/mod/quiz/plain.php", "<?php require(__DIR__ . '/../../lib/classes/component.php');"),
        (
            "public/mod/quiz/view.php",
            "<?php\nrequire(__DIR__ . '/early.php');\nrequire(__DIR__ . '/../../lib/classes/component.php');\n",
        ),
    ];
    let files: Vec<_> = sources
        .iter()
        .map(|(file, source)| (file.to_string(), scan_file(source.as_bytes(), file, &notation)))
        .collect();
    let classifications = classify(&files, &notation);
    let resolver = ComponentResolver::new(&discovery());
    assert_eq!(
        ownership_report(&resolver, &files, &classifications),
        vec![
            format!("{:<55} bootstrap-dependency {:<12} mod_quiz <-- PLUGIN", "public/mod/quiz/early.php", "whole-file"),
            format!("{:<55} other {:<12} mod_quiz <-- PLUGIN", "public/mod/quiz/view.php", "3"),
        ]
    );
}
