use scan_moodle::collections::StringSet;
use scan_moodle::moodle::categorise::PathCategory;
use scan_moodle::moodle::resolver::Resolution;
use scan_moodle::moodle::scan::CategorisedReference;
use scan_moodle::path_finder::find_paths;
use scan_moodle::path_finder::PathNotation;
use scan_moodle::rewrite::output::write_audit;
use scan_moodle::rewrite::splice::can_plan;
use scan_moodle::rewrite::splice::plan;
use scan_moodle::rewrite::splice::rewrite_file;
use scan_moodle::rewrite::splice::splice;
use scan_moodle::rewrite::splice::Edit;
use scan_moodle::rewrite::splice::Plan;

fn resolution(component: &str, path_in_component: &str) -> Resolution {
    Resolution { component: component.to_string(), path_in_component: path_in_component.to_string() }
}

fn planned(references: &[CategorisedReference], entry_points: &StringSet) -> Plan {
    assert!(can_plan(references, entry_points));
    plan(references, entry_points)
}

/// The contents of `file`, which holds `source`, once `plan` has been carried out.
fn carried_out(plan: &Plan, file: &str, source: &str) -> String {
    match plan.edits.get(file) {
        Some(edits) => {
            String::from_utf8(rewrite_file(source.as_bytes(), edits).expect("the edits fit")).unwrap()
        }
        None => source.to_string(),
    }
}

#[test]
fn rewrites_a_single_reference_in_place() {
    let source = "<?php\nrequire_once($CFG->dirroot . '/mod/quiz/lib.php');\n";
    let notation = PathNotation::new("public/");
    let mut results = find_paths(source, "public/mod/quiz/view.php", &notation);
    assert_eq!(results.len(), 1);

    let reference = CategorisedReference {
        file: "public/mod/quiz/view.php".to_string(),
        result: results.remove(0),
        source_component: None,
        target: Some(resolution("mod_quiz", "/lib.php")),
        category: PathCategory::StaticSameComponent,
    };

    let plan = planned(&[reference], &StringSet::new());

    assert_eq!(plan.rewritten, 1);
    assert_eq!(
        carried_out(&plan, "public/mod/quiz/view.php", source),
        "<?php\nrequire_once(__DIR__ . '/lib.php');\n"
    );
}

#[test]
fn multiple_edits_in_the_same_file_do_not_clobber_each_other() {
    let source = "<?php\nrequire_once($CFG->dirroot . '/mod/quiz/lib.php');\nrequire_once($CFG->dirroot . '/mod/quiz/locallib.php');\n";
    let notation = PathNotation::new("public/");
    let results = find_paths(source, "public/mod/quiz/view.php", &notation);
    assert_eq!(results.len(), 2);

    let references: Vec<CategorisedReference> = results
        .into_iter()
        .map(|result| {
            let path_in_component = if result.real_path.ends_with("locallib.php") {
                "/locallib.php"
            } else {
                "/lib.php"
            };
            CategorisedReference {
                file: "public/mod/quiz/view.php".to_string(),
                result,
                source_component: None,
                target: Some(resolution("mod_quiz", path_in_component)),
                category: PathCategory::StaticSameComponent,
            }
        })
        .collect();

    let plan = planned(&references, &StringSet::new());

    assert_eq!(plan.rewritten, 2);
    assert_eq!(
        carried_out(&plan, "public/mod/quiz/view.php", source),
        "<?php\nrequire_once(__DIR__ . '/lib.php');\nrequire_once(__DIR__ . '/locallib.php');\n"
    );
}

#[test]
fn a_pre_component_literal_targeting_a_bootstrap_file_still_gets_dir_relative() {
    let source = "<?php\nrequire_once('component.php');\n";
    let notation = PathNotation::new("public/");
    let mut results = find_paths(source, "public/lib/setup.php", &notation);
    assert_eq!(results.len(), 1);
    // The bare literal resolves relative to the referencing file's own directory.
    assert_eq!(results[0].real_path, "public/lib/component.php");

    let reference = CategorisedReference {
        file: "public/lib/setup.php".to_string(),
        result: results.remove(0),
        source_component: None,
        // The target makes no difference to this category.
        target: Some(resolution("core", "/component.php")),
        category: PathCategory::PreComponentLiteral,
    };

    let mut entry_point_files = StringSet::new();
    entry_point_files.insert("public/lib/setup.php".to_string());
    entry_point_files.insert("public/lib/component.php".to_string());
    let plan = planned(&[reference], &entry_point_files);

    assert_eq!(plan.rewritten, 1);
    assert_eq!(
        carried_out(&plan, "public/lib/setup.php", source),
        "<?php\nrequire_once(__DIR__ . '/component.php');\n"
    );
}

#[test]
fn an_ineligible_category_is_left_untouched() {
    let source = "<?php\nrequire_once($CFG->dirroot);\n";
    let notation = PathNotation::new("public/");
    let mut results = find_paths(source, "public/mod/quiz/view.php", &notation);
    assert_eq!(results.len(), 1);

    let reference = CategorisedReference {
        file: "public/mod/quiz/view.php".to_string(),
        result: results.remove(0),
        source_component: None,
        target: Some(resolution("root", "/public")),
        category: PathCategory::DirrootWrangling,
    };

    let plan = planned(&[reference], &StringSet::new());

    assert_eq!(plan.rewritten, 0);
    assert_eq!(
        carried_out(&plan, "public/mod/quiz/view.php", source),
        "<?php\nrequire_once($CFG->dirroot);\n"
    );
}

#[test]
fn audit_writer_gets_one_row_per_reference_regardless_of_eligibility() {
    let source = "<?php\nrequire_once($CFG->dirroot . '/mod/quiz/lib.php');\nrequire_once($CFG->dirroot);\n";
    let notation = PathNotation::new("public/");
    let results = find_paths(source, "public/mod/quiz/view.php", &notation);
    assert_eq!(results.len(), 2);

    let references: Vec<CategorisedReference> = results
        .into_iter()
        .map(|result| {
            let eligible = result.real_path.ends_with("lib.php");
            CategorisedReference {
                file: "public/mod/quiz/view.php".to_string(),
                result,
                source_component: None,
                target: Some(if eligible {
                    resolution("mod_quiz", "/lib.php")
                } else {
                    resolution("root", "/public")
                }),
                category: if eligible {
                    PathCategory::StaticSameComponent
                } else {
                    PathCategory::DirrootWrangling
                },
            }
        })
        .collect();

    let plan = planned(&references, &StringSet::new());
    assert_eq!(plan.rewritten, 1);

    assert_eq!(references.len(), plan.rewritten_to.len());
    let content = write_audit(&references, &plan.rewritten_to).into_bytes();
    let mut reader = csv::ReaderBuilder::new().from_reader(&content[3..]);
    let records: Vec<csv::StringRecord> = reader.records().collect::<Result<_, _>>().unwrap();
    assert_eq!(records.len(), 2);
    assert_eq!(&records[0][12], "__DIR__ . '/lib.php'");
    assert_eq!(&records[1][12], "");
}

fn edit(start: usize, end: usize, replacement: &str) -> Edit {
    Edit { start, end, replacement: replacement.to_string() }
}

#[test]
fn edits_are_made_back_to_front() {
    let edits = vec![edit(0, 1, "one"), edit(4, 5, "three"), edit(2, 3, "two")];
    assert_eq!(splice(b"a b c", &edits), Some(b"one two three".to_vec()));
}

#[test]
fn edits_that_do_not_fit_are_refused() {
    assert_eq!(splice(b"abc", &vec![edit(2, 4, "x")]), None);
    assert_eq!(splice(b"abc", &vec![edit(2, 1, "x")]), None);
}

#[test]
fn edits_that_cut_a_character_in_two_are_refused() {
    let text = "a\u{e9}b".as_bytes();
    assert_eq!(splice(text, &vec![edit(0, 2, "x")]), None);
    assert_eq!(splice(text, &vec![edit(2, 3, "x")]), None);
    assert_eq!(splice(text, &vec![edit(1, 3, "x")]), Some(b"axb".to_vec()));
    assert_eq!(rewrite_file(text, &vec![edit(2, 4, "x")]), None);
}

#[test]
fn edits_next_to_each_other_fit() {
    let text = "\u{e9}\u{4e2d}!".as_bytes();
    let edits = vec![edit(0, 2, ""), edit(2, 5, "\u{1f600}")];
    assert_eq!(rewrite_file(text, &edits), Some("\u{1f600}!".as_bytes().to_vec()));
}

#[test]
fn bytes_that_are_no_text_are_decoded_before_they_are_edited() {
    // The second byte becomes a replacement character of three bytes.
    assert_eq!(
        rewrite_file(b"a\xffb", &vec![edit(0, 1, "x")]),
        Some("x\u{fffd}b".as_bytes().to_vec())
    );
}

#[test]
fn only_references_that_are_replaced_need_a_place() {
    let without_place = |category: PathCategory, target: Option<Resolution>| {
        let mut results = find_paths("<?php $CFG->dirroot . '/x.php';", "public/a.php", &PathNotation::new("public/"));
        let mut result = results.remove(0);
        result.end_pos = None;
        CategorisedReference { file: "public/a.php".to_string(), result, source_component: None, target, category }
    };
    let none = StringSet::new();
    assert!(can_plan(&[without_place(PathCategory::PluginTypeRoot, None)], &none));
    assert!(!can_plan(&[without_place(PathCategory::Config, None)], &none));
    let target = Some(resolution("root", "/public/x.php"));
    assert!(!can_plan(&[without_place(PathCategory::StaticSameComponent, target)], &none));
}

#[test]
fn references_by_component_need_a_target() {
    let mut results = find_paths("<?php $CFG->dirroot . '/x.php';", "public/a.php", &PathNotation::new("public/"));
    let reference = CategorisedReference {
        file: "public/a.php".to_string(),
        result: results.remove(0),
        source_component: None,
        target: None,
        category: PathCategory::StaticDifferentComponent,
    };
    assert!(!can_plan(&[reference], &StringSet::new()));
}
