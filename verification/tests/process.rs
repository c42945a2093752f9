use scan_moodle::collections::StringMap;
use scan_moodle::collections::StringSet;
use scan_moodle::extract_packages::composer_json::package_json;
use scan_moodle::extract_packages::composer_json::root_json;
use scan_moodle::extract_packages::composer_json::Entrypoints;
use scan_moodle::extract_packages::git::command_result;
use scan_moodle::extract_packages::git::commit_commands;
use scan_moodle::extract_packages::process::composer_json_of;
use scan_moodle::extract_packages::process::first_extraction_step;
use scan_moodle::extract_packages::process::is_inside;
use scan_moodle::extract_packages::process::next_extraction_step;
use scan_moodle::extract_packages::process::package_dirs;
use scan_moodle::extract_packages::process::unresolved_lines;
use scan_moodle::extract_packages::process::ExtractionStep;
use scan_moodle::moodle::components::ComponentDiscovery;
use scan_moodle::moodle::scan::scan_file;
use scan_moodle::moodle::scan::Scan;
use scan_moodle::path_finder::PathNotation;
use scan_moodle::progress::Progress;
use scan_moodle::rewrite::apply::apply_arguments;
use scan_moodle::rewrite::apply::patch_result;
use scan_moodle::rewrite::process::after_report;
use scan_moodle::rewrite::process::audit_report;
use scan_moodle::rewrite::process::first_rewrite_step;
use scan_moodle::rewrite::process::next_rewrite_step;
use scan_moodle::rewrite::process::prepare;
use scan_moodle::rewrite::process::rewrote_message;
use scan_moodle::rewrite::process::RewriteStep;
use scan_moodle::rewrite::splice::rewrite_file;

fn components(path: &str) -> Option<Vec<Vec<u8>>> {
    Some(path.split('/').map(|component| component.as_bytes().to_vec()).collect())
}

#[test]
fn a_rewrite_takes_its_steps_in_order() {
    for (with_output, expected) in [(false, 6), (true, 9)] {
        let mut steps = vec![first_rewrite_step()];
        while let Progress::Next(step) = next_rewrite_step(steps[steps.len() - 1], true, with_output) {
            steps.push(step);
        }
        assert_eq!(steps.len(), expected);
        assert_eq!(steps[0], RewriteStep::CheckRoot);
        assert_eq!(steps.contains(&RewriteStep::OpenAudit), with_output);
        assert_eq!(steps.contains(&RewriteStep::WriteAfter), with_output);
        assert_eq!(next_rewrite_step(steps[expected - 1], true, with_output), Progress::Succeeded);
        for step in steps {
            assert_eq!(next_rewrite_step(step, false, with_output), Progress::Failed);
        }
    }
}

#[test]
fn an_extraction_takes_its_steps_in_order() {
    for (clean, expected) in [(false, 8), (true, 9)] {
        let mut steps = vec![first_extraction_step()];
        while let Progress::Next(step) = next_extraction_step(steps[steps.len() - 1], true, clean) {
            steps.push(step);
        }
        assert_eq!(steps.len(), expected);
        assert_eq!(steps[0], ExtractionStep::CheckDestination);
        assert_eq!(steps.contains(&ExtractionStep::CleanDestination), clean);
        assert_eq!(steps[expected - 1], ExtractionStep::CommitPackages);
        for step in steps {
            assert_eq!(next_extraction_step(step, false, clean), Progress::Failed);
        }
    }
}

#[test]
fn a_destination_inside_the_codebase_is_recognised_by_whole_components() {
    assert!(is_inside(&components("/srv/moodle"), &components("/srv/moodle/packages")));
    assert!(is_inside(&components("/srv/moodle"), &components("/srv/moodle")));
    assert!(!is_inside(&components("/srv/moodle"), &components("/srv/moodle2")));
    assert!(!is_inside(&components("/srv/moodle"), &components("/srv")));
    assert!(!is_inside(&components("/srv/moodle"), &None));
    assert!(!is_inside(&None, &components("/srv/moodle")));
}

#[test]
fn each_package_gets_the_composer_json_of_its_component() {
    let mut entry_points = StringMap::new();
    entry_points.insert(
        "mod_quiz".to_string(),
        Entrypoints { cli: Vec::new(), other: vec!["view.php".to_string()] },
    );
    let upstream = Some("{\"require\": {}}");
    assert_eq!(composer_json_of("root", true, upstream, &entry_points), root_json(upstream));
    assert_eq!(
        composer_json_of("mod_quiz", true, upstream, &entry_points),
        package_json("mod_quiz", true, entry_points.get("mod_quiz"))
    );
    assert_eq!(composer_json_of("core", false, None, &entry_points), package_json("core", false, None));
}

#[test]
fn every_package_and_the_metapackage_are_committed() {
    let mut used = StringSet::new();
    used.insert("root".to_string());
    used.insert("core".to_string());
    assert_eq!(package_dirs(&used), vec!["moodle-core", "moodle-root", "moodle-standard"]);
    assert_eq!(
        commit_commands(),
        vec![
            vec!["init", "--quiet", "-b", "main"],
            vec!["add", "--all"],
            vec!["commit", "--quiet", "-m", "Initial package import"],
        ]
    );
}

#[test]
fn a_failed_git_command_is_reported_with_what_it_said() {
    let arguments = vec!["add".to_string(), "--all".to_string()];
    assert_eq!(command_result(&arguments, "/tmp/x", true, b"noise"), Ok(()));
    assert_eq!(
        command_result(&arguments, "/tmp/x", false, b" fatal: no\xff \n"),
        Err("`git add --all` failed in /tmp/x: fatal: no\u{fffd}".to_string())
    );
}

#[test]
fn a_patch_is_applied_if_git_ends_well_and_took_all_of_it() {
    assert_eq!(apply_arguments(), vec!["apply", "--3way"]);
    assert_eq!(patch_result("a.patch", true, b"noise", None), Ok(()));
    assert_eq!(
        patch_result("a.patch", false, b"no\n", Some("broken pipe")),
        Err("git apply --3way failed for a.patch:\nno\n".to_string())
    );
    assert_eq!(
        patch_result("a.patch", true, b"", Some("broken pipe")),
        Err("git apply for a.patch succeeded, but writing the patch to it failed: broken pipe".to_string())
    );
}

#[test]
fn only_the_first_unresolved_files_are_named() {
    let files = |n: usize| (0..n).map(|i| format!("f{i}")).collect::<Vec<String>>();
    assert!(unresolved_lines(&files(0)).is_empty());
    assert_eq!(
        unresolved_lines(&files(1)),
        vec!["1 files did not resolve to a component and went to moodle-root:", "  f0"]
    );
    assert_eq!(unresolved_lines(&files(10)).len(), 11);
    let lines = unresolved_lines(&files(13));
    assert_eq!(lines.len(), 12);
    assert_eq!(lines[10], "  f9");
    assert_eq!(lines[11], "  ... and 3 more");
}

#[test]
fn the_number_of_rewritten_references_is_told() {
    assert_eq!(rewrote_message(0), "Rewrote 0 path references");
    assert_eq!(rewrote_message(1), "Rewrote 1 path reference");
    assert_eq!(rewrote_message(12), "Rewrote 12 path references");
}

fn scan(source: &str) -> Scan {
    let notation = PathNotation::new("public/");
    let mut components = StringMap::new();
    components.insert("core".to_string(), "public/lib".to_string());
    components.insert("mod_quiz".to_string(), "public/mod/quiz".to_string());
    let mut plugin_types = StringMap::new();
    plugin_types.insert("mod".to_string(), "public/mod".to_string());
    let discovered = ComponentDiscovery { components, subsystems: StringMap::new(), plugin_types };
    let file = "public/mod/quiz/view.php";
    let results = scan_file(source.as_bytes(), file, &notation);
    Scan::from_discovery(discovered, notation, vec![(file.to_string(), Some(results))])
}

#[test]
fn a_rewritten_codebase_needs_no_second_rewrite() {
    let source = "<?php\nrequire($CFG->libdir . '/a.php');\nrequire($CFG->dirroot . '/mod/quiz/lib.php');\nrequire('../../config.php');\n$x = $CFG->dirroot;\n";
    let before = scan(source);
    let preparation = prepare(&before, "public").expect("every reference has its place");
    assert_eq!(preparation.plan.rewritten, 3);
    let edits = preparation.plan.edits.get("public/mod/quiz/view.php").unwrap();
    let after = String::from_utf8(rewrite_file(source.as_bytes(), edits).unwrap()).unwrap();
    assert_eq!(
        after,
        "<?php\nrequire(\\core\\component::component_path('core', 'a.php'));\nrequire(__DIR__ . '/lib.php');\nrequire(dirname(__DIR__, 2) . '/config.php');\n$x = $CFG->dirroot;\n"
    );

    let audit = audit_report(&preparation);
    assert_eq!(audit.lines().count(), 5);
    assert!(audit.contains(",__DIR__ . '/lib.php'\r\n"));

    // What is left is done, but for the reference that no rule covers.
    let report = after_report(&scan(&after), "public", &preparation.entry_point_files);
    let states: Vec<&str> = report.lines().skip(1).map(|line| line.rsplit(',').next().unwrap()).collect();
    assert_eq!(states, vec!["false", "false", "true"]);
}

#[test]
fn references_without_a_place_are_not_rewritten() {
    let mut left_alone = scan("<?php $CFG->dirroot;");
    left_alone.files[0].1[0].start_pos = None;
    assert_eq!(prepare(&left_alone, "public").expect("nothing is replaced").plan.rewritten, 0);

    let mut replaced = scan("<?php $CFG->libdir . '/a.php';");
    replaced.files[0].1[0].start_pos = None;
    assert!(prepare(&replaced, "public").is_none());
}
