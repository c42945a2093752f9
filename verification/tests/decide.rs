use scan_moodle::collections::StringSet;
use scan_moodle::moodle::categorise::PathCategory;
use scan_moodle::moodle::resolver::Resolution;
use scan_moodle::moodle::scan::CategorisedReference;
use scan_moodle::path_finder::PathKind;
use scan_moodle::path_finder::PathResult;
use scan_moodle::rewrite::decide::decide;
use scan_moodle::rewrite::decide::still_needs_rewrite;

fn reference(
    file: &str,
    real_path: &str,
    kind: PathKind,
    category: PathCategory,
    target: Option<(&str, &str)>,
) -> CategorisedReference {
    CategorisedReference {
        file: file.to_string(),
        result: PathResult {
            path: String::new(),
            real_path: real_path.to_string(),
            kind,
            line: 1,
            code: String::new(),
            parent: None,
            start_pos: Some(0),
            end_pos: Some(0),
            separator: String::new(),
            mono_path_expr: String::new(),
            scope_end_line: None,
        },
        source_component: None,
        target: target.map(|(component, path_in_component)| Resolution {
            component: component.to_string(),
            path_in_component: path_in_component.to_string(),
        }),
        category,
    }
}

fn entry_points(files: &[&str]) -> StringSet {
    let mut set = StringSet::new();
    for &file in files {
        set.insert(file.to_string());
    }
    set
}

#[test]
fn same_component_rewrites_to_a_dir_relative_path() {
    let reference = reference(
        "public/mod/quiz/report/overview/report.php",
        "public/mod/quiz/lib.php",
        PathKind::Dirroot,
        PathCategory::StaticSameComponent,
        Some(("mod_quiz", "/lib.php")),
    );
    assert_eq!(
        decide(&reference, &entry_points(&[])),
        Some("dirname(__DIR__, 2) . '/lib.php'".to_string())
    );
}

#[test]
fn same_component_landing_in_the_files_own_directory_is_bare_dir() {
    let reference = reference(
        "public/mod/quiz/lib.php",
        "public/mod/quiz/locallib.php",
        PathKind::Dirroot,
        PathCategory::StaticSameComponent,
        Some(("mod_quiz", "/locallib.php")),
    );
    assert_eq!(
        decide(&reference, &entry_points(&[])),
        Some("__DIR__ . '/locallib.php'".to_string())
    );
}

#[test]
fn same_component_landing_exactly_one_level_up_has_no_count_argument() {
    let reference = reference(
        "public/mod/quiz/classes/lib.php",
        "public/mod/quiz/locallib.php",
        PathKind::Dirroot,
        PathCategory::StaticSameComponent,
        Some(("mod_quiz", "/locallib.php")),
    );
    assert_eq!(
        decide(&reference, &entry_points(&[])),
        Some("dirname(__DIR__) . '/locallib.php'".to_string())
    );
}

#[test]
fn same_component_root_placeholder_rewrites_to_a_dir_relative_path() {
    let reference = reference(
        "public/backup/util.php",
        "public/backup/backup.class.php",
        PathKind::Dirroot,
        PathCategory::StaticSameComponent,
        Some(("root", "/public/backup/backup.class.php")),
    );
    assert_eq!(
        decide(&reference, &entry_points(&[])),
        Some("__DIR__ . '/backup.class.php'".to_string())
    );
}

#[test]
fn different_component_rewrites_to_component_path() {
    let reference = reference(
        "public/mod/forum/lib.php",
        "public/mod/assign/view.php",
        PathKind::Dirroot,
        PathCategory::StaticDifferentComponent,
        Some(("mod_assign", "/view.php")),
    );
    assert_eq!(
        decide(&reference, &entry_points(&[])),
        Some("\\core\\component::component_path('mod_assign', 'view.php')".to_string())
    );
}

#[test]
fn different_component_bare_directory_passes_an_empty_path_argument() {
    let reference = reference(
        "public/mod/forum/lib.php",
        "public/mod/assign",
        PathKind::Dirroot,
        PathCategory::StaticDifferentComponent,
        Some(("mod_assign", "")),
    );
    assert_eq!(
        decide(&reference, &entry_points(&[])),
        Some("\\core\\component::component_path('mod_assign', '')".to_string())
    );
}

#[test]
fn different_component_trailing_slash_directory_passes_a_single_slash_path_argument() {
    let reference = reference(
        "public/mod/forum/lib.php",
        "public/mod/assign/",
        PathKind::Dirroot,
        PathCategory::StaticDifferentComponent,
        Some(("mod_assign", "/")),
    );
    assert_eq!(
        decide(&reference, &entry_points(&[])),
        Some("\\core\\component::component_path('mod_assign', '/')".to_string())
    );
}

#[test]
fn different_component_trailing_slash_on_a_file_is_preserved_in_the_path_argument() {
    let reference = reference(
        "public/mod/forum/lib.php",
        "public/mod/assign/db/",
        PathKind::Dirroot,
        PathCategory::StaticDifferentComponent,
        Some(("mod_assign", "/db/")),
    );
    assert_eq!(
        decide(&reference, &entry_points(&[])),
        Some("\\core\\component::component_path('mod_assign', 'db/')".to_string())
    );
}

#[test]
fn different_component_root_target_rewrites_to_cfg_root() {
    let reference = reference(
        "public/admin/tool/xmldb/index.php",
        "public/backup/backup.class.php",
        PathKind::Dirroot,
        PathCategory::StaticDifferentComponent,
        Some(("root", "/public/backup/backup.class.php")),
    );
    assert_eq!(
        decide(&reference, &entry_points(&[])),
        Some("$CFG->root . '/public/backup/backup.class.php'".to_string())
    );
}

#[test]
fn entry_point_source_via_dirroot_to_root_owned_target_rewrites_to_cfg_root() {
    let reference = reference(
        "public/admin/tool/xmldb/index.php",
        "public/backup/backup.class.php",
        PathKind::Dirroot,
        PathCategory::StaticDifferentComponent,
        Some(("root", "/public/backup/backup.class.php")),
    );
    let entry_points = entry_points(&["public/admin/tool/xmldb/index.php"]);
    assert_eq!(
        decide(&reference, &entry_points),
        Some("$CFG->root . '/public/backup/backup.class.php'".to_string())
    );
}

#[test]
fn entry_point_source_already_dir_relative_to_root_owned_target_is_still_forced_to_cfg_root() {
    let reference = reference(
        "public/admin/tool/xmldb/index.php",
        "public/backup/backup.class.php",
        PathKind::Dir,
        PathCategory::StaticDifferentComponent,
        Some(("root", "/public/backup/backup.class.php")),
    );
    let entry_points = entry_points(&["public/admin/tool/xmldb/index.php"]);
    assert_eq!(
        decide(&reference, &entry_points),
        Some("$CFG->root . '/public/backup/backup.class.php'".to_string())
    );
}

#[test]
fn entry_point_source_to_another_entry_point_via_dirroot_rewrites_to_cfg_root() {
    let reference = reference(
        "public/admin/tool/xmldb/index.php",
        "public/course/view.php",
        PathKind::Dirroot,
        PathCategory::StaticDifferentComponent,
        Some(("root", "/public/course/view.php")),
    );
    let entry_points = entry_points(&[
        "public/admin/tool/xmldb/index.php",
        "public/course/view.php",
    ]);
    assert_eq!(
        decide(&reference, &entry_points),
        Some("$CFG->root . '/public/course/view.php'".to_string())
    );
}

#[test]
fn entry_point_source_to_root_owned_target_rewrites_to_cfg_root() {
    let reference = reference(
        "public/backup/backup.php",
        "public/backup/moodle2/backup_plan_builder.class.php",
        PathKind::Dirroot,
        PathCategory::StaticSameComponent,
        Some((
            "root",
            "/public/backup/moodle2/backup_plan_builder.class.php",
        )),
    );
    let entry_points = entry_points(&["public/backup/backup.php"]);
    assert_eq!(
        decide(&reference, &entry_points),
        Some("$CFG->root . '/public/backup/moodle2/backup_plan_builder.class.php'".to_string())
    );
}

#[test]
fn entry_point_source_to_ordinary_component_code_rewrites_to_component_path_even_in_its_own_component()
 {
    let reference = reference(
        "public/mod/forum/view.php",
        "public/mod/forum/lib.php",
        PathKind::Dirroot,
        PathCategory::StaticSameComponent,
        Some(("mod_forum", "/lib.php")),
    );
    let entry_points = entry_points(&["public/mod/forum/view.php"]);
    assert_eq!(
        decide(&reference, &entry_points),
        Some("\\core\\component::component_path('mod_forum', 'lib.php')".to_string())
    );
}

#[test]
fn entry_point_target_in_a_different_component_rewrites_to_cfg_root_not_component_path() {
    let reference = reference(
        "public/admin/tool/phpunit/cli/util.php",
        "public/lib/setup.php",
        PathKind::Dirroot,
        PathCategory::StaticDifferentComponent,
        Some(("core", "/setup.php")),
    );
    assert_eq!(
        decide(&reference, &entry_points(&["public/lib/setup.php"])),
        Some("$CFG->root . '/public/lib/setup.php'".to_string())
    );
}

#[test]
fn entry_point_target_in_the_same_component_rewrites_to_cfg_root_not_dir_relative() {
    let reference = reference(
        "public/lib/classes/deep/nested/path/x.php",
        "public/lib/setup.php",
        PathKind::Dirroot,
        PathCategory::StaticSameComponent,
        Some(("core", "/setup.php")),
    );
    assert_eq!(
        decide(&reference, &entry_points(&["public/lib/setup.php"])),
        Some("$CFG->root . '/public/lib/setup.php'".to_string())
    );
}

#[test]
fn entry_point_target_rule_applies_even_when_source_is_also_an_entry_point() {
    let reference = reference(
        "public/admin/tool/phpunit/cli/util.php",
        "public/lib/phpunit/bootstrap.php",
        PathKind::Dirroot,
        PathCategory::StaticDifferentComponent,
        Some(("core", "/phpunit/bootstrap.php")),
    );
    let entry_points = entry_points(&[
        "public/admin/tool/phpunit/cli/util.php",
        "public/lib/phpunit/bootstrap.php",
    ]);
    assert_eq!(
        decide(&reference, &entry_points),
        Some("$CFG->root . '/public/lib/phpunit/bootstrap.php'".to_string())
    );
}

#[test]
fn root_owned_entry_point_target_is_handled_by_the_existing_root_logic() {
    let reference = reference(
        "public/course/view.php",
        "public/r.php",
        PathKind::Dirroot,
        PathCategory::StaticDifferentComponent,
        Some(("root", "/public/r.php")),
    );
    assert_eq!(
        decide(&reference, &entry_points(&["public/r.php"])),
        Some("$CFG->root . '/public/r.php'".to_string())
    );
}

#[test]
fn dirname_covers_arbitrarily_deep_nesting() {
    let deep_reference = reference(
        "public/lib/classes/deep/nested/path/x.php",
        "public/lib/setup.php",
        PathKind::Dirroot,
        PathCategory::StaticSameComponent,
        Some(("core", "/setup.php")),
    );
    assert_eq!(
        decide(&deep_reference, &entry_points(&[])),
        Some("dirname(__DIR__, 4) . '/setup.php'".to_string())
    );
}

#[test]
fn config_reference_rewrites_to_a_dir_relative_path() {
    let reference = reference(
        "public/group/assign.php",
        "public/config.php",
        PathKind::RequireLiteral,
        PathCategory::Config,
        None,
    );
    assert_eq!(
        decide(&reference, &entry_points(&[])),
        Some("dirname(__DIR__) . '/config.php'".to_string())
    );
}

#[test]
fn config_reference_rewrite_is_unaffected_by_entry_point_status() {
    let reference = reference(
        "public/group/assign.php",
        "public/config.php",
        PathKind::RequireLiteral,
        PathCategory::Config,
        None,
    );
    let entry_points = entry_points(&["public/group/assign.php"]);
    assert_eq!(
        decide(&reference, &entry_points),
        Some("dirname(__DIR__) . '/config.php'".to_string())
    );
}

#[test]
fn config_reference_already_dir_relative_has_nothing_to_decide() {
    let reference = reference(
        "public/group/assign.php",
        "public/config.php",
        PathKind::Dir,
        PathCategory::Config,
        None,
    );
    assert_eq!(decide(&reference, &entry_points(&[])), None);
}

fn variable_only_reference(file: &str, mono_path_expr: &str) -> CategorisedReference {
    let mut reference = reference(
        file,
        "public{$includefile}",
        PathKind::Dirroot,
        PathCategory::VariableOnly,
        None,
    );
    reference.result.mono_path_expr = mono_path_expr.to_string();
    reference
}

#[test]
fn variable_only_rewrites_to_from_mono_path() {
    let reference = variable_only_reference("public/mod/quiz/view.php", "$includefile");
    assert_eq!(
        decide(&reference, &entry_points(&[])),
        Some("\\core\\component::from_mono_path($includefile)".to_string())
    );
}

#[test]
fn variable_only_preserves_the_exact_remainder_including_its_own_leading_separator() {
    let reference =
        variable_only_reference("public/mod/quiz/view.php", "'/mod/' . $type . '/lib.php'");
    assert_eq!(
        decide(&reference, &entry_points(&[])),
        Some("\\core\\component::from_mono_path('/mod/' . $type . '/lib.php')".to_string())
    );
}

#[test]
fn variable_only_with_no_mono_path_expr_has_nothing_to_decide() {
    let reference = variable_only_reference("public/mod/quiz/view.php", "");
    assert_eq!(decide(&reference, &entry_points(&[])), None);
}

fn reference_with_code(
    file: &str,
    real_path: &str,
    category: PathCategory,
    target: Option<(&str, &str)>,
    code: &str,
) -> CategorisedReference {
    let mut reference = reference(file, real_path, PathKind::Dirroot, category, target);
    reference.result.code = code.to_string();
    reference
}

#[test]
fn category_with_no_rule_yet_always_still_needs_rewriting() {
    let reference = reference_with_code(
        "public/mod/quiz/view.php",
        "public/mod/quiz",
        PathCategory::PluginTypeRoot,
        None,
        "$CFG->dirroot . '/mod'",
    );
    assert!(still_needs_rewrite(&reference, &entry_points(&[])));
}

#[test]
fn config_reference_already_dir_relative_does_not_still_need_rewriting() {
    let reference = reference(
        "public/mod/quiz/view.php",
        "public/config.php",
        PathKind::Dir,
        PathCategory::Config,
        None,
    );
    assert!(!still_needs_rewrite(&reference, &entry_points(&[])));
}

#[test]
fn config_reference_on_a_bare_literal_still_needs_rewriting() {
    let reference = reference(
        "public/mod/quiz/view.php",
        "public/config.php",
        PathKind::RequireLiteral,
        PathCategory::Config,
        None,
    );
    assert!(still_needs_rewrite(&reference, &entry_points(&[])));
}

#[test]
fn config_reference_on_dirroot_still_needs_rewriting() {
    let reference = reference(
        "public/mod/quiz/view.php",
        "public/config.php",
        PathKind::Dirroot,
        PathCategory::Config,
        None,
    );
    assert!(still_needs_rewrite(&reference, &entry_points(&[])));
}

#[test]
fn pre_component_reference_already_dir_relative_does_not_still_need_rewriting() {
    let reference = reference(
        "public/lib/setup.php",
        "public/lib/component.php",
        PathKind::Dir,
        PathCategory::PreComponent,
        None,
    );
    assert!(!still_needs_rewrite(&reference, &entry_points(&[])));
}

#[test]
fn pre_component_reference_on_a_bare_literal_does_not_still_need_rewriting() {
    let reference = reference(
        "public/lib/setup.php",
        "public/lib/component.php",
        PathKind::RequireLiteral,
        PathCategory::PreComponent,
        None,
    );
    assert!(!still_needs_rewrite(&reference, &entry_points(&[])));
}

#[test]
fn pre_component_reference_on_dirroot_does_not_still_need_rewriting() {
    let reference = reference(
        "public/lib/setup.php",
        "public/lib/component.php",
        PathKind::Dirroot,
        PathCategory::PreComponent,
        None,
    );
    assert!(!still_needs_rewrite(&reference, &entry_points(&[])));
}

#[test]
fn eligible_reference_already_matching_decides_output_does_not_still_need_rewriting() {
    let reference = reference_with_code(
        "public/mod/quiz/report/overview/report.php",
        "public/mod/quiz/lib.php",
        PathCategory::StaticSameComponent,
        Some(("mod_quiz", "/lib.php")),
        "dirname(__DIR__, 2) . '/lib.php'",
    );
    assert!(!still_needs_rewrite(&reference, &entry_points(&[])));
}

#[test]
fn eligible_reference_not_yet_matching_decides_output_still_needs_rewriting() {
    let reference = reference_with_code(
        "public/mod/quiz/report/overview/report.php",
        "public/mod/quiz/lib.php",
        PathCategory::StaticSameComponent,
        Some(("mod_quiz", "/lib.php")),
        "$CFG->dirroot . '/mod/quiz/lib.php'",
    );
    assert!(still_needs_rewrite(&reference, &entry_points(&[])));
}

#[test]
fn eligible_root_placeholder_reference_still_on_dirroot_still_needs_rewriting() {
    let reference = reference_with_code(
        "public/backup/util.php",
        "public/backup/backup.class.php",
        PathCategory::StaticSameComponent,
        Some(("root", "/public/backup/backup.class.php")),
        "$CFG->dirroot . '/backup/backup.class.php'",
    );
    assert!(still_needs_rewrite(&reference, &entry_points(&[])));
}

#[test]
fn eligible_root_placeholder_reference_already_dir_relative_does_not_still_need_rewriting() {
    let reference = reference_with_code(
        "public/backup/util.php",
        "public/backup/backup.class.php",
        PathCategory::StaticSameComponent,
        Some(("root", "/public/backup/backup.class.php")),
        "__DIR__ . '/backup.class.php'",
    );
    assert!(!still_needs_rewrite(&reference, &entry_points(&[])));
}

#[test]
fn variable_only_reference_already_matching_decides_output_does_not_still_need_rewriting() {
    let mut reference = variable_only_reference("public/mod/quiz/view.php", "$includefile");
    reference.result.code = "\\core\\component::from_mono_path($includefile)".to_string();
    assert!(!still_needs_rewrite(&reference, &entry_points(&[])));
}

#[test]
fn variable_only_reference_not_yet_matching_decides_output_still_needs_rewriting() {
    let mut reference = variable_only_reference("public/mod/quiz/view.php", "$includefile");
    reference.result.code = "$CFG->dirroot . $includefile".to_string();
    assert!(still_needs_rewrite(&reference, &entry_points(&[])));
}

#[test]
fn variable_only_reference_with_no_mono_path_expr_always_still_needs_rewriting() {
    let reference = variable_only_reference("public/mod/quiz/view.php", "");
    assert!(still_needs_rewrite(&reference, &entry_points(&[])));
}

#[test]
fn component_reference_never_needs_rewriting() {
    let reference = reference_with_code(
        "public/lib/classes/component.php",
        "public/lib/classes/component.php",
        PathCategory::Component,
        None,
        "$CFG->dirroot . $path",
    );
    assert!(!still_needs_rewrite(&reference, &entry_points(&[])));
}

#[test]
fn include_path_relative_reference_never_needs_rewriting() {
    let reference = reference_with_code(
        "public/lib/form/checkbox.php",
        "public/lib/form/HTML/QuickForm/checkbox.php",
        PathCategory::IncludePathRelative,
        None,
        "'HTML/QuickForm/checkbox.php'",
    );
    assert!(!still_needs_rewrite(&reference, &entry_points(&[])));
}
