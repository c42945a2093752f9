use scan_moodle::collections::StringSet;
use scan_moodle::moodle::categorise::categorise;
use scan_moodle::moodle::categorise::PathCategory;
use scan_moodle::moodle::resolver::Resolution;
use scan_moodle::path_finder::PathKind;
use scan_moodle::path_finder::PathResult;

fn set(members: &[&str]) -> StringSet {
    let mut set = StringSet::new();
    for &member in members {
        set.insert(member.to_string());
    }
    set
}

const DIRROOT: &str = "public";

fn result(real_path: &str, line: u32) -> PathResult {
    PathResult {
        path: String::new(),
        real_path: real_path.to_string(),
        kind: PathKind::Dirroot,
        line,
        code: String::new(),
        parent: None,
        start_pos: None,
        end_pos: None,
        separator: String::new(),
        mono_path_expr: String::new(),
        scope_end_line: None,
    }
}

fn resolution(component: &str, path_in_component: &str) -> Resolution {
    Resolution { component: component.to_string(), path_in_component: path_in_component.to_string() }
}

#[test]
fn targeting_config_php_is_config_regardless_of_anything_else() {
    let locations = set(&["public/config.php"]);
    let category = categorise(&result("public/config.php", 999), &locations, Some(1), &StringSet::new(), Some("core"), None, DIRROOT);
    assert_eq!(category, PathCategory::Config);
}

#[test]
fn a_line_before_the_files_own_boundary_line_is_pre_component() {
    let locations = StringSet::new();
    let target = resolution("core", "/setup.php");
    let category =
        categorise(&result("public/lib/setup.php", 30), &locations, Some(122), &StringSet::new(), Some("tool_behat"), Some(&target), DIRROOT);
    assert_eq!(category, PathCategory::PreComponent);
}

#[test]
fn a_line_after_the_files_own_boundary_line_is_not_pre_component() {
    let locations = StringSet::new();
    let target = resolution("core", "/setup.php");
    let category =
        categorise(&result("public/lib/setup.php", 200), &locations, Some(122), &StringSet::new(), Some("tool_behat"), Some(&target), DIRROOT);
    assert_eq!(category, PathCategory::StaticDifferentComponent);
}

#[test]
fn a_dynamic_plugin_name_at_its_own_bare_root_is_dynamic_component() {
    let locations = StringSet::new();
    let target = resolution("mod_{$modname}", "");
    let category = categorise(&result("public/mod/{$modname}", 10), &locations, None, &StringSet::new(), Some("root"), Some(&target), DIRROOT);
    assert_eq!(category, PathCategory::DynamicComponent);
}

#[test]
fn a_dynamic_plugin_name_component_with_a_real_path_is_dynamic_component() {
    let locations = StringSet::new();
    let target = resolution("mod_{$modname}", "/lib.php");
    let category =
        categorise(&result("public/mod/{$modname}/lib.php", 10), &locations, None, &StringSet::new(), Some("root"), Some(&target), DIRROOT);
    assert_eq!(category, PathCategory::DynamicComponent);
}

#[test]
fn bare_dirroot_itself_is_dirroot_wrangling() {
    let locations = StringSet::new();
    let target = resolution("root", "/public");
    let category = categorise(&result("public", 10), &locations, None, &StringSet::new(), Some("tool_xmldb"), Some(&target), DIRROOT);
    assert_eq!(category, PathCategory::DirrootWrangling);
}

#[test]
fn dirroot_with_a_trailing_separator_is_also_dirroot_wrangling() {
    let locations = StringSet::new();
    let target = resolution("root", "/public/");
    let category = categorise(&result("public/", 10), &locations, None, &StringSet::new(), Some("tool_xmldb"), Some(&target), DIRROOT);
    assert_eq!(category, PathCategory::DirrootWrangling);
}

#[test]
fn dirroot_with_a_trailing_backslash_is_also_dirroot_wrangling() {
    let locations = StringSet::new();
    let category = categorise(&result("public\\", 10), &locations, None, &StringSet::new(), Some("enrol_flatfile"), None, DIRROOT);
    assert_eq!(category, PathCategory::DirrootWrangling);
}

#[test]
fn bare_root_itself_is_root_wrangling() {
    let locations = StringSet::new();
    let target = resolution("root", "");
    let category = categorise(&result("", 10), &locations, None, &StringSet::new(), Some("tool_xmldb"), Some(&target), DIRROOT);
    assert_eq!(category, PathCategory::RootWrangling);
}

#[test]
fn root_with_a_trailing_separator_is_also_root_wrangling() {
    let locations = StringSet::new();
    let target = resolution("root", "/");
    let category = categorise(&result("/", 10), &locations, None, &StringSet::new(), Some("tool_xmldb"), Some(&target), DIRROOT);
    assert_eq!(category, PathCategory::RootWrangling);
}

#[test]
fn root_with_a_trailing_backslash_is_also_root_wrangling() {
    let locations = StringSet::new();
    let category = categorise(&result("\\", 10), &locations, None, &StringSet::new(), Some("tool_xmldb"), None, DIRROOT);
    assert_eq!(category, PathCategory::RootWrangling);
}

#[test]
fn a_known_plugin_type_root_is_plugin_type_root_not_static_same_component() {
    let locations = StringSet::new();
    let plugin_type_roots = set(&["public/mod"]);
    let target = resolution("root", "/public/mod");
    let category = categorise(&result("public/mod", 10), &locations, None, &plugin_type_roots, Some("root"), Some(&target), DIRROOT);
    assert_eq!(category, PathCategory::PluginTypeRoot);
}

#[test]
fn a_known_plugin_type_root_is_plugin_type_root_not_static_different_component() {
    let locations = StringSet::new();
    let plugin_type_roots = set(&["public/mod"]);
    let target = resolution("root", "/public/mod");
    let category =
        categorise(&result("public/mod", 10), &locations, None, &plugin_type_roots, Some("mod_forum"), Some(&target), DIRROOT);
    assert_eq!(category, PathCategory::PluginTypeRoot);
}

#[test]
fn plugin_type_root_tolerates_a_trailing_separator() {
    let locations = StringSet::new();
    let plugin_type_roots = set(&["public/mod"]);
    let category = categorise(&result("public/mod/", 10), &locations, None, &plugin_type_roots, Some("root"), None, DIRROOT);
    assert_eq!(category, PathCategory::PluginTypeRoot);
}

#[test]
fn pre_component_still_wins_over_plugin_type_root() {
    let locations = StringSet::new();
    let plugin_type_roots = set(&["public/mod"]);
    let category =
        categorise(&result("public/mod", 10), &locations, Some(20), &plugin_type_roots, Some("root"), None, DIRROOT);
    assert_eq!(category, PathCategory::PreComponent);
}

#[test]
fn a_bare_directory_resolving_to_a_real_component_is_static_same_component() {
    let locations = StringSet::new();
    let target = resolution("core", "");
    let category = categorise(&result("public/lib", 10), &locations, None, &StringSet::new(), Some("core"), Some(&target), DIRROOT);
    assert_eq!(category, PathCategory::StaticSameComponent);
}

#[test]
fn a_literal_file_in_the_same_component_is_static_same_component() {
    let locations = StringSet::new();
    let target = resolution("core", "/setup.php");
    let category = categorise(&result("public/lib/setup.php", 10), &locations, None, &StringSet::new(), Some("core"), Some(&target), DIRROOT);
    assert_eq!(category, PathCategory::StaticSameComponent);
}

#[test]
fn a_literal_file_in_a_different_component_is_static_different_component() {
    let locations = StringSet::new();
    let target = resolution("core", "/classes/component.php");
    let category =
        categorise(&result("public/lib/classes/component.php", 10), &locations, None, &StringSet::new(), Some("root"), Some(&target), DIRROOT);
    assert_eq!(category, PathCategory::StaticDifferentComponent);
}

#[test]
fn an_unresolved_path_shaped_by_a_variable_is_variable_only() {
    let locations = StringSet::new();
    let category = categorise(&result("public{$includefile}", 10), &locations, None, &StringSet::new(), Some("core"), None, DIRROOT);
    assert_eq!(category, PathCategory::VariableOnly);
}

#[test]
fn an_unresolved_path_escaping_the_repository_root_is_uncategorised_not_variable_only() {
    let locations = StringSet::new();
    let category = categorise(&result("../moodledata", 10), &locations, None, &StringSet::new(), Some("root"), None, DIRROOT);
    assert_eq!(category, PathCategory::Uncategorised);
}

#[test]
fn an_unresolved_path_with_no_dynamic_marker_at_all_is_uncategorised() {
    let locations = StringSet::new();
    let category = categorise(&result("some/weird/path", 10), &locations, None, &StringSet::new(), Some("root"), None, DIRROOT);
    assert_eq!(category, PathCategory::Uncategorised);
}

#[test]
fn a_root_owned_file_is_not_dirroot_wrangling_despite_the_root_pseudo_component() {
    let locations = StringSet::new();
    let target = resolution("root", "/public/backup/backup.class.php");
    let category =
        categorise(&result("public/backup/backup.class.php", 10), &locations, None, &StringSet::new(), Some("tool_xmldb"), Some(&target), DIRROOT);
    assert_eq!(category, PathCategory::StaticDifferentComponent);
}

#[test]
fn pre_5_1_dirroot_and_root_coincide_and_resolve_to_dirroot_wrangling() {
    let locations = StringSet::new();
    let target = resolution("root", "");
    let category = categorise(&result("", 10), &locations, None, &StringSet::new(), Some("tool_xmldb"), Some(&target), "");
    assert_eq!(category, PathCategory::DirrootWrangling);
}
