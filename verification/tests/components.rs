use scan_moodle::collections::StringMap;
use scan_moodle::moodle::components::could_be_plugin_name;
use scan_moodle::moodle::components::declared_plugin_types;
use scan_moodle::moodle::components::discover_components;
use scan_moodle::moodle::components::is_generic_plugin_name;
use scan_moodle::moodle::components::is_mod_plugin_name;
use scan_moodle::moodle::components::is_reserved_non_plugin_dir;
use scan_moodle::moodle::components::is_valid_plugin_name;
use scan_moodle::moodle::components::read_subplugin_types;
use scan_moodle::moodle::components::scan_plugin_type;
use scan_moodle::moodle::components::subplugin_types;
use scan_moodle::moodle::components::supports_subplugins;
use scan_moodle::moodle::components::ComponentsJson;
use scan_moodle::moodle::components::SubpluginsJson;

fn map(entries: &[(&str, &str)]) -> StringMap<String> {
    let mut map = StringMap::new();
    for &(name, path) in entries {
        map.insert(name.to_string(), path.to_string());
    }
    map
}

fn subsystems(entries: &[(&str, Option<&str>)]) -> StringMap<Option<String>> {
    let mut map = StringMap::new();
    for &(name, path) in entries {
        map.insert(name.to_string(), path.map(str::to_string));
    }
    map
}

fn names(names: &[&str]) -> Vec<String> {
    names.iter().map(|name| name.to_string()).collect()
}

fn listings(entries: &[(&str, &[&str])]) -> StringMap<Vec<String>> {
    let mut map = StringMap::new();
    for &(dir, found) in entries {
        map.insert(dir.to_string(), names(found));
    }
    map
}

fn entries(map: &StringMap<String>) -> Vec<(&str, &str)> {
    (0..map.len()).map(|i| (map.key_at(i), map.value_at(i).as_str())).collect()
}

fn json(plugintypes: &[(&str, &str)]) -> ComponentsJson {
    ComponentsJson {
        plugintypes: map(plugintypes),
        subsystems: subsystems(&[("access", None), ("calendar", Some("public/calendar"))]),
        deprecatedplugintypes: map(&[]),
        deletedplugintypes: map(&[]),
    }
}

#[test]
fn plugin_names_follow_their_types_rules() {
    let none = subsystems(&[]);
    assert!(is_mod_plugin_name("quiz2"));
    assert!(!is_mod_plugin_name("quiz_2"));
    assert!(!is_mod_plugin_name(""));
    assert!(!is_mod_plugin_name("2quiz"));
    assert!(is_generic_plugin_name("a__b"));
    assert!(!is_generic_plugin_name("a___b"));
    assert!(!is_generic_plugin_name("a_"));
    assert!(!is_generic_plugin_name("a"));
    assert!(!is_generic_plugin_name("A2"));
    assert!(could_be_plugin_name("a"));
    assert!(could_be_plugin_name("a_b"));
    assert!(!could_be_plugin_name("styles.php"));
    assert!(is_valid_plugin_name("qtype", "essay", &none));
    assert!(!is_valid_plugin_name("qtype", "random", &none));
    assert!(is_valid_plugin_name("local", "random", &none));
}

#[test]
fn a_module_cannot_be_called_like_a_subsystem_with_a_directory() {
    let known = subsystems(&[("access", None), ("calendar", Some("public/calendar"))]);
    assert!(!is_valid_plugin_name("mod", "calendar", &known));
    assert!(is_valid_plugin_name("mod", "access", &known));
    assert!(is_valid_plugin_name("block", "calendar", &known));
}

#[test]
fn some_directories_are_never_plugins() {
    assert!(is_reserved_non_plugin_dir("mod", "tests"));
    assert!(is_reserved_non_plugin_dir("mod", "db"));
    assert!(!is_reserved_non_plugin_dir("auth", "db"));
    assert!(!is_reserved_non_plugin_dir("mod", "quiz"));
}

#[test]
fn plugins_are_the_directories_with_a_valid_name() {
    let plugins = scan_plugin_type(
        "mod",
        "public/mod",
        &names(&["quiz", "tests", "not_valid", "assign", "calendar"]),
        &subsystems(&[("calendar", Some("public/calendar"))]),
    );
    assert_eq!(entries(&plugins), vec![("assign", "public/mod/assign"), ("quiz", "public/mod/quiz")]);
}

#[test]
fn deprecated_and_deleted_types_are_types_too() {
    let mut declared = json(&[("mod", "public/mod"), ("old", "public/one")]);
    declared.deprecatedplugintypes = map(&[("old", "public/two"), ("older", "public/older")]);
    declared.deletedplugintypes = map(&[("older", "public/gone")]);
    assert_eq!(
        entries(&declared_plugin_types(&declared)),
        vec![("mod", "public/mod"), ("old", "public/two"), ("older", "public/gone")]
    );
}

#[test]
fn subplugin_types_are_relative_to_their_plugin() {
    let declared = SubpluginsJson {
        subplugintypes: map(&[("quizaccess", "accessrule")]),
        plugintypes: map(&[("ignored", "mod/quiz/ignored")]),
    };
    assert_eq!(
        entries(&read_subplugin_types("public/mod/quiz", &declared)),
        vec![("quizaccess", "public/mod/quiz/accessrule")]
    );
}

#[test]
fn the_older_form_of_subplugin_types_lacks_the_public_segment() {
    let declared = SubpluginsJson {
        subplugintypes: map(&[]),
        plugintypes: map(&[("quiz", "mod/quiz/report"), ("quizaccess", "public/mod/quiz/accessrule")]),
    };
    assert_eq!(
        entries(&read_subplugin_types("public/mod/quiz", &declared)),
        vec![("quiz", "public/mod/quiz/report"), ("quizaccess", "public/mod/quiz/accessrule")]
    );
}

#[test]
fn discovery_finds_core_subsystems_plugins_and_subplugins() {
    let found = listings(&[
        ("public/mod", &["quiz", "assign", "classes"]),
        ("public/mod/quiz/accessrule", &["seb", "tests"]),
    ]);
    let mut subplugins = StringMap::new();
    subplugins.insert(
        "public/mod/quiz".to_string(),
        SubpluginsJson { subplugintypes: map(&[("quizaccess", "accessrule")]), plugintypes: map(&[]) },
    );
    let (discovered, warnings) =
        discover_components(json(&[("mod", "public/mod"), ("block", "public/blocks")]), true, &found, &subplugins);
    assert_eq!(
        entries(&discovered.components),
        vec![
            ("core", "public/lib"),
            ("core_access", ""),
            ("core_calendar", "public/calendar"),
            ("mod_assign", "public/mod/assign"),
            ("mod_quiz", "public/mod/quiz"),
            ("quizaccess_seb", "public/mod/quiz/accessrule/seb"),
        ]
    );
    assert_eq!(
        entries(&discovered.plugin_types),
        vec![("block", "public/blocks"), ("mod", "public/mod"), ("quizaccess", "public/mod/quiz/accessrule")]
    );
    assert_eq!(discovered.subsystems.len(), 2);
    assert!(warnings.is_empty());
}

#[test]
fn core_lies_outside_public_before_the_split() {
    let (discovered, _) = discover_components(json(&[]), false, &listings(&[]), &StringMap::new());
    assert_eq!(discovered.components.get("core").unwrap(), "lib");
}

#[test]
fn a_subplugin_type_that_is_already_known_is_ignored_with_a_warning() {
    let found = listings(&[("public/mod", &["quiz", "assign"])]);
    let mut subplugins = StringMap::new();
    for plugin in ["assign", "quiz"] {
        subplugins.insert(
            format!("public/mod/{plugin}"),
            SubpluginsJson {
                subplugintypes: map(&[("calendar", "x"), ("mod", "y"), ("shared", plugin)]),
                plugintypes: map(&[]),
            },
        );
    }
    let types = subplugin_types(&json(&[("mod", "public/mod")]), &found, &subplugins);
    assert_eq!(entries(&types.types), vec![("shared", "public/mod/assign/assign")]);
    let expected: Vec<String> = [
        ("calendar", "mod_assign"),
        ("mod", "mod_assign"),
        ("calendar", "mod_quiz"),
        ("mod", "mod_quiz"),
        ("shared", "mod_quiz"),
    ]
    .iter()
    .map(|(subtype, by)| format!("warning: ignoring duplicate subplugin type '{subtype}' declared by '{by}'"))
    .collect();
    assert_eq!(types.warnings, expected);
}

#[test]
fn only_some_types_have_subplugins() {
    for plugintype in ["mod", "editor", "tool", "local"] {
        assert!(supports_subplugins(plugintype));
    }
    assert!(!supports_subplugins("block"));

    let found = listings(&[("public/blocks", &["html"])]);
    let mut subplugins = StringMap::new();
    subplugins.insert(
        "public/blocks/html".to_string(),
        SubpluginsJson { subplugintypes: map(&[("part", "parts")]), plugintypes: map(&[]) },
    );
    assert_eq!(subplugin_types(&json(&[("block", "public/blocks")]), &found, &subplugins).types.len(), 0);
}

#[test]
fn the_later_of_two_components_of_the_same_name_counts() {
    let found = listings(&[("public/a", &["b_cc"]), ("public/ab", &["cc"])]);
    let (discovered, _) =
        discover_components(json(&[("a", "public/a"), ("a_b", "public/ab")]), true, &found, &StringMap::new());
    assert_eq!(discovered.components.get("a_b_cc").unwrap(), "public/ab/cc");
}
