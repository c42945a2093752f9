use scan_moodle::collections::StringMap;
use scan_moodle::collections::StringSet;
use scan_moodle::extract_packages::composer_json::complete_root;
use scan_moodle::extract_packages::composer_json::group_by_component;
use scan_moodle::extract_packages::composer_json::metapackage_json;
use scan_moodle::extract_packages::composer_json::metapackage_object;
use scan_moodle::extract_packages::composer_json::package_json;
use scan_moodle::extract_packages::composer_json::package_name;
use scan_moodle::extract_packages::composer_json::package_object;
use scan_moodle::extract_packages::composer_json::root_json;
use scan_moodle::extract_packages::composer_json::Entrypoints;
use scan_moodle::moodle::components::discover_components;
use scan_moodle::moodle::components::ComponentDiscovery;
use scan_moodle::moodle::components::ComponentsJson;
use scan_moodle::moodle::entrypoints::BootstrapKind;
use scan_moodle::moodle::entrypoints::FileClassification;
use scan_moodle::moodle::resolver::ComponentResolver;
use scan_moodle::moodle::resolver::ROOT_COMPONENT;

fn discovery_with_mod_quiz() -> ComponentDiscovery {
    let mut plugintypes = StringMap::new();
    plugintypes.insert("mod".to_string(), "mod".to_string());
    let json = ComponentsJson {
        plugintypes,
        subsystems: StringMap::new(),
        deprecatedplugintypes: StringMap::new(),
        deletedplugintypes: StringMap::new(),
    };
    let mut listings = StringMap::new();
    listings.insert("mod".to_string(), vec!["quiz".to_string()]);
    discover_components(json, false, &listings, &StringMap::new()).0
}

fn classification(file: &str, kind: BootstrapKind) -> FileClassification {
    FileClassification { file: file.to_string(), kind, extent: None }
}

fn parsed(content: &str) -> serde_json::Value {
    serde_json::from_str(content).unwrap()
}

fn set(members: &[&str]) -> StringSet {
    let mut set = StringSet::new();
    for &member in members {
        set.insert(member.to_string());
    }
    set
}

#[test]
fn groups_entry_points_by_component_and_strips_leading_slash() {
    let discovered = discovery_with_mod_quiz();
    let resolver = ComponentResolver::new(&discovered);

    let entry_points = vec![
        classification("mod/quiz/view.php", BootstrapKind::Other),
        classification("mod/quiz/cli/upgrade.php", BootstrapKind::Cli),
        classification("lib/setup.php", BootstrapKind::Other),
        classification("lib/phpminimumversionlib.php", BootstrapKind::BootstrapDependency),
        // Resolves to root: must be dropped, not attributed to any package.
        classification("config.php", BootstrapKind::Other),
    ];

    let grouped = group_by_component(&entry_points, &resolver);

    assert_eq!(grouped.get("mod_quiz").unwrap().other, vec!["view.php".to_string()]);
    assert_eq!(grouped.get("mod_quiz").unwrap().cli, vec!["cli/upgrade.php".to_string()]);
    // Other and BootstrapDependency land in the same bucket.
    assert_eq!(
        grouped.get("core").unwrap().other,
        vec!["setup.php".to_string(), "phpminimumversionlib.php".to_string()]
    );
    assert!(!grouped.contains_key(ROOT_COMPONENT));
}

#[test]
fn real_component_gets_autoload_and_entrypoints() {
    let mut entry_points = Entrypoints::new();
    entry_points.other.push("view.php".to_string());

    let value = parsed(&package_json("mod_quiz", false, Some(&entry_points)));
    assert_eq!(value["name"], "moodle/moodle-mod_quiz");
    assert_eq!(value["type"], "moodle-component");
    assert_eq!(value["license"], "GPL-3.0-or-later");
    assert_eq!(value["autoload"]["psr-4"]["mod_quiz\\"], "classes/");
    assert_eq!(value["extra"]["moodle"]["component"], "mod_quiz");
    assert_eq!(value["extra"]["moodle"]["entrypoints"]["other"][0], "view.php");
    assert!(value["extra"]["moodle"]["entrypoints"].get("cli").is_none());
}

#[test]
fn core_specifically_gets_the_testing_support_autoload_entries_too() {
    let value = parsed(&package_json("core", false, None));
    assert_eq!(value["autoload"]["psr-4"]["core\\"], "classes/");
    assert_eq!(value["autoload"]["psr-4"]["core_testing\\"], "testing/classes/");
    assert_eq!(value["autoload"]["psr-4"]["core_phpunit\\"], "phpunit/classes/");
}

#[test]
fn only_core_gets_the_testing_support_autoload_entries() {
    let value = parsed(&package_json("mod_quiz", false, None));
    assert!(value["autoload"]["psr-4"].get("core_testing\\").is_none());
    assert!(value["autoload"]["psr-4"].get("core_phpunit\\").is_none());
}

#[test]
fn component_with_no_version_php_and_no_entry_points_still_gets_extra_moodle_component() {
    let value = parsed(&package_json("mod_quiz", false, None));
    assert_eq!(value["extra"]["moodle"]["component"], "mod_quiz");
    assert!(value["extra"]["moodle"].get("entrypoints").is_none());
}

#[test]
fn component_with_version_php_and_no_entry_points_omits_extra_entirely() {
    let value = parsed(&package_json("mod_quiz", true, None));
    assert!(value.get("extra").is_none());
}

#[test]
fn component_with_version_php_keeps_entrypoints_but_omits_component() {
    let mut entry_points = Entrypoints::new();
    entry_points.other.push("view.php".to_string());

    let value = parsed(&package_json("mod_quiz", true, Some(&entry_points)));
    assert!(value["extra"]["moodle"].get("component").is_none());
    assert_eq!(value["extra"]["moodle"]["entrypoints"]["other"][0], "view.php");
}

#[test]
fn root_falls_back_to_the_bare_stub_when_there_is_no_upstream_composer_json() {
    let value = parsed(&root_json(None));
    assert_eq!(value["name"], "moodle/moodle-root");
    assert_eq!(value["type"], "moodle-root");
    assert_eq!(value["license"], "GPL-3.0-or-later");
    assert!(value.get("autoload").is_none());
    assert!(value.get("require").is_none());
}

#[test]
fn root_preserves_the_upstream_composer_json_except_name_and_type() {
    let upstream = r#"{
    "name": "moodle/moodle",
    "license": "GPL-3.0-or-later",
    "type": "moodle-core",
    "require": {
        "php": ">=8.3.0"
    },
    "require-dev": {
        "filp/whoops": "^2.15"
    },
    "autoload-dev": {
        "psr-4": {
            "core_phpunit\\": "public/lib/phpunit/classes/"
        }
    }
}
"#;

    let value = parsed(&root_json(Some(upstream)));
    assert_eq!(value["name"], "moodle/moodle-root");
    assert_eq!(value["type"], "moodle-root");
    assert_eq!(value["require"]["php"], ">=8.3.0");
    assert_eq!(value["require-dev"]["filp/whoops"], "^2.15");
    assert_eq!(
        value["autoload-dev"]["psr-4"]["core_phpunit\\"],
        "public/lib/phpunit/classes/"
    );

    let keys: Vec<&String> = value.as_object().unwrap().keys().collect();
    assert_eq!(
        keys,
        vec!["name", "license", "type", "require", "require-dev", "autoload-dev"],
        "key order should match the upstream file, not be alphabetised"
    );
}

#[test]
fn metapackage_requires_every_component_by_its_own_package_name() {
    let value = parsed(&metapackage_json(&set(&["mod_quiz", "core", ROOT_COMPONENT])));
    assert_eq!(value["name"], "moodle/moodle-standard");
    assert_eq!(value["type"], "metapackage");
    assert_eq!(value["license"], "GPL-3.0-or-later");
    assert_eq!(value["require"]["moodle/moodle-mod_quiz"], "*");
    assert_eq!(value["require"]["moodle/moodle-core"], "*");
    assert_eq!(value["require"]["moodle/moodle-root"], "*");
    assert!(value.get("autoload").is_none());
}

#[test]
fn metapackage_requires_are_sorted_alphabetically() {
    let value = parsed(&metapackage_json(&set(&["mod_quiz", "core", "auth_manual"])));
    let keys: Vec<&String> = value["require"].as_object().unwrap().keys().collect();
    assert_eq!(
        keys,
        vec!["moodle/moodle-auth_manual", "moodle/moodle-core", "moodle/moodle-mod_quiz"]
    );
}

#[test]
fn package_names_hold_the_component() {
    assert_eq!(package_name("mod_quiz"), "moodle/moodle-mod_quiz");
}

#[test]
fn a_package_is_written_out_exactly() {
    let mut entry_points = Entrypoints::new();
    entry_points.cli.push("cli/cron.php".to_string());
    entry_points.other.push("a \"b\".php".to_string());
    entry_points.other.push("c.php".to_string());
    assert_eq!(
        package_json("core", false, Some(&entry_points)),
        r#"{
  "name": "moodle/moodle-core",
  "type": "moodle-component",
  "license": "GPL-3.0-or-later",
  "autoload": {
    "psr-4": {
      "core\\": "classes/",
      "core_phpunit\\": "phpunit/classes/",
      "core_testing\\": "testing/classes/"
    }
  },
  "extra": {
    "moodle": {
      "component": "core",
      "entrypoints": {
        "cli": [
          "cli/cron.php"
        ],
        "other": [
          "a \"b\".php",
          "c.php"
        ]
      }
    }
  }
}
"#
    );
}

#[test]
fn empty_entry_points_are_not_written() {
    assert!(Entrypoints::new().is_empty());
    let object = package_object("mod_quiz", false, Some(&Entrypoints::new()));
    assert!(object["extra"]["moodle"].get("entrypoints").is_none());
}

#[test]
fn an_upstream_file_that_holds_no_object_counts_as_none() {
    let bare = root_json(None);
    assert_eq!(root_json(Some("[1, 2]")), bare);
    assert_eq!(root_json(Some("{ not json")), bare);
    assert_eq!(
        bare,
        "{\n  \"name\": \"moodle/moodle-root\",\n  \"type\": \"moodle-root\",\n  \"license\": \"GPL-3.0-or-later\"\n}\n"
    );
}

#[test]
fn completing_the_root_replaces_in_place_and_keeps_its_license() {
    let mut upstream = serde_json::Map::new();
    upstream.insert("license".to_string(), serde_json::Value::from("proprietary"));
    upstream.insert("extra".to_string(), serde_json::Value::from(17));
    upstream.insert("name".to_string(), serde_json::Value::from("moodle/moodle"));
    let object = complete_root(upstream);
    assert_eq!(
        serde_json::to_string(&object).unwrap(),
        r#"{"license":"proprietary","extra":17,"name":"moodle/moodle-root","type":"moodle-root"}"#
    );
}

#[test]
fn the_metapackage_has_nothing_to_require_without_components() {
    let object = metapackage_object(&StringSet::new());
    assert!(object["require"].as_object().unwrap().is_empty());
}

#[test]
fn strings_are_escaped() {
    let mut entry_points = Entrypoints::new();
    entry_points.cli.push("\u{1}\u{8}\t\n\u{c}\r\u{1f}\u{7f}\"\\/\u{e9}".to_string());
    assert!(package_json("mod_quiz", true, Some(&entry_points))
        .contains(r#""\u0001\b\t\n\f\r\u001f"#));
    let object = package_object("mod_quiz", true, Some(&entry_points));
    assert_eq!(
        serde_json::to_string(&object["extra"]["moodle"]["entrypoints"]["cli"]).unwrap(),
        "[\"\\u0001\\b\\t\\n\\f\\r\\u001f\u{7f}\\\"\\\\/\u{e9}\"]"
    );
}
