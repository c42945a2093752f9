use scan_moodle::collections::StringMap;
use scan_moodle::collections::StringSet;
use scan_moodle::moodle::categorise::PathCategory;
use scan_moodle::moodle::entrypoints::classify;
use scan_moodle::moodle::entrypoints::component_locations;
use scan_moodle::moodle::entrypoints::config_locations;
use scan_moodle::moodle::entrypoints::is_require_like;
use scan_moodle::moodle::entrypoints::BoundaryEdge;
use scan_moodle::moodle::entrypoints::PreComponentExtent;
use scan_moodle::path_finder::find_paths;
use scan_moodle::path_finder::PathNotation;
use scan_moodle::rewrite::decide::is_eligible;
use scan_moodle::text::contains;
use scan_moodle::text::decimal_of;
use scan_moodle::text::is_before;
use scan_moodle::text::join_with;
use scan_moodle::text::split_at;
use scan_moodle::text::strip_prefix;
use scan_moodle::text::trim;
use scan_moodle::text::trim_end_of;
use scan_moodle::text::trim_start_of;

#[test]
fn joining_undoes_splitting() {
    for text in ["", "/", "a/b", "/a//b/", "\u{e9}/\u{4e2d}"] {
        assert_eq!(join_with(&split_at(text, '/'), "/"), text);
    }
}

#[test]
fn texts_are_ordered_by_their_characters() {
    assert!(is_before("a", "ab"));
    assert!(is_before("Z", "a"));
    assert!(is_before("core\\", "core_x"));
    assert!(!is_before("a", "a"));
    assert!(is_before("\u{ff5e}", "\u{1f600}"));
}

#[test]
fn text_helpers_agree_with_their_names() {
    assert_eq!(trim("\u{a0} x \t\n"), "x");
    assert_eq!(trim_start_of("//a/", '/'), "a/");
    assert_eq!(trim_end_of("/a//", '/'), "/a");
    assert_eq!(strip_prefix("public/x", "public/"), Some("x".to_string()));
    assert_eq!(strip_prefix("x", "public/"), None);
    assert!(contains("a___b", "___"));
    assert!(!contains("a__b", "___"));
    assert_eq!(decimal_of(u64::MAX), u64::MAX.to_string());
    assert_eq!(decimal_of(0), "0");
}

#[test]
fn maps_keep_their_keys_in_order() {
    let mut map = StringMap::new();
    for (key, value) in [("b", 1), ("a", 2), ("c", 3), ("b", 4)] {
        map.insert(key.to_string(), value);
    }
    let entries: Vec<(&str, i32)> = (0..map.len()).map(|i| (map.key_at(i), *map.value_at(i))).collect();
    assert_eq!(entries, vec![("a", 2), ("b", 4), ("c", 3)]);
    assert_eq!(map.get("d"), None);

    let mut lists: StringMap<Vec<u8>> = StringMap::new();
    lists.append("x".to_string(), 1);
    lists.append("x".to_string(), 2);
    assert_eq!(lists.get("x"), Some(&vec![1, 2]));

    let mut set = StringSet::new();
    assert!(set.insert("x".to_string()));
    assert!(!set.insert("x".to_string()));
    assert_eq!(set.len(), 1);
}

#[test]
fn glyphs_and_repository_paths_undo_each_other() {
    for prefix in ["public/", ""] {
        let notation = PathNotation::new(prefix);
        for path in ["public/lib/setup.php", "config.php", "lib/a.php"] {
            let glyph = notation.to_glyph(&format!("/{path}"));
            assert_eq!(notation.to_repo_path(&glyph), path);
        }
    }
    assert_eq!(PathNotation::from_root(true).dirroot_segment(), "/public");
    assert_eq!(PathNotation::from_root(false).dirroot_segment(), "");
}

#[test]
fn a_normalised_path_stays_as_it_is() {
    for path in ["/public/../a/./b/", "/../x", "//a//b", "/"] {
        let once = PathNotation::normalise(path);
        assert_eq!(PathNotation::normalise(&once), once);
    }
}

#[test]
fn a_conditional_edge_only_covers_its_own_branch() {
    let extent = PreComponentExtent::UpToLine(vec![
        BoundaryEdge { line: 5, reach_end: Some(8) },
        BoundaryEdge::unbounded(20),
    ]);
    let pre_component: Vec<u32> = [4, 5, 6, 8, 9, 20, 21].into_iter().filter(|&line| extent.covers(line)).collect();
    assert_eq!(pre_component, vec![4, 5, 9, 20]);
    assert_eq!(extent.to_string(), "5+20");
    assert_eq!(BoundaryEdge::unbounded(7).line(), 7);
    assert!(PreComponentExtent::WholeFile.covers(u32::MAX));
}

#[test]
fn fixed_places_follow_the_layout() {
    let notation = PathNotation::new("public/");
    let config = config_locations(&notation);
    assert!(config.contains("config.php") && config.contains("public/config.php"));
    let component = component_locations(&notation);
    assert!(component.contains("public/lib/classes/component.php"));
    assert!(component.contains("public/lib/tests/component_test.php"));
    assert!(is_require_like(Some("require_once")) && is_require_like(Some("include")));
    assert!(!is_require_like(Some("file_exists")) && !is_require_like(None));
}

#[test]
fn classifications_come_sorted_by_file() {
    let notation = PathNotation::new("public/");
    let sources = [
        ("public/z.php", "<?php require(__DIR__ . '/lib/classes/component.php');"),
        ("public/lib/classes/component.php", "<?php"),
        ("public/a.php", "<?php require(__DIR__ . '/z.php');"),
    ];
    let files: Vec<_> =
        sources.iter().map(|(file, source)| (file.to_string(), find_paths(source, file, &notation))).collect();
    let classified = classify(&files, &notation);
    let order: Vec<&str> = classified.iter().map(|c| c.file.as_str()).collect();
    assert_eq!(order, vec!["public/a.php", "public/lib/classes/component.php", "public/z.php"]);
}

#[test]
fn only_some_categories_are_eligible() {
    let all = [
        (PathCategory::Component, "component", false),
        (PathCategory::Config, "config", true),
        (PathCategory::PreComponent, "pre-component", false),
        (PathCategory::PreComponentLiteral, "pre-component-literal", true),
        (PathCategory::IncludePathRelative, "include-path-relative", false),
        (PathCategory::PluginTypeRoot, "plugin-type-root", false),
        (PathCategory::DynamicComponent, "dynamic-component", false),
        (PathCategory::DirrootWrangling, "dirroot-wrangling", false),
        (PathCategory::RootWrangling, "root-wrangling", false),
        (PathCategory::StaticSameComponent, "static-same-component", true),
        (PathCategory::StaticDifferentComponent, "static-different-component", true),
        (PathCategory::VariableOnly, "variable-only", true),
        (PathCategory::Uncategorised, "uncategorised", false),
    ];
    for (category, name, eligible) in all {
        assert_eq!(category.to_string(), name);
        assert_eq!(is_eligible(category), eligible, "{name}");
    }
}

#[test]
fn neither_the_order_of_files_nor_mentions_make_a_difference() {
    let notation = PathNotation::new("public/");
    let component = "public/lib/classes/component.php";
    let sources = [
        ("public/z.php", "<?php file_exists(__DIR__ . '/lib/classes/component.php'); require('a.php');"),
        (component, "<?php"),
        ("public/a.php", "<?php require('b.php'); require('lib/classes/component.php');"),
        ("public/b.php", "<?php $CFG->dirroot . '/z.php';"),
    ];
    let scanned = || -> Vec<_> {
        sources.iter().map(|(file, source)| (file.to_string(), find_paths(source, file, &notation))).collect()
    };
    let expected = classify(&scanned(), &notation);
    assert_eq!(expected.len(), 4);

    let mut turned = scanned();
    turned.reverse();
    assert_eq!(classify(&turned, &notation), expected);
    turned.swap(0, 2);
    assert_eq!(classify(&turned, &notation), expected);

    let mut without_mentions = scanned();
    for (_, results) in &mut without_mentions {
        results.retain(|result| is_require_like(result.parent.as_deref()));
    }
    assert_eq!(without_mentions[0].1.len(), 1);
    assert_eq!(classify(&without_mentions, &notation), expected);
}
