use scan_moodle::collections::StringMap;
use scan_moodle::moodle::components::ComponentDiscovery;
use scan_moodle::moodle::resolver::ComponentResolver;

fn string_map(entries: &[(&str, &str)]) -> StringMap<String> {
    let mut map = StringMap::new();
    for &(name, path) in entries {
        map.insert(name.to_string(), path.to_string());
    }
    map
}

fn discovery(components: &[(&str, &str)], plugin_types: &[(&str, &str)]) -> ComponentDiscovery {
    ComponentDiscovery {
        components: string_map(components),
        subsystems: StringMap::new(),
        plugin_types: string_map(plugin_types),
    }
}

fn resolve(resolver: &ComponentResolver, path: &str) -> Option<(String, String)> {
    resolver.resolve(path).map(|r| (r.component, r.path_in_component))
}

#[test]
fn resolves_exact_directory() {
    let resolver = ComponentResolver::new(&discovery(&[("mod_forum", "public/mod/forum")], &[]));
    assert_eq!(resolve(&resolver, "public/mod/forum"), Some(("mod_forum".to_string(), String::new())));
}

#[test]
fn resolves_file_within_directory() {
    let resolver = ComponentResolver::new(&discovery(&[("mod_forum", "public/mod/forum")], &[]));
    assert_eq!(resolve(&resolver, "public/mod/forum/lib.php"), Some(("mod_forum".to_string(), "/lib.php".to_string())));
}

#[test]
fn prefers_the_most_specific_match() {
    let resolver = ComponentResolver::new(&discovery(
        &[("mod_quiz", "public/mod/quiz"), ("quiz_overview", "public/mod/quiz/report/overview")],
        &[],
    ));
    assert_eq!(
        resolve(&resolver, "public/mod/quiz/report/overview/report.php"),
        Some(("quiz_overview".to_string(), "/report.php".to_string()))
    );
    assert_eq!(resolve(&resolver, "public/mod/quiz/lib.php"), Some(("mod_quiz".to_string(), "/lib.php".to_string())));
}

#[test]
fn plausible_but_uninstalled_plugin_name_synthesises_a_component() {
    let resolver =
        ComponentResolver::new(&discovery(&[("mod_forum", "public/mod/forum")], &[("mod", "public/mod")]));
    assert_eq!(resolve(&resolver, "public/mod/quiz/lib.php"), Some(("mod_quiz".to_string(), "/lib.php".to_string())));
    assert_eq!(resolve(&resolver, "public/mod/xxxxxxx"), Some(("mod_xxxxxxx".to_string(), String::new())));
}

#[test]
fn reserved_non_plugin_dir_name_does_not_synthesise() {
    let resolver =
        ComponentResolver::new(&discovery(&[("mod_forum", "public/mod/forum")], &[("mod", "public/mod")]));
    for name in ["tests", "classes", "db", "lang", "amd"] {
        let path = format!("public/mod/{name}/x.php");
        assert_eq!(resolve(&resolver, &path), Some(("root".to_string(), format!("/{path}"))), "for {path}");
    }
    // 'auth' has one exception: a real plugin literally named 'db'.
    let resolver_auth =
        ComponentResolver::new(&discovery(&[], &[("auth", "public/auth")]));
    assert_eq!(resolve(&resolver_auth, "public/auth/db/foo.php"), Some(("auth_db".to_string(), "/foo.php".to_string())));
}

#[test]
fn bare_plugin_type_root_resolves_to_root() {
    let resolver =
        ComponentResolver::new(&discovery(&[("mod_forum", "public/mod/forum")], &[("mod", "public/mod")]));
    assert_eq!(resolve(&resolver, "public/mod"), Some(("root".to_string(), "/public/mod".to_string())));
    assert_eq!(resolve(&resolver, "public/mod/"), Some(("root".to_string(), "/public/mod/".to_string())));
}

#[test]
fn subsystems_without_a_directory_are_not_inserted() {
    let resolver = ComponentResolver::new(&discovery(&[("core_access", "")], &[]));
    assert_eq!(
        resolve(&resolver, "anything/at/all.php"),
        Some(("root".to_string(), "/anything/at/all.php".to_string()))
    );
}

fn root_resolver() -> ComponentResolver {
    ComponentResolver::new(&discovery(
        &[("core", "public/lib"), ("mod_forum", "public/mod/forum")],
        &[("mod", "public/mod"), ("theme", "public/theme")],
    ))
}

#[test]
fn path_outside_every_component_resolves_to_root() {
    let resolver = root_resolver();
    for path in ["public/config.php", "public/backup/backup.class.php", "vendor/autoload.php", ".github/x.yml"] {
        assert_eq!(
            resolve(&resolver, path),
            Some(("root".to_string(), format!("/{path}"))),
            "expected {path} to resolve to root"
        );
    }
}

#[test]
fn repository_root_and_dirroot_resolve_to_root() {
    let resolver = root_resolver();
    assert_eq!(resolve(&resolver, ""), Some(("root".to_string(), String::new())));
    assert_eq!(resolve(&resolver, "public"), Some(("root".to_string(), "/public".to_string())));
    // A trailing slash carries real information — it is how e.g. "$CFG->dirroot .
    // DIRECTORY_SEPARATOR" renders — so it must survive into path_in_component exactly as it
    // appears in real_path, not get silently dropped.
    assert_eq!(resolve(&resolver, "public/"), Some(("root".to_string(), "/public/".to_string())));
}

#[test]
fn empty_segments_are_ignored_for_matching_but_preserved_in_the_output() {
    let resolver = root_resolver();
    assert_eq!(resolve(&resolver, "public//mod/forum//lib.php"), Some(("mod_forum".to_string(), "//lib.php".to_string())));
    assert_eq!(resolve(&resolver, "public//config.php"), Some(("root".to_string(), "/public//config.php".to_string())));
}

#[test]
fn container_directory_of_a_component_resolves_to_root() {
    let resolver = ComponentResolver::new(&discovery(&[("qtype_essay", "public/question/type/essay")], &[]));
    assert_eq!(resolve(&resolver, "public/question/x.php"), Some(("root".to_string(), "/public/question/x.php".to_string())));
}

#[test]
fn trailing_slash_inside_a_component_is_preserved() {
    let resolver = root_resolver();
    assert_eq!(resolve(&resolver, "public/lib/"), Some(("core".to_string(), "/".to_string())));
    assert_eq!(resolve(&resolver, "public/lib/tcpdf/"), Some(("core".to_string(), "/tcpdf/".to_string())));
}

#[test]
fn uncertain_paths_do_not_resolve_to_root() {
    let resolver = root_resolver();
    let cases = [
        // A marker right where the trie walk gave up — its real value could have matched a
        // known child, so it stays refused. Contrast with a marker further down the path
        // (see `a_marker_past_the_first_unmatched_segment_still_resolves_to_root`), which is
        // fine, since nothing downstream of a failed match ever gets looked up at all.
        "public/{$path}",
        "public{$dirpath}",
        // A path that climbed above the repository root, so it describes somewhere else.
        "../etc/passwd",
        "../../moodledata",
        // Windows separators and namespaces hide the real segment boundaries.
        "public\\filter\\algebra\\algebra2tex.pl",
        // A glob covers component directories as readily as root ones.
        "public/*",
        "public/*/lib.php",
        // Not a bare path.
        "public/backup/view.php?id=1",
    ];
    for path in cases {
        assert_eq!(resolve(&resolver, path), None, "expected {path} not to resolve");
    }
}

#[test]
fn a_marker_past_the_first_unmatched_segment_still_resolves_to_root() {
    let resolver = root_resolver();
    for path in ["public/lang/{$lang}/x.php", "public/backup/converter/{$name}/lib.php"] {
        assert_eq!(resolve(&resolver, path), Some(("root".to_string(), format!("/{path}"))), "for {path}");
    }
}

#[test]
fn a_name_no_plugin_could_have_resolves_to_root_under_a_plugin_type_root() {
    let resolver = root_resolver();
    for path in ["public/theme/styles.php", "public/theme/yui_combo.php", "public/local/defaults.php"] {
        assert_eq!(resolve(&resolver, path), Some(("root".to_string(), format!("/{path}"))), "for {path}");
    }
}

#[test]
fn plausible_plugin_name_synthesises_regardless_of_what_else_is_installed() {
    let resolver = root_resolver();
    assert_eq!(
        resolve(&resolver, "public/theme/standard/pix/gradient.jpg"),
        Some(("theme_standard".to_string(), "/pix/gradient.jpg".to_string()))
    );
    assert_eq!(resolve(&resolver, "public/mod/a/lib.php"), Some(("mod_a".to_string(), "/lib.php".to_string())));
}

#[test]
fn trailing_placeholder_with_literal_context_resolves_to_root() {
    let resolver = root_resolver();
    let path = "public/install/lang/{$options['lang']}";
    assert_eq!(resolve(&resolver, path), Some(("root".to_string(), format!("/{path}"))));
}

#[test]
fn trailing_placeholder_fused_with_literal_text_resolves_to_root() {
    let resolver = root_resolver();
    let path = "public/lang/en/{$file}.php";
    assert_eq!(resolve(&resolver, path), Some(("root".to_string(), format!("/{path}"))));
}

#[test]
fn unusual_but_plain_file_names_resolve_to_root() {
    let resolver = root_resolver();
    for path in ["lib/bundles/@popperjs/core.js", "public/a+b/c~d/PHP Charting Libraries.txt"] {
        assert_eq!(resolve(&resolver, path), Some(("root".to_string(), format!("/{path}"))), "for {path}");
    }
}

#[test]
fn dynamic_plugin_name_resolves() {
    let resolver = ComponentResolver::new(&discovery(&[], &[("theme", "public/theme")]));
    assert_eq!(
        resolve(&resolver, "public/theme/{$themename}/config.php"),
        Some(("theme_{$themename}".to_string(), "/config.php".to_string()))
    );
}

#[test]
fn dynamic_plugin_name_with_no_trailing_path() {
    let resolver = ComponentResolver::new(&discovery(&[], &[("theme", "public/theme")]));
    assert_eq!(resolve(&resolver, "public/theme/{$themename}"), Some(("theme_{$themename}".to_string(), String::new())));
}

#[test]
fn dynamic_rule_applies_to_subplugin_type_roots_too() {
    let resolver = ComponentResolver::new(&discovery(
        &[("mod_quiz", "public/mod/quiz")],
        &[("quizaccess", "public/mod/quiz/accessrule")],
    ));
    assert_eq!(
        resolve(&resolver, "public/mod/quiz/accessrule/{$rule}/rule.php"),
        Some(("quizaccess_{$rule}".to_string(), "/rule.php".to_string()))
    );
}

#[test]
fn dynamic_rule_requires_a_whole_segment() {
    // 'report-{$x}' mixes literal text with the marker, so it is not a dynamic plugin name;
    // there is no literal child of that name either, so nothing matches at all.
    let resolver = ComponentResolver::new(&discovery(&[], &[("theme", "public/theme")]));
    assert_eq!(resolve(&resolver, "public/theme/report-{$x}/config.php"), None);
}

#[test]
fn dynamic_rule_only_applies_immediately_below_a_plugin_type_root() {
    // The dynamic segment here comes after 'mod/quiz' (a specific plugin), not after 'mod'
    // (the plugin type root), so it does not get treated as a dynamic plugin name; it just
    // falls into the leftover path under the already-resolved 'mod_quiz'.
    let resolver =
        ComponentResolver::new(&discovery(&[("mod_quiz", "public/mod/quiz")], &[("mod", "public/mod")]));
    assert_eq!(
        resolve(&resolver, "public/mod/quiz/{$x}/foo.php"),
        Some(("mod_quiz".to_string(), "/{$x}/foo.php".to_string()))
    );
}
