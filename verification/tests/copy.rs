use scan_moodle::collections::StringMap;
use scan_moodle::extract_packages::copy::component_dir_name;
use scan_moodle::extract_packages::copy::is_left_out;
use scan_moodle::extract_packages::copy::is_walked;
use scan_moodle::extract_packages::copy::place;
use scan_moodle::extract_packages::copy::place_all;
use scan_moodle::extract_packages::copy::tally;
use scan_moodle::extract_packages::copy::CopyOutcome;
use scan_moodle::extract_packages::copy::Placements;
use scan_moodle::moodle::components::discover_components;
use scan_moodle::moodle::components::ComponentsJson;
use scan_moodle::moodle::resolver::ComponentResolver;
use scan_moodle::moodle::resolver::ROOT_COMPONENT;

/// One plugin type ('mod') with one plugin ('mod_quiz').
fn minimal_resolver() -> ComponentResolver {
    let mut plugintypes = StringMap::new();
    plugintypes.insert("mod".to_string(), "mod".to_string());
    let json = ComponentsJson {
        plugintypes,
        subsystems: StringMap::new(),
        deprecatedplugintypes: StringMap::new(),
        deletedplugintypes: StringMap::new(),
    };
    let mut listings = StringMap::new();
    listings.insert("mod".to_string(), vec!["quiz".to_string()]);
    let (discovered, warnings) = discover_components(json, false, &listings, &StringMap::new());
    assert!(warnings.is_empty());
    ComponentResolver::new(&discovered)
}

/// The files of that codebase, a couple of root-owned files included, and `more`.
fn minimal_codebase(more: &[&str]) -> Vec<String> {
    ["lib/components.json", "mod/quiz/lib.php", "mod/quiz/view.php", "config.php", ".git/HEAD"]
        .iter()
        .chain(more)
        .map(|file| file.to_string())
        .collect()
}

fn targets(placements: &Placements) -> Vec<&str> {
    placements.placements.iter().map(|placement| placement.target.as_str()).collect()
}

#[test]
fn copies_files_into_per_component_directories() {
    let placed = place_all(&minimal_resolver(), &minimal_codebase(&[]));

    // mod/quiz/lib.php, mod/quiz/view.php, config.php, and lib/components.json itself (which
    // resolves into 'core', since 'lib' is core's own directory).
    assert_eq!(placed.placements.len(), 4);
    assert!(placed.components_used.contains("mod_quiz"));
    assert!(placed.components_used.contains(ROOT_COMPONENT));
    assert!(
        targets(&placed).contains(&"moodle-mod_quiz/lib.php"),
        "quiz's lib.php should land under moodle-mod_quiz"
    );
    assert!(
        targets(&placed).contains(&"moodle-root/config.php"),
        "unowned config.php should land under moodle-root"
    );
    let outcome = tally(&[Some(1), Some(2), Some(3), Some(4)]);
    assert_eq!(outcome.failed, 0);
    assert_eq!(outcome.copied, 4);
}

#[test]
fn never_copies_a_git_directory_at_any_depth() {
    // A vendored dependency with its own nested checkout.
    let files = minimal_codebase(&["mod/quiz/vendor/lib/.git/HEAD"]);
    let placed = place_all(&minimal_resolver(), &files);

    assert_eq!(placed.placements.len(), 4);
    assert!(targets(&placed).iter().all(|target| !target.contains(".git")));
}

#[test]
fn never_copies_roots_own_composer_lock() {
    // A plugin's own vendored lockfile, at some depth below root, is unrelated to root's own
    // composer.lock, so it's copied normally.
    let files = minimal_codebase(&["composer.lock", "mod/quiz/vendor/lib/composer.lock"]);
    let placed = place_all(&minimal_resolver(), &files);

    assert!(!targets(&placed).contains(&"moodle-root/composer.lock"));
    assert!(
        targets(&placed).contains(&"moodle-mod_quiz/vendor/lib/composer.lock"),
        "a nested composer.lock belonging to a vendored dependency should still be copied"
    );
}

#[test]
fn only_the_given_names_are_left_out() {
    assert!(is_left_out(7, ".git"));
    assert!(is_left_out(1, "composer.lock"));
    assert!(!is_left_out(2, "composer.lock"));
    assert!(!is_left_out(1, "composer.json"));
    assert!(!is_walked("a/.git/b/c"));
    assert!(!is_walked("composer.lock"));
    assert!(is_walked("a/composer.lock"));
    assert!(is_walked(".github/x.yml"));
}

#[test]
fn a_file_that_does_not_resolve_goes_to_root_and_is_reported() {
    let resolver = minimal_resolver();
    let placement = place(&resolver, "weird{name}.php");
    assert_eq!(placement.component, ROOT_COMPONENT);
    assert_eq!(placement.target, "moodle-root/weird{name}.php");
    assert!(!placement.resolved);

    let placed = place_all(&resolver, &["weird{name}.php".to_string(), "config.php".to_string()]);
    assert_eq!(placed.unresolved, vec!["weird{name}.php".to_string()]);
    assert_eq!(placed.components_used.len(), 1);
}

#[test]
fn component_directories_carry_the_component() {
    assert_eq!(component_dir_name("mod_quiz"), "moodle-mod_quiz");
    assert_eq!(component_dir_name("root"), "moodle-root");
}

#[test]
fn a_tally_counts_copies_failures_and_bytes() {
    assert_eq!(
        tally(&[Some(10), None, Some(5)]),
        CopyOutcome { copied: 2, bytes: 15, failed: 1 }
    );
    assert_eq!(tally(&[Some(usize::MAX), Some(3)]).bytes, 2);
}
