use scan_moodle::path_finder::PathNotation;

#[test]
fn to_repo_path_dirroot_file() {
    assert_eq!(PathNotation::new("public/").to_repo_path("@/lib/setup.php"), "public/lib/setup.php");
}

#[test]
fn to_repo_path_repo_root_file() {
    assert_eq!(PathNotation::new("public/").to_repo_path("#/config-dist.php"), "config-dist.php");
}

#[test]
fn to_repo_path_bare_dirroot() {
    assert_eq!(PathNotation::new("public/").to_repo_path("@"), "public");
}

#[test]
fn to_repo_path_nested_dirroot_file() {
    assert_eq!(PathNotation::new("public/").to_repo_path("@/mod/forum/lib.php"), "public/mod/forum/lib.php");
}

#[test]
fn to_repo_path_pre_5_1_dirroot_file() {
    assert_eq!(PathNotation::new("").to_repo_path("@/lib/setup.php"), "lib/setup.php");
}

#[test]
fn to_repo_path_pre_5_1_repo_root_file() {
    assert_eq!(PathNotation::new("").to_repo_path("#/config.php"), "config.php");
}

#[test]
fn normalise_resolves_dot_and_dot_dot() {
    assert_eq!(PathNotation::normalise("/public/mod/forum/../../lib/setup.php"), "/public/lib/setup.php");
    assert_eq!(PathNotation::normalise("/public/./lib"), "/public/lib");
    assert_eq!(PathNotation::normalise("/public/lib/"), "/public/lib/");
}

#[test]
fn normalise_keeps_dot_dot_above_the_root() {
    assert_eq!(PathNotation::normalise("/public/lib/../../../../etc/passwd"), "/../../etc/passwd");
    assert_eq!(PathNotation::normalise("/.."), "/..");
    assert_eq!(PathNotation::normalise("/public/.."), "/");
}

#[test]
fn round_trip_from_glyph() {
    let cases = [("public/", "@/lib/setup.php"), ("public/", "#/config-dist.php"), ("", "@/lib/setup.php")];
    for (dirroot_prefix, glyph_path) in cases {
        let notation = PathNotation::new(dirroot_prefix);
        let repo_path = notation.to_repo_path(glyph_path);
        assert_eq!(notation.to_glyph(&format!("/{repo_path}")), glyph_path);
    }
}
