use scan_moodle::path_finder::expression::extract_separator;
use scan_moodle::path_finder::expression::is_potential_path;
use scan_moodle::path_finder::expression::quote_single;
use scan_moodle::path_finder::expression::Context;
use scan_moodle::path_finder::parse;
use scan_moodle::path_finder::syntax::Tree;
use scan_moodle::path_finder::PathNotation;

fn top_level_expr(tree: &Tree) -> Option<&Tree> {
    if tree.kind == "ExpressionStatement" {
        return tree.children.iter().find(|child| child.kind == "Expression");
    }
    tree.children.iter().find_map(top_level_expr)
}

fn with_top_level_expr<R>(code: &str, ask: fn(&Context, &Tree) -> R) -> R {
    let source = format!("<?php {code};");
    let notation = PathNotation::new("public/");
    let trees = parse(&source);
    let expr = trees.iter().find_map(top_level_expr).expect("expected an expression statement");
    let context = Context { bytes: source.as_bytes(), file: "test.php", notation: &notation };
    ask(&context, expr)
}

fn potential(code: &str) -> bool {
    with_top_level_expr(code, is_potential_path)
}

#[test]
fn is_potential_path_dirroot_concat() {
    assert!(potential("$CFG->dirroot . 'lib.php'"));
}

#[test]
fn is_potential_path_dir_magic_constant_concat() {
    assert!(potential("__DIR__ . 'lib.php'"));
}

#[test]
fn is_potential_path_file_magic_constant_concat() {
    assert!(potential("__FILE__ . 'lib.php'"));
}

#[test]
fn is_potential_path_unrelated_concat_is_false() {
    assert!(!potential("'/var/www/html/' . 'lib.php'"));
}

#[test]
fn separators_are_the_literal_behind_the_root() {
    assert_eq!(with_top_level_expr("$CFG->dirroot . '/' . $x", extract_separator), "/");
    assert_eq!(with_top_level_expr("$CFG->dirroot . DIRECTORY_SEPARATOR . $x", extract_separator), "DIRECTORY_SEPARATOR");
    assert_eq!(with_top_level_expr("$CFG->dirroot . $x", extract_separator), "");
}

#[test]
fn quoting_escapes_quotes_and_backslashes() {
    assert_eq!(quote_single("it's a \\ path"), "'it\\'s a \\\\ path'");
}
