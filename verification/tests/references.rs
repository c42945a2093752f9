use scan_moodle::path_finder::find_paths;
use scan_moodle::path_finder::is_well_nested;
use scan_moodle::path_finder::parse;
use scan_moodle::path_finder::paths_in;
use scan_moodle::path_finder::syntax::Tree;
use scan_moodle::path_finder::PathKind;
use scan_moodle::path_finder::PathNotation;
use scan_moodle::path_finder::PathResult;

const FILE: &str = "public/mod/quiz/view.php";

fn found(source: &str) -> Vec<PathResult> {
    find_paths(source, FILE, &PathNotation::new("public/"))
}

fn single(source: &str) -> PathResult {
    let mut results = found(source);
    assert_eq!(results.len(), 1, "expected exactly one path in {source:?}");
    results.remove(0)
}

#[test]
fn a_reference_records_where_it_stands() {
    let source = "<?php\n\n  require_once($CFG->libdir . '/a.php');\n";
    let result = single(source);
    assert_eq!(result.line, 3);
    assert_eq!(result.code, "$CFG->libdir . '/a.php'");
    assert_eq!(&source[result.start_pos.unwrap()..result.end_pos.unwrap()], "$CFG->libdir . '/a.php'");
    assert_eq!(result.parent, Some("require_once".to_string()));
    assert_eq!(result.kind, PathKind::Libdir);
    assert_eq!(result.path, "@/lib/a.php");
    assert_eq!(result.real_path, "public/lib/a.php");
    assert_eq!(result.separator, "");
    assert_eq!(result.scope_end_line, None);
}

#[test]
fn a_reference_in_a_branch_reaches_to_the_end_of_the_branch() {
    let results = found("<?php\nif ($a) {\n  require('b.php');\n\n}\nrequire('c.php');\n");
    assert_eq!(results.len(), 2);
    assert_eq!(results[0].scope_end_line, Some(5));
    assert_eq!(results[1].scope_end_line, None);
}

#[test]
fn a_required_variable_is_traced_to_its_nearest_assignment() {
    let results = found("<?php\n$f = $CFG->libdir . '/old.php';\n$f = __DIR__ . '/lib.php';\nrequire($f);\n");
    assert_eq!(results.len(), 3);
    let last = &results[2];
    assert_eq!(last.kind, PathKind::TracedVariable);
    assert_eq!(last.real_path, "public/mod/quiz/lib.php");
    assert_eq!(last.code, "$f");
    assert_eq!(last.line, 4);
}

#[test]
fn an_unassigned_variable_is_no_path() {
    assert!(found("<?php require($f);").is_empty());
}

#[test]
fn parents_are_the_calls_that_a_reference_is_an_argument_of() {
    assert_eq!(single("<?php file_exists($CFG->dirroot);").parent, Some("file_exists".to_string()));
    assert_eq!(single("<?php Foo::bar(1, $CFG->dirroot . '/x');").parent, Some("Foo::bar".to_string()));
    assert_eq!(single("<?php $x = $CFG->dirroot;").parent, None);
}

#[test]
fn dirname_climbs_as_many_levels_as_it_says() {
    assert_eq!(single("<?php dirname(__DIR__) . '/x.php';").real_path, "public/mod/x.php");
    assert_eq!(single("<?php dirname(__DIR__, 2) . '/x.php';").real_path, "public/x.php");
    assert_eq!(single("<?php dirname(__FILE__) . '/x.php';").real_path, "public/mod/quiz/x.php");
}

#[test]
fn levels_are_read_as_php_reads_integers() {
    let deep = |levels: &str| {
        let source = format!("<?php dirname(__DIR__, {levels}) . '/x.php';");
        let mut results = find_paths(&source, "a/b/c/d/e/f/g/h/i/j/k/view.php", &PathNotation::new(""));
        assert_eq!(results.len(), 1, "expected exactly one path for {levels}");
        results.remove(0).real_path
    };
    assert_eq!(deep("8"), "a/b/c/x.php");
    assert_eq!(deep("10"), "a/x.php");
    // A leading zero stands before octal digits.
    assert_eq!(deep("010"), "a/b/c/x.php");
    assert_eq!(deep("0o10"), "a/b/c/x.php");
    assert_eq!(deep("0x0A"), "a/x.php");
    assert_eq!(deep("0b1_0"), "a/b/c/d/e/f/g/h/i/x.php");
    assert_eq!(deep("9223372036854775807"), "x.php");
    assert!(found("<?php dirname(__DIR__, 9223372036854775808) . '/x.php';").is_empty());
    assert!(found("<?php dirname(__DIR__, 0) . '/x.php';").is_empty());
    assert!(found("<?php dirname(__DIR__, $n) . '/x.php';").is_empty());
}

#[test]
fn places_count_bytes_and_hold_the_code() {
    let source = "<?php /* \u{e9}\u{4e2d} */ require($CFG->libdir . '/\u{1f600}.php');";
    let result = single(source);
    assert_eq!(&source[result.start_pos.unwrap()..result.end_pos.unwrap()], result.code);
    assert_eq!(result.code, "$CFG->libdir . '/\u{1f600}.php'");
    assert_eq!(PathNotation::new("public/").to_repo_path(&result.path), result.real_path);
}

fn leaf(start: usize, end: usize) -> Tree {
    Tree { kind: "Expression".to_string(), start, end, line: 0, end_line: 0, children: Vec::new() }
}

#[test]
fn trees_that_overlap_are_not_well_nested() {
    let mut tree = leaf(0, 9);
    tree.children = vec![leaf(0, 4), leaf(4, 9)];
    assert!(is_well_nested(&vec![tree]));
    let mut tree = leaf(0, 9);
    tree.children = vec![leaf(0, 5), leaf(4, 9)];
    assert!(!is_well_nested(&vec![tree]));
    let mut tree = leaf(0, 8);
    tree.children = vec![leaf(0, 9)];
    assert!(!is_well_nested(&vec![tree]));
    assert!(is_well_nested(&vec![leaf(0, 4), leaf(4, 9)]));
    assert!(!is_well_nested(&vec![leaf(4, 9), leaf(0, 4)]));
}

#[test]
fn escapes_in_literals_are_resolved() {
    assert_eq!(single("<?php __DIR__ . \"/a\\x41\\n.php\";").real_path, "public/mod/quiz/aA\n.php");
    assert_eq!(single("<?php __DIR__ . '/a\\'\\n.php';").real_path, "public/mod/quiz/a'\\n.php");
}

#[test]
fn escapes_that_make_no_text_are_decoded_lossily() {
    assert_eq!(single("<?php __DIR__ . \"/\\xff\\n\\101\\q.php\";").real_path, "public/mod/quiz/\u{fffd}\nA\\q.php");
    assert_eq!(single("<?php \"$CFG->dirroot/\\377\\x4a\\xZ\\8\u{e9}\";").real_path, "public/\u{fffd}J\\xZ\\8\u{e9}");
    // Two bytes that are one character together.
    assert_eq!(single("<?php __DIR__ . \"/\\xc3\\xa9\";").real_path, "public/mod/quiz/\u{e9}");
    assert_eq!(single("<?php __DIR__ . b\"/\\xff\";").real_path, "public/mod/quiz/\u{fffd}");
    assert_eq!(single("<?php __DIR__ . '/\\xff';").real_path, "public/mod/quiz/\\xff");
}

#[test]
fn what_overlaps_a_reference_is_none_of_its_own() {
    let source = "<?php $CFG->dirroot . '/a.php'; $CFG->libdir;";
    let mut trees = parse(source);
    trees.extend(parse(source));
    assert!(!is_well_nested(&trees));
    let results = paths_in(&trees, source, FILE, &PathNotation::new("public/"));
    assert_eq!(results, found(source));
    assert_eq!(results.len(), 2);
}

#[test]
fn what_is_only_known_at_runtime_stands_in_braces() {
    assert_eq!(single("<?php \"$CFG->dirroot/mod/{$name}/lib.php\";").real_path, "public/mod/{$name}/lib.php");
    assert_eq!(single("<?php $CFG->dirroot . '/' . f($x);").real_path, "public/{f($x)}");
}

#[test]
fn paths_above_the_repository_stay_above_it() {
    assert_eq!(single("<?php __DIR__ . '/../../../../x';").real_path, "../x");
}

#[test]
fn references_come_from_the_syntax_of_the_file() {
    let source = "<?php $CFG->dirroot; // $CFG->dirroot\n";
    let notation = PathNotation::new("public/");
    let trees = parse(source);
    assert_eq!(trees.len(), 1);
    let results = paths_in(&trees, source, FILE, &notation);
    assert_eq!(results, found(source));
    assert!(paths_in(&Vec::new(), source, FILE, &notation).is_empty());
}

#[test]
fn kinds_have_names() {
    let names: Vec<String> = [
        PathKind::Dirroot,
        PathKind::Libdir,
        PathKind::Root,
        PathKind::Dir,
        PathKind::File,
        PathKind::RequireLiteral,
        PathKind::TracedVariable,
    ]
    .iter()
    .map(|kind| kind.to_string())
    .collect();
    assert_eq!(names, vec!["dirroot", "libdir", "root", "dir", "file", "require-literal", "traced-variable"]);
}

#[test]
fn syntax_trees_are_well_nested() {
    let source = r#"<?php
namespace local_x;
use core\component as c;
/** Doc. */
#[Attr(__DIR__ . '/a.php')]
abstract class a extends b implements d {
    use t { t::f as protected g; }
    public const X = __DIR__ . '/x.php';
    public function __construct(private readonly ?string $p = null, int ...$rest) {
        if ($p) : require($CFG->dirroot . "/mod/{$p}/lib.php"); elseif (!$rest): echo <<<EOT
  $CFG->libdir and {$this->q[0]}
  EOT; else: foreach ($rest as $k => &$v) { continue; } endif;
    }
}
$f = fn($x) => match (true) { $x > 1, $x < 0 => dirname(__FILE__, 2) . '/y.php', default => [1, 'a' => 2, ...$z] };
try { $a->b()?->c::$d['e'] .= static function () use (&$f): void { yield from g(n: 1); }; }
catch (\Exception | \Error $e) { throw new class($e) {}; } finally { include_once 'z.php'; }
switch ($a) { case 1: break; default: goto end; }
end: for ($i = 0, $j = 1; $i < 3; $i++) ;
list('a' => [$m, ]) = $n; [$o, $p] = $q ?: $r ?? ($s ? $t : $u);
?>
<p><?= $CFG->wwwroot ?></p>
"#;
    let trees = parse(source);
    assert_eq!(trees.len(), 1);
    assert!(is_well_nested(&trees));
    let results = found(source);
    assert!(results.len() >= 6);
    for pair in results.windows(2) {
        assert!(pair[0].end_pos.unwrap() <= pair[1].start_pos.unwrap());
    }
}
