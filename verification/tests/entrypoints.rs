use scan_moodle::moodle::entrypoints::classify;
use scan_moodle::moodle::entrypoints::parse_undetected_entry_points;
use scan_moodle::moodle::entrypoints::pre_component_extents;
use scan_moodle::moodle::entrypoints::BootstrapKind;
use scan_moodle::moodle::entrypoints::BoundaryEdge;
use scan_moodle::moodle::entrypoints::FileClassification;
use scan_moodle::moodle::entrypoints::PreComponentExtent;
use scan_moodle::path_finder::PathKind;
use scan_moodle::path_finder::PathNotation;
use scan_moodle::path_finder::PathResult;

fn result(real_path: &str, parent: Option<&str>, line: u32) -> PathResult {
    scoped_result(real_path, parent, line, None)
}

fn scoped_result(
    real_path: &str,
    parent: Option<&str>,
    line: u32,
    scope_end_line: Option<u32>,
) -> PathResult {
    PathResult {
        path: String::new(),
        real_path: real_path.to_string(),
        kind: PathKind::Dirroot,
        line,
        code: String::new(),
        parent: parent.map(str::to_string),
        start_pos: None,
        end_pos: None,
        separator: String::new(),
        mono_path_expr: String::new(),
        scope_end_line,
    }
}

fn up_to_line(line: u32) -> PreComponentExtent {
    PreComponentExtent::UpToLine(vec![BoundaryEdge::unbounded(line)])
}

fn notation() -> PathNotation {
    PathNotation::new("public/")
}

fn config_chain_files() -> Vec<(String, Vec<PathResult>)> {
    vec![
        (
            "public/config.php".to_string(),
            vec![result("config.php", Some("require_once"), 31)],
        ),
        (
            "lib/setup.php".to_string(),
            vec![result("public/lib/setup.php", Some("require_once"), 29)],
        ),
        (
            "public/lib/setup.php".to_string(),
            vec![result(
                "public/lib/classes/component.php",
                Some("require_once"),
                442,
            )],
        ),
        ("public/lib/classes/component.php".to_string(), vec![]),
    ]
}

#[test]
fn direct_component_require_is_classified_with_its_line() {
    let files = vec![
        (
            "public/lib/setup.php".to_string(),
            vec![result(
                "public/lib/classes/component.php",
                Some("require_once"),
                442,
            )],
        ),
        ("public/lib/classes/component.php".to_string(), vec![]),
    ];
    let classifications = classify(&files, &notation());
    assert_eq!(
        classifications,
        vec![
            FileClassification {
                file: "public/lib/classes/component.php".to_string(),
                kind: BootstrapKind::Other,
                extent: None,
            },
            FileClassification {
                file: "public/lib/setup.php".to_string(),
                kind: BootstrapKind::Other,
                extent: Some(up_to_line(442)),
            },
        ]
    );
}

#[test]
fn synthetic_config_edge_connects_the_real_chain_all_the_way_through() {
    let classifications = classify(&config_chain_files(), &notation());
    assert_eq!(
        classifications,
        vec![
            FileClassification {
                file: "lib/setup.php".to_string(),
                kind: BootstrapKind::Other,
                extent: Some(up_to_line(29)),
            },
            FileClassification {
                file: "public/config.php".to_string(),
                kind: BootstrapKind::Other,
                extent: Some(up_to_line(31)),
            },
            FileClassification {
                file: "public/lib/classes/component.php".to_string(),
                kind: BootstrapKind::Other,
                extent: None,
            },
            FileClassification {
                file: "public/lib/setup.php".to_string(),
                kind: BootstrapKind::Other,
                extent: Some(up_to_line(442)),
            },
        ]
    );
}

#[test]
fn pre_5_1_layout_page_reaches_the_boundary_via_bare_config_php() {
    let files = vec![
        (
            "mod/assign/view.php".to_string(),
            vec![result("config.php", Some("require"), 5)],
        ),
        (
            "lib/setup.php".to_string(),
            vec![result(
                "lib/classes/component.php",
                Some("require_once"),
                100,
            )],
        ),
        ("lib/classes/component.php".to_string(), vec![]),
    ];
    let classifications = classify(&files, &PathNotation::new(""));
    assert_eq!(
        classifications
            .iter()
            .find(|c| c.file == "mod/assign/view.php")
            .unwrap(),
        &FileClassification {
            file: "mod/assign/view.php".to_string(),
            kind: BootstrapKind::Other,
            extent: Some(up_to_line(5)),
        }
    );
}

#[test]
fn a_require_nested_in_a_method_does_not_leak_to_a_caller_that_only_uses_the_class() {
    let files = vec![
        (
            "public/lib/classes/router/util.php".to_string(),
            vec![result("public/lib/setup.php", Some("require"), 361)],
        ),
        (
            "public/lib/setup.php".to_string(),
            vec![result(
                "public/lib/classes/component.php",
                Some("require_once"),
                442,
            )],
        ),
        ("public/lib/classes/component.php".to_string(), vec![]),
        // The caller: no PathResult at all, since `\core\router\util::load_full_moodle();` is a
        // plain method call, not a require/include — find_paths would never emit one for it.
        (
            "public/lib/classes/router/middleware/error_handling_middleware.php".to_string(),
            vec![],
        ),
    ];
    let classifications = classify(&files, &notation());
    assert_eq!(
        classifications
            .iter()
            .find(|c| c.file == "public/lib/classes/router/util.php")
            .unwrap()
            .kind,
        BootstrapKind::Other
    );
    assert!(classifications.iter().all(
        |c| c.file != "public/lib/classes/router/middleware/error_handling_middleware.php"
    ));
}

#[test]
fn a_file_with_requires_before_its_own_config_line_gets_the_right_extent() {
    let mut files = config_chain_files();
    files.push((
        "public/lib/phpunit/bootstrap.php".to_string(),
        vec![
            result(
                "public/lib/phpunit/bootstraplib.php",
                Some("require_once"),
                51,
            ),
            result("public/lib/testing/lib.php", Some("require_once"), 52),
            result("public/config.php", Some("require"), 86),
        ],
    ));
    let classifications = classify(&files, &notation());
    assert_eq!(
        classifications
            .iter()
            .find(|c| c.file == "public/lib/phpunit/bootstrap.php")
            .unwrap(),
        &FileClassification {
            file: "public/lib/phpunit/bootstrap.php".to_string(),
            kind: BootstrapKind::Other,
            extent: Some(up_to_line(86)),
        }
    );
}

#[test]
fn a_later_unconditional_edge_does_not_shrink_what_an_earlier_one_already_covers() {
    let mut files = config_chain_files();
    files.push((
        "public/theme/font.php".to_string(),
        vec![
            result("public/config.php", Some("require"), 32),
            result("public/lib/setup.php", Some("require"), 138),
        ],
    ));
    let classifications = classify(&files, &notation());
    let font_php = classifications
        .iter()
        .find(|c| c.file == "public/theme/font.php")
        .unwrap();
    assert_eq!(font_php.kind, BootstrapKind::Other);
    let extent = font_php.extent.as_ref().expect("has an extent");
    for line in [1, 32, 33, 100, 138, 139] {
        assert_eq!(
            extent.covers(line),
            line <= 32,
            "line {line} should be pre-component only up to and including line 32"
        );
    }
}

#[test]
fn transitive_chain_reports_each_files_own_line() {
    let files = vec![
        (
            "lib/setup.php".to_string(),
            vec![result("public/lib/setup.php", Some("require_once"), 29)],
        ),
        (
            "public/lib/setup.php".to_string(),
            vec![result(
                "public/lib/classes/component.php",
                Some("require_once"),
                442,
            )],
        ),
        ("public/lib/classes/component.php".to_string(), vec![]),
    ];
    let classifications = classify(&files, &notation());
    let lib_setup = classifications
        .iter()
        .find(|c| c.file == "lib/setup.php")
        .unwrap();
    assert_eq!(
        lib_setup,
        &FileClassification {
            file: "lib/setup.php".to_string(),
            kind: BootstrapKind::Other,
            extent: Some(up_to_line(29)),
        }
    );
}

#[test]
fn require_passed_as_a_function_argument_is_not_an_edge() {
    let files = vec![
        (
            "public/mod/forum/lib.php".to_string(),
            vec![result(
                "public/lib/classes/component.php",
                Some("file_exists"),
                1,
            )],
        ),
        ("public/lib/classes/component.php".to_string(), vec![]),
    ];
    let classifications = classify(&files, &notation());
    assert!(
        classifications
            .iter()
            .all(|c| c.file != "public/mod/forum/lib.php")
    );
}

#[test]
fn a_file_reaching_public_config_gets_an_extent() {
    let mut files = config_chain_files();
    files.push((
        "public/course/view.php".to_string(),
        vec![result("public/config.php", Some("require"), 12)],
    ));
    let classifications = classify(&files, &notation());
    assert_eq!(
        classifications
            .iter()
            .find(|c| c.file == "public/course/view.php")
            .unwrap(),
        &FileClassification {
            file: "public/course/view.php".to_string(),
            kind: BootstrapKind::Other,
            extent: Some(up_to_line(12)),
        },
    );
}

#[test]
fn cli_directory_is_classified_as_cli() {
    let mut files = config_chain_files();
    files.push((
        "admin/cli/cron.php".to_string(),
        vec![result("public/config.php", Some("require"), 12)],
    ));
    let classifications = classify(&files, &notation());
    assert_eq!(
        classifications
            .iter()
            .find(|c| c.file == "admin/cli/cron.php")
            .unwrap()
            .kind,
        BootstrapKind::Cli
    );
}

#[test]
fn a_file_requiring_another_config_reaching_file_is_also_classified() {
    let mut files = config_chain_files();
    files.extend(vec![
        (
            "lib/ajax/service-nologin.php".to_string(),
            vec![result("public/lib/ajax/service.php", Some("require"), 5)],
        ),
        (
            "public/lib/ajax/service.php".to_string(),
            vec![result("public/config.php", Some("require"), 20)],
        ),
    ]);
    let classifications = classify(&files, &notation());
    assert!(classifications
        .iter()
        .any(|c| c.file == "lib/ajax/service-nologin.php" && c.kind == BootstrapKind::Other));
}

#[test]
fn non_real_files_never_appear_in_output() {
    let files = vec![
        ("public/config.php".to_string(), vec![]),
        (
            "public/lib/setup.php".to_string(),
            vec![result(
                "public/lib/classes/component.php",
                Some("require_once"),
                442,
            )],
        ),
        ("public/lib/classes/component.php".to_string(), vec![]),
    ];
    let classifications = classify(&files, &notation());
    // Root config.php and root lib/setup.php are never scanned files (only their `public/`
    // counterparts are, in this fixture), so they must never be reported even though the
    // synthetic edge always mentions them internally.
    assert!(
        classifications
            .iter()
            .all(|c| c.file != "config.php" && c.file != "lib/setup.php")
    );
}

#[test]
fn a_leaf_required_before_a_files_own_boundary_line_gets_the_whole_file_extent() {
    let files = vec![
        (
            "public/install.php".to_string(),
            vec![
                result(
                    "public/lib/phpminimumversionlib.php",
                    Some("require_once"),
                    70,
                ),
                result("public/lib/classes/component.php", Some("require_once"), 95),
            ],
        ),
        ("public/lib/phpminimumversionlib.php".to_string(), vec![]),
        ("public/lib/classes/component.php".to_string(), vec![]),
    ];
    let classifications = classify(&files, &notation());
    assert_eq!(
        classifications
            .iter()
            .find(|c| c.file == "public/lib/phpminimumversionlib.php")
            .unwrap(),
        &FileClassification {
            file: "public/lib/phpminimumversionlib.php".to_string(),
            kind: BootstrapKind::BootstrapDependency,
            extent: Some(PreComponentExtent::WholeFile),
        }
    );
}

#[test]
fn a_leaf_required_before_a_files_own_config_line_gets_the_whole_file_extent() {
    let mut files = config_chain_files();
    files.extend(vec![
        (
            "public/admin/index.php".to_string(),
            vec![
                result(
                    "public/lib/phpminimumversionlib.php",
                    Some("require_once"),
                    32,
                ),
                result("public/config.php", Some("require"), 87),
            ],
        ),
        ("public/lib/phpminimumversionlib.php".to_string(), vec![]),
    ]);
    let classifications = classify(&files, &notation());
    assert_eq!(
        classifications
            .iter()
            .find(|c| c.file == "public/lib/phpminimumversionlib.php")
            .unwrap()
            .extent,
        Some(PreComponentExtent::WholeFile)
    );
}

#[test]
fn a_dependencys_own_dependency_is_discovered_transitively() {
    let mut files = config_chain_files();
    files.extend(vec![
        (
            "public/lib/phpunit/bootstrap.php".to_string(),
            vec![
                result(
                    "public/lib/phpunit/bootstraplib.php",
                    Some("require_once"),
                    51,
                ),
                result("public/config.php", Some("require"), 86),
            ],
        ),
        (
            "public/lib/phpunit/bootstraplib.php".to_string(),
            vec![result(
                "public/lib/testing/lib.php",
                Some("require_once"),
                28,
            )],
        ),
        ("public/lib/testing/lib.php".to_string(), vec![]),
    ]);
    let classifications = classify(&files, &notation());
    assert_eq!(
        classifications
            .iter()
            .find(|c| c.file == "public/lib/phpunit/bootstraplib.php")
            .unwrap()
            .extent,
        Some(PreComponentExtent::WholeFile)
    );
    assert_eq!(
        classifications
            .iter()
            .find(|c| c.file == "public/lib/testing/lib.php")
            .unwrap()
            .extent,
        Some(PreComponentExtent::WholeFile)
    );
}

#[test]
fn a_require_after_the_files_own_boundary_is_not_pulled_in() {
    let files = vec![
        (
            "public/lib/setup.php".to_string(),
            vec![
                result("public/lib/classes/component.php", Some("require_once"), 50),
                result("public/lib/setuplib_late.php", Some("require_once"), 60),
            ],
        ),
        ("public/lib/classes/component.php".to_string(), vec![]),
        ("public/lib/setuplib_late.php".to_string(), vec![]),
    ];
    let classifications = classify(&files, &notation());
    assert!(
        classifications
            .iter()
            .all(|c| c.file != "public/lib/setuplib_late.php")
    );
}

#[test]
fn a_leaf_required_by_two_different_files_is_reported_once() {
    let mut files = config_chain_files();
    files.extend(vec![
        (
            "public/install.php".to_string(),
            vec![
                result(
                    "public/lib/phpminimumversionlib.php",
                    Some("require_once"),
                    70,
                ),
                result("public/lib/classes/component.php", Some("require_once"), 95),
            ],
        ),
        (
            "public/admin/index.php".to_string(),
            vec![
                result(
                    "public/lib/phpminimumversionlib.php",
                    Some("require_once"),
                    32,
                ),
                result("public/config.php", Some("require"), 87),
            ],
        ),
        ("public/lib/phpminimumversionlib.php".to_string(), vec![]),
    ]);
    let classifications = classify(&files, &notation());
    assert_eq!(
        classifications
            .iter()
            .filter(|c| c.file == "public/lib/phpminimumversionlib.php")
            .count(),
        1
    );
}

#[test]
fn a_file_with_nothing_before_its_config_line_discovers_no_dependencies() {
    let mut files = config_chain_files();
    files.push((
        "public/course/view.php".to_string(),
        vec![result("public/config.php", Some("require"), 12)],
    ));
    let classifications = classify(&files, &notation());
    assert_eq!(
        classifications
            .iter()
            .find(|c| c.file == "public/course/view.php")
            .unwrap(),
        &FileClassification {
            file: "public/course/view.php".to_string(),
            kind: BootstrapKind::Other,
            extent: Some(up_to_line(12)),
        }
    );
    assert!(
        classifications
            .iter()
            .all(|c| c.extent != Some(PreComponentExtent::WholeFile))
    );
}

#[test]
fn parse_undetected_entry_points_skips_blanks_and_comments() {
    let source = "\n\
        # comment\n\
          admin/tool/phpunit/cli/init.php  \n\
        \n\
        # another comment\n\
        some/other/file.php\n";
    let parsed = parse_undetected_entry_points(source, &notation());
    assert_eq!(
        parsed,
        vec![
            "public/admin/tool/phpunit/cli/init.php".to_string(),
            "public/some/other/file.php".to_string(),
        ]
    );
}

#[test]
fn a_file_the_graph_cannot_reach_is_still_classified_via_the_hand_seeded_list() {
    let files = vec![("public/admin/tool/phpunit/cli/init.php".to_string(), vec![])];
    let classifications = classify(&files, &notation());
    assert_eq!(
        classifications,
        vec![FileClassification {
            file: "public/admin/tool/phpunit/cli/init.php".to_string(),
            kind: BootstrapKind::Cli,
            extent: Some(PreComponentExtent::WholeFile),
        }]
    );
}

#[test]
fn pre_component_extents_marks_a_hand_seeded_file_as_whole_file() {
    let files = vec![(
        "public/admin/tool/phpunit/cli/init.php".to_string(),
        vec![result("public/lib/clilib.php", Some("require_once"), 41)],
    )];
    let extents = pre_component_extents(&files, &notation());
    assert_eq!(
        extents.get("public/admin/tool/phpunit/cli/init.php"),
        Some(&PreComponentExtent::WholeFile)
    );
}

#[test]
fn a_hand_seeded_path_absent_from_the_codebase_is_not_reported() {
    let classifications = classify(&[], &notation());
    assert!(classifications.is_empty());
}

#[test]
fn a_hand_seeded_path_with_a_real_chain_of_its_own_keeps_its_real_extent() {
    let mut files = config_chain_files();
    files.push((
        "public/admin/tool/phpunit/cli/init.php".to_string(),
        vec![result("public/config.php", Some("require"), 40)],
    ));
    let classifications = classify(&files, &notation());
    assert_eq!(
        classifications
            .iter()
            .find(|c| c.file == "public/admin/tool/phpunit/cli/init.php")
            .unwrap(),
        &FileClassification {
            file: "public/admin/tool/phpunit/cli/init.php".to_string(),
            kind: BootstrapKind::Cli,
            extent: Some(up_to_line(40)),
        }
    );
}
