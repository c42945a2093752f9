use scan_moodle::collections::StringSet;
use scan_moodle::moodle::categorise::PathCategory;
use scan_moodle::moodle::resolver::Resolution;
use scan_moodle::moodle::scan::CategorisedReference;
use scan_moodle::path_finder::PathKind;
use scan_moodle::path_finder::PathResult;
use scan_moodle::rewrite::output::write_csv;
use scan_moodle::rewrite::output::AuditWriter;

const UTF8_BOM: [u8; 3] = [0xEF, 0xBB, 0xBF];

const HEADER: [&str; 12] = [
    "file",
    "line",
    "start",
    "end",
    "code",
    "kind",
    "glyph_path",
    "normalised_path",
    "source_component",
    "target_component",
    "path_in_component",
    "category",
];

fn reference() -> CategorisedReference {
    CategorisedReference {
        file: "public/mod/quiz/view.php".to_string(),
        result: PathResult {
            path: "@/mod/quiz/lib.php".to_string(),
            real_path: "public/mod/quiz/lib.php".to_string(),
            kind: PathKind::Dirroot,
            line: 12,
            code: "$CFG->dirroot . '/mod/quiz/lib.php'".to_string(),
            parent: Some("require_once".to_string()),
            start_pos: Some(20),
            end_pos: Some(56),
            separator: "/".to_string(),
            mono_path_expr: String::new(),
            scope_end_line: None,
        },
        source_component: Some("mod_quiz".to_string()),
        target: Some(Resolution {
            component: "mod_quiz".to_string(),
            path_in_component: "/lib.php".to_string(),
        }),
        category: PathCategory::StaticSameComponent,
    }
}

#[test]
fn writes_a_header_and_one_row_per_reference() {
    let content = write_csv(&[reference()], &StringSet::new()).into_bytes();
    assert_eq!(&content[..3], &UTF8_BOM, "expected a UTF-8 BOM at the start of the file");

    let mut reader = csv::ReaderBuilder::new().from_reader(&content[3..]);
    let headers: Vec<String> = reader.headers().unwrap().iter().map(String::from).collect();
    assert_eq!(
        headers,
        HEADER.iter().copied().chain(["still_needs_rewrite"]).map(String::from).collect::<Vec<_>>()
    );

    let records: Vec<csv::StringRecord> = reader.records().collect::<Result<_, _>>().unwrap();
    assert_eq!(records.len(), 1);
    assert_eq!(&records[0][0], "public/mod/quiz/view.php");
    assert_eq!(&records[0][8], "mod_quiz"); // source_component
    assert_eq!(&records[0][9], "mod_quiz"); // target_component
    assert_eq!(&records[0][10], "/lib.php"); // path_in_component
    assert_eq!(&records[0][11], "static-same-component"); // category
    assert_eq!(&records[0][12], "true"); // still_needs_rewrite
}

#[test]
fn still_needs_rewrite_is_false_once_the_code_already_matches() {
    let mut already_rewritten = reference();
    already_rewritten.result.code = "__DIR__ . '/lib.php'".to_string();
    let content = write_csv(&[already_rewritten], &StringSet::new()).into_bytes();

    let mut reader = csv::ReaderBuilder::new().from_reader(&content[3..]);
    let records: Vec<csv::StringRecord> = reader.records().collect::<Result<_, _>>().unwrap();
    assert_eq!(&records[0][12], "false"); // still_needs_rewrite
}

#[test]
fn audit_writer_appends_a_rewritten_to_column() {
    let mut audit = AuditWriter::create();
    audit.write_row(&reference(), "__DIR__ . '/lib.php'");
    audit.write_row(&reference(), "");
    let content = audit.finish().into_bytes();

    let mut reader = csv::ReaderBuilder::new().from_reader(&content[3..]);
    let headers: Vec<String> = reader.headers().unwrap().iter().map(String::from).collect();
    assert_eq!(headers.last().unwrap(), "rewritten_to");
    assert_eq!(headers.len(), HEADER.len() + 1);

    let records: Vec<csv::StringRecord> = reader.records().collect::<Result<_, _>>().unwrap();
    assert_eq!(records.len(), 2);
    assert_eq!(&records[0][12], "__DIR__ . '/lib.php'");
    assert_eq!(&records[1][12], "");
}

#[test]
fn the_document_is_written_out_exactly() {
    let mut with_quotes = reference();
    with_quotes.result.code = "\"$CFG->dirroot/a,\tb\"\n".to_string();
    let mut audit = AuditWriter::create();
    audit.write_row(&with_quotes, "x\ny");
    assert_eq!(
        audit.finish(),
        "\u{feff}file,line,start,end,code,kind,glyph_path,normalised_path,source_component,\
         target_component,path_in_component,category,rewritten_to\r\n\
         public/mod/quiz/view.php,12,20,56,\"\"\"$CFG->dirroot/a, b\"\"\\n\",dirroot,@/mod/quiz/lib.php,\
         public/mod/quiz/lib.php,mod_quiz,mod_quiz,/lib.php,static-same-component,x\\ny\r\n"
    );
}
