use cs375_autograder::changes::Difference;
use cs375_autograder::lex::GradeError;
use cs375_autograder::p3;
use cs375_autograder::p4;
use cs375_autograder::parse::{
    compare_regions, extract_table, extract_tree, fold_regions, grade, grade_test,
    normalize_table, Test,
};
use cs375_autograder::report::Outcome;

const TABLE: &str = " 94694260220992        real  BASIC  basicdt   1          siz     8\n 94694260221088     integer  BASIC  basicdt   0          siz     4\n";

const OUTPUT: &str = "Symbol table level 0\n 1234  x\nSymbol table level 1\n 11111111        real  BASIC  basicdt   1          siz     8\n   22     integer  BASIC  basicdt   0          siz     4\nyyparse result =        0\n(program graph1 (progn output)\n  (progn (:= i 0)))\n";

const TREE: &str = "(program graph1 (progn output)\n  (progn (:= i 0)))\n";

#[test]
fn the_offset_column_is_dropped() {
    assert_eq!(normalize_table(" 12  a b\n34 c\n"), "a b\nc");
    assert_eq!(normalize_table("   a 12\n"), "a 12");
    assert_eq!(normalize_table("12 34 a\n"), "34 a");
    assert_eq!(normalize_table("12\n13 b\n"), "b");
    assert_eq!(normalize_table(""), "");
    assert_eq!(
        normalize_table(TABLE),
        "real  BASIC  basicdt   1          siz     8\ninteger  BASIC  basicdt   0          siz     4"
    );
}

#[test]
fn the_table_follows_the_marker_line() {
    assert_eq!(
        extract_table(OUTPUT),
        Some(
            "real  BASIC  basicdt   1          siz     8\ninteger  BASIC  basicdt   0          siz     4"
                .to_string()
        )
    );
    assert_eq!(extract_table("Symbol table level 1"), Some(String::new()));
    assert_eq!(extract_table("Symbol table level 1 7 x\n8 y\nz\n9 w\n"), Some("y".to_string()));
    assert_eq!(extract_table("Symbol table level 0\n1 x\n"), None);
    assert_eq!(extract_table(""), None);
}

#[test]
fn the_tree_runs_from_its_marker_to_the_end() {
    assert_eq!(extract_tree(OUTPUT), Some(TREE.trim().to_string()));
    assert_eq!(extract_tree("x (program a)  \n\n"), Some("(program a)".to_string()));
    assert_eq!(extract_tree("(progra"), None);
}

#[test]
fn tables_that_differ_in_offsets_only_pass() {
    assert_eq!(grade_test(TABLE, TREE, OUTPUT), Ok(vec![]));
}

#[test]
fn a_missing_region_is_an_error() {
    assert_eq!(grade_test(TABLE, TREE, "(program x)"), Err(GradeError::NoSymbolTable));
    assert_eq!(
        grade_test(TABLE, TREE, "Symbol table level 1\n1 real\n"),
        Err(GradeError::NoTree)
    );
    assert_eq!(grade_test(TABLE, TREE, ""), Err(GradeError::NoSymbolTable));
}

#[test]
fn a_wrong_row_is_removed_and_added() {
    let actual = OUTPUT.replace("integer", "boolean");
    assert_eq!(
        grade_test(TABLE, TREE, &actual),
        Ok(vec![
            Difference::Same("real  BASIC  basicdt   1          siz     8".to_string()),
            Difference::Removed("integer  BASIC  basicdt   0          siz     4".to_string()),
            Difference::Added("boolean  BASIC  basicdt   0          siz     4".to_string()),
            Difference::Same(TREE.trim().to_string()),
        ])
    );
}

#[test]
fn a_wrong_tree_is_reported_line_by_line() {
    let actual = OUTPUT.replace("(:= i 0)", "(:= i 1)");
    assert_eq!(
        grade_test(TABLE, TREE, &actual),
        Ok(vec![
            Difference::Same(
                "real  BASIC  basicdt   1          siz     8\ninteger  BASIC  basicdt   0          siz     4"
                    .to_string()
            ),
            Difference::Same("(program graph1 (progn output)".to_string()),
            Difference::Removed("  (progn (:= i 0)))".to_string()),
            Difference::Added("  (progn (:= i 1)))".to_string()),
        ])
    );
}

#[test]
fn regions_are_compared_by_lines() {
    assert_eq!(compare_regions("a\nb", "a\nb", "t", "t"), Ok(vec![]));
    assert_eq!(
        compare_regions("a\nb\nc", "a\nx\nc", "t", "t"),
        Ok(vec![
            Difference::Same("a".to_string()),
            Difference::Removed("b".to_string()),
            Difference::Added("x".to_string()),
            Difference::Same("c".to_string()),
            Difference::Same("t".to_string()),
        ])
    );
    assert_eq!(
        compare_regions("", "a", "", ""),
        Ok(vec![Difference::Added("a".to_string())])
    );
}

#[test]
fn entries_that_are_all_the_same_fold_to_nothing() {
    let same = |text: &str| Difference::Same(text.to_string());
    assert_eq!(fold_regions(vec![same("a")], vec![same("b")]), vec![]);
    assert_eq!(fold_regions(vec![], vec![]), vec![]);
    assert_eq!(
        fold_regions(vec![same("a")], vec![Difference::Added("b".to_string())]),
        vec![same("a"), Difference::Added("b".to_string())]
    );
}

#[test]
fn a_parser_session_reports_each_test() {
    let test = |name: &str, actual: &str| Test {
        name: name.to_string(),
        table: TABLE.to_string(),
        tree: TREE.to_string(),
        actual: actual.to_string(),
    };
    let tests = vec![
        test("good", OUTPUT),
        test("empty", ""),
        test("wrong", &OUTPUT.replace("real", "char")),
    ];
    let report = grade(false, &tests);
    assert_eq!(report.passed, 1);
    assert_eq!(report.total, 3);
    assert_eq!(report.entries.len(), 2);
    assert_eq!(report.entries[0].name, "empty");
    assert_eq!(report.entries[0].outcome, Outcome::Error(GradeError::NoSymbolTable));
    assert_eq!(report.entries[1].name, "wrong");
    assert!(matches!(report.entries[1].outcome, Outcome::Fail(_)));
    assert_eq!(grade(true, &tests).entries.len(), 3);
}

#[test]
fn each_parser_exercise_has_one_test() {
    let report = p3::grade(true, TABLE, TREE, OUTPUT);
    assert_eq!((report.passed, report.total), (1, 1));
    assert_eq!(report.entries[0].name, "trivb.pas");
    assert_eq!(report.entries[0].outcome, Outcome::Pass);
    let report = p4::grade(false, TABLE, TREE, "nothing");
    assert_eq!((report.passed, report.total), (0, 1));
    assert_eq!(report.entries[0].name, "graph1i.pas");
    assert_eq!(report.entries[0].outcome, Outcome::Error(GradeError::NoSymbolTable));
    assert!(p4::grade(false, TABLE, TREE, OUTPUT).entries.is_empty());
}
