use batsmen::parse::parse_line;
use batsmen::parse::ParseError;
use batsmen::pipeline::run_pipeline;
use batsmen::pipeline::split_lines;

#[test]
fn end_to_end_scenario() {
    let text = "AB Clarke,120,45.6\nCD Smith,80,30.1\nEF Cook,150,50.4\nGH Cullen,150,20.0";
    let out = run_pipeline(text).expect("all lines are well formed");
    assert_eq!(out.len(), 3);

    assert_eq!(out[0].surname, "Cook");
    assert_eq!(out[0].initials, "EF");
    assert_eq!(out[0].runs, 150);
    assert_eq!(out[0].average, 50);

    assert_eq!(out[1].surname, "Cullen");
    assert_eq!(out[1].initials, "GH");
    assert_eq!(out[1].runs, 150);
    assert_eq!(out[1].average, 20);

    assert_eq!(out[2].surname, "Clarke");
    assert_eq!(out[2].initials, "AB");
    assert_eq!(out[2].runs, 120);
    assert_eq!(out[2].average, 46);
}

#[test]
fn structural_error_missing_surname() {
    assert_eq!(run_pipeline("AB,120,45.6"), Err(ParseError::Structure));
}

#[test]
fn structural_error_aborts_whole_run() {
    let text = "EF Cook,150,50.4\nAB,120,45.6\nGH Cullen,150,20.0";
    assert_eq!(run_pipeline(text), Err(ParseError::Structure));
}

#[test]
fn numeric_error_runs_field() {
    assert_eq!(parse_line("AB Clarke,abc,45.6"), Err(ParseError::Runs));
    assert_eq!(run_pipeline("AB Clarke,abc,45.6"), Err(ParseError::Runs));
}

#[test]
fn numeric_error_average_field() {
    assert_eq!(parse_line("AB Clarke,120,xyz"), Err(ParseError::Average));
}

#[test]
fn too_few_fields_is_structural() {
    assert_eq!(parse_line("AB Clarke,120"), Err(ParseError::Structure));
    assert_eq!(parse_line(""), Err(ParseError::Structure));
}

#[test]
fn trailing_newline_makes_no_spurious_record() {
    let out = run_pipeline("EF Cook,150,50.4\n").expect("one well-formed line");
    assert_eq!(out.len(), 1);
    assert_eq!(out[0].surname, "Cook");
}

#[test]
fn crlf_line_endings() {
    let out = run_pipeline("EF Cook,150,50.4\r\nGH Cullen,2,3.0\r\n").expect("two lines");
    assert_eq!(out.len(), 2);
    assert_eq!(out[0].surname, "Cook");
    assert_eq!(out[1].surname, "Cullen");
}

#[test]
fn filter_drops_other_surnames() {
    let out = run_pipeline("CD Smith,80,30.1").expect("well formed");
    assert_eq!(out.len(), 0);
}

#[test]
fn filter_is_case_sensitive() {
    let out = run_pipeline("AB cook,80,30.1").expect("well formed");
    assert_eq!(out.len(), 0);
}

#[test]
fn split_lines_variants() {
    assert_eq!(split_lines(""), Vec::<String>::new());
    assert_eq!(split_lines("a"), vec!["a".to_string()]);
    assert_eq!(split_lines("a\nb"), vec!["a".to_string(), "b".to_string()]);
    assert_eq!(split_lines("a\nb\n"), vec!["a".to_string(), "b".to_string()]);
    assert_eq!(split_lines("a\r\nb\r\n"), vec!["a".to_string(), "b".to_string()]);
    assert_eq!(split_lines("a\n\nb"), vec!["a".to_string(), "".to_string(), "b".to_string()]);
    assert_eq!(split_lines("\n"), vec!["".to_string()]);
}
