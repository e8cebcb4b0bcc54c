use plancost::extract::plan_report;
use plancost::plan::{decode_plan, escape, PlanValue};
use plancost::PlanError;

fn qualifying_payload() -> String {
    // One qualifying node ("0-0") and one non-qualifying node ("0-1", no
    // condition key).  The embedded format stores field keys with their own
    // surrounding quote characters, and newlines as literal `\n` sequences.
    let mut p = String::new();
    p.push_str("{\\n");
    p.push_str(r#""0-0": {"#);
    p.push_str(r#""\"op\"": "\"SelectionVectorRemoverPrel\"", "#);
    p.push_str(r#""\"values\"": {"\"condition\"": "\">($0, 1)\""}, "#);
    p.push_str(r#""\"rowCount\"": 1500.0, "#);
    p.push_str(r#""\"cumulativeCost\"": "{100.0 rows, 50.5 cpu}"},\n"#);
    p.push_str(r#""0-1": {"#);
    p.push_str(r#""\"op\"": "\"ScanPrel\"", "#);
    p.push_str(r#""\"values\"": {"\"mode\"": "\"ALL\""}, "#);
    p.push_str(r#""\"rowCount\"": 3.0, "#);
    p.push_str(r#""\"cumulativeCost\"": "{1.0 rows}"}}"#);
    p
}

#[test]
fn escape_replaces_newlines() {
    assert_eq!(escape(&String::from("a\\nb")), "a\nb");
}

#[test]
fn escape_leaves_other_text_alone() {
    assert_eq!(escape(&String::from("plain text")), "plain text");
}

#[test]
fn escape_is_idempotent_on_samples() {
    for s in ["a\\nb", "\\\\n", "x\\n\\ny", "no escapes"] {
        let once = escape(&String::from(s));
        let twice = escape(&once);
        assert_eq!(once, twice);
    }
}

#[test]
fn decode_matches_preconverted_payload() {
    // A payload with literal `\n` sequences decodes to the same tree as one
    // where those sequences were already turned into real newlines.
    let raw = qualifying_payload();
    let pre = escape(&raw);
    let a = decode_plan(&raw).unwrap();
    let b = decode_plan(&pre).unwrap();
    assert_eq!(a, b);
}

#[test]
fn decode_malformed_fails() {
    assert!(matches!(
        decode_plan("{ not json"),
        Err(PlanError::MalformedPlan)
    ));
}

#[test]
fn decode_preserves_doubled_keys() {
    let tree = decode_plan(&qualifying_payload()).unwrap();
    match tree {
        PlanValue::Obj(entries) => {
            assert_eq!(entries.len(), 2);
            assert_eq!(entries[0].0, "0-0");
            match &entries[0].1 {
                PlanValue::Obj(fields) => {
                    assert!(fields.iter().any(|(k, _)| k == "\"op\""));
                    assert!(fields.iter().any(|(k, _)| k == "\"rowCount\""));
                }
                other => panic!("node is not a mapping: {other:?}"),
            }
        }
        other => panic!("top level is not a mapping: {other:?}"),
    }
}

#[test]
fn end_to_end_one_qualifying_row() {
    let rows = plan_report(&qualifying_payload()).unwrap();
    assert_eq!(rows.len(), 1);
    let row = &rows[0];
    assert_eq!(row.phase_thread, "0-0");
    assert_eq!(row.op_type, "\"\\\"SelectionVectorRemoverPrel\\\"\"");
    assert_eq!(row.filter, "\"\\\">($0, 1)\\\"\"");
    assert_eq!(row.rows, "1,500");
    assert_eq!(row.total_cost, "150");
}

#[test]
fn report_is_identical_across_runs() {
    let payload = qualifying_payload();
    let first = plan_report(&payload).unwrap();
    let second = plan_report(&payload).unwrap();
    assert_eq!(first, second);
}

#[test]
fn node_without_condition_yields_no_row() {
    let mut p = String::new();
    p.push_str(r#"{"1-0": {"\"op\"": "\"ScanPrel\"", "#);
    p.push_str(r#""\"values\"": {"\"mode\"": 1}, "#);
    p.push_str(r#""\"rowCount\"": 3.0, "\"cumulativeCost\"": "{1.0 rows}"}}"#);
    let rows = plan_report(&p).unwrap();
    assert_eq!(rows.len(), 0);
}

#[test]
fn missing_row_count_fails() {
    let mut p = String::new();
    p.push_str(r#"{"1-0": {"\"op\"": "\"FilterPrel\"", "#);
    p.push_str(r#""\"values\"": {"\"condition\"": "\"c\""}, "#);
    p.push_str(r#""\"cumulativeCost\"": "{1.0 rows}"}}"#);
    match plan_report(&p) {
        Err(PlanError::MissingField(f)) => assert_eq!(f, "rowCount"),
        other => panic!("unexpected result: {other:?}"),
    }
}

#[test]
fn missing_op_fails() {
    let mut p = String::new();
    p.push_str(r#"{"1-0": {"\"values\"": {"\"condition\"": "\"c\""}, "#);
    p.push_str(r#""\"rowCount\"": 3.0, "\"cumulativeCost\"": "{1.0 rows}"}}"#);
    match plan_report(&p) {
        Err(PlanError::MissingField(f)) => assert_eq!(f, "op"),
        other => panic!("unexpected result: {other:?}"),
    }
}

#[test]
fn bad_cost_vector_aborts_run() {
    let mut p = String::new();
    p.push_str(r#"{"1-0": {"\"op\"": "\"FilterPrel\"", "#);
    p.push_str(r#""\"values\"": {"\"condition\"": "\"c\""}, "#);
    p.push_str(r#""\"rowCount\"": 3.0, "\"cumulativeCost\"": "{}"}}"#);
    assert!(matches!(plan_report(&p), Err(PlanError::CostParse)));
}

#[test]
fn top_level_array_is_malformed() {
    assert!(matches!(
        plan_report("[1, 2]"),
        Err(PlanError::MalformedPlan)
    ));
}

#[test]
fn row_count_truncates_toward_zero() {
    let mut p = String::new();
    p.push_str(r#"{"1-0": {"\"op\"": "\"F\"", "#);
    p.push_str(r#""\"values\"": {"\"condition\"": "\"c\""}, "#);
    p.push_str(r#""\"rowCount\"": -7.9, "\"cumulativeCost\"": "{1.0 rows}"}}"#);
    let rows = plan_report(&p).unwrap();
    assert_eq!(rows[0].rows, "-7");
}

#[test]
fn non_string_condition_renders_as_json() {
    // The condition is rendered exactly as JSON text, whatever its type.
    let mut p = String::new();
    p.push_str(r#"{"1-0": {"\"op\"": "\"F\"", "#);
    p.push_str(r#""\"values\"": {"\"condition\"": true}, "#);
    p.push_str(r#""\"rowCount\"": 2, "\"cumulativeCost\"": "{1.0 rows}"}}"#);
    let rows = plan_report(&p).unwrap();
    assert_eq!(rows[0].filter, "true");
    assert_eq!(rows[0].rows, "2");
    assert_eq!(rows[0].total_cost, "1");
}
