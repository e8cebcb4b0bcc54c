use plancost::cost::total_cost;
use plancost::PlanError;

#[test]
fn cost_sum_two_tokens() {
    // 1.0 + 2.5 sums to 3.5; the total is truncated toward zero.
    assert_eq!(total_cost("{1.0 ROWS, 2.5 CPU}"), Ok(3));
}

#[test]
fn cost_single_token_no_separator() {
    assert_eq!(total_cost("{10 X}"), Ok(10));
}

#[test]
fn cost_empty_vector_fails() {
    assert!(matches!(total_cost("{}"), Err(PlanError::CostParse)));
}

#[test]
fn cost_non_numeric_fails() {
    assert!(matches!(total_cost("{abc ROWS}"), Err(PlanError::CostParse)));
}

#[test]
fn cost_exact_truncation() {
    assert_eq!(total_cost("{100.0 A, 50.5 B}"), Ok(150));
}

#[test]
fn cost_negative_truncates_toward_zero() {
    assert_eq!(total_cost("{-2.5 X}"), Ok(-2));
}

#[test]
fn cost_token_without_unit_label() {
    assert_eq!(total_cost("{7.25}"), Ok(7));
}

#[test]
fn cost_fraction_without_integer_digits_fails() {
    assert!(matches!(total_cost("{.5 X}"), Err(PlanError::CostParse)));
}

#[test]
fn cost_many_tokens() {
    assert_eq!(
        total_cost("{3465.0 rows, 13860.0 cpu, 0.0 io, 0.0 network, 0.0 memory}"),
        Ok(17325)
    );
}
