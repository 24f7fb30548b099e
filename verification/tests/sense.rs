use arco::sense::{comparison_sense_from_ordinal, parse_comparison_sense, ComparisonSense, SenseError};

#[test]
fn senses_from_ordinals() {
    assert_eq!(comparison_sense_from_ordinal(0), Ok(ComparisonSense::GreaterEqual));
    assert_eq!(comparison_sense_from_ordinal(1), Ok(ComparisonSense::LessEqual));
    assert_eq!(comparison_sense_from_ordinal(2), Ok(ComparisonSense::Equal));
    assert_eq!(comparison_sense_from_ordinal(3), Err(SenseError::InvalidValue(3)));
    assert_eq!(comparison_sense_from_ordinal(-1), Err(SenseError::InvalidValue(-1)));
}

#[test]
fn senses_from_aliases_ignore_case() {
    assert_eq!(parse_comparison_sense("ge"), Ok(ComparisonSense::GreaterEqual));
    assert_eq!(parse_comparison_sense("GE"), Ok(ComparisonSense::GreaterEqual));
    assert_eq!(parse_comparison_sense(">="), Ok(ComparisonSense::GreaterEqual));
    assert_eq!(parse_comparison_sense("Le"), Ok(ComparisonSense::LessEqual));
    assert_eq!(parse_comparison_sense("<="), Ok(ComparisonSense::LessEqual));
    assert_eq!(parse_comparison_sense("EQ"), Ok(ComparisonSense::Equal));
    assert_eq!(parse_comparison_sense("=="), Ok(ComparisonSense::Equal));
    assert_eq!(
        parse_comparison_sense("Gt"),
        Err(SenseError::InvalidAlias("Gt".to_string()))
    );
}
