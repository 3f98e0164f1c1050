use inflation::{Inflation, DEFAULT_FOUNDATION_TERM};

#[test]
fn test_inflation_basic() {
    let inflation = Inflation::default();

    let mut last = inflation.total(0);

    for year in &[1, DEFAULT_FOUNDATION_TERM, 100] {
        let total = inflation.total(*year);
        assert_eq!(
            total as i128,
            inflation.validator(*year) + inflation.foundation(*year) as i128 + inflation.vault() as i128
        );
        assert!(total < last);
        assert!(total >= inflation.terminal);
        last = total;
    }
    assert_eq!(last, inflation.terminal);
}

#[test]
fn test_inflation_fixed() {
    let inflation = Inflation::new_fixed(1_000_000);
    for year in &[1, DEFAULT_FOUNDATION_TERM, 100] {
        assert_eq!(inflation.total(*year), 1_000_000);
    }
}
