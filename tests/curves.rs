use inflation::{
    vault_allocations, Inflation, DEFAULT_FOUNDATION, DEFAULT_FOUNDATION_TERM, DEFAULT_INITIAL,
    DEFAULT_TAPER, DEFAULT_TERMINAL, RATE_ONE,
};

#[test]
fn default_parameters() {
    let inflation = Inflation::default();
    assert_eq!(inflation.initial, 80_000_000);
    assert_eq!(inflation.terminal, 15_000_000);
    assert_eq!(inflation.taper, 150_000_000);
    assert_eq!(inflation.foundation, 50_000_000);
    assert_eq!(inflation.foundation_term, 7);
    assert_eq!(inflation.initial, DEFAULT_INITIAL);
    assert_eq!(inflation.terminal, DEFAULT_TERMINAL);
    assert_eq!(inflation.taper, DEFAULT_TAPER);
    assert_eq!(inflation.foundation, DEFAULT_FOUNDATION);
    assert_eq!(RATE_ONE, 1_000_000_000);
}

#[test]
fn default_starts_at_initial() {
    let inflation = Inflation::default();
    assert_eq!(inflation.total(0), 80_000_000);
    assert_eq!(inflation.foundation(0), 4_000_000);
    assert_eq!(inflation.validator(0), 80_000_000 - 4_000_000 - 30_000_000);
}

#[test]
fn default_first_years_exact() {
    let inflation = Inflation::default();
    assert_eq!(inflation.total(1), 68_000_000);
    assert_eq!(inflation.foundation(1), 3_400_000);
    assert_eq!(inflation.validator(1), 34_600_000);
    assert_eq!(inflation.total(6), 30_171_961);
    assert_eq!(inflation.foundation(6), 1_508_598);
    assert_eq!(inflation.total(7), 25_646_167);
    assert_eq!(inflation.total(10), 15_749_952);
}

#[test]
fn tapering_is_rounded_once() {
    // 0.08 * 0.85^7 = 0.0256461670625 and 0.08 * 0.85^11 = 0.01338745...
    let inflation = Inflation {
        initial: 80_000_000,
        terminal: 0,
        taper: 150_000_000,
        foundation: 0,
        foundation_term: 0,
    };
    assert_eq!(inflation.total(7), 25_646_167);
    assert_eq!(inflation.total(8), 21_799_242);
    assert_eq!(inflation.total(9), 18_529_355);
    assert_eq!(inflation.total(11), 13_387_459);
}

#[test]
fn default_reaches_terminal() {
    let inflation = Inflation::default();
    assert_eq!(inflation.total(11), 15_000_000);
    assert_eq!(inflation.total(12), 15_000_000);
    assert_eq!(inflation.total(100), 15_000_000);
    assert_eq!(inflation.total(u64::MAX), 15_000_000);
}

#[test]
fn default_strictly_decreasing_until_terminal() {
    let inflation = Inflation::default();
    let mut last = inflation.total(0);
    let mut year: u64 = 1;
    while year <= 40 {
        let total = inflation.total(year);
        assert!(total >= inflation.terminal);
        if last > inflation.terminal {
            assert!(total < last);
        } else {
            assert_eq!(total, inflation.terminal);
        }
        last = total;
        year += 1;
    }
}

#[test]
fn foundation_stops_at_term() {
    let inflation = Inflation::default();
    assert!(inflation.foundation(DEFAULT_FOUNDATION_TERM - 1) > 0);
    assert_eq!(inflation.foundation(DEFAULT_FOUNDATION_TERM), 0);
    assert_eq!(inflation.foundation(DEFAULT_FOUNDATION_TERM + 1), 0);
    assert_eq!(inflation.foundation(100), 0);
}

#[test]
fn shares_add_up_to_total() {
    for inflation in &[Inflation::default(), Inflation::full(), Inflation::pico(), Inflation::new_disabled()] {
        for year in &[0u64, 1, 3, 6, 7, 8, 11, 50, u64::MAX] {
            let total = inflation.total(*year) as i128;
            let parts = inflation.validator(*year)
                + inflation.foundation(*year) as i128
                + inflation.vault() as i128;
            assert_eq!(total, parts);
        }
    }
}

#[test]
fn disabled_issues_nothing() {
    let inflation = Inflation::new_disabled();
    for year in &[0u64, 1, 7, 100, u64::MAX] {
        assert_eq!(inflation.total(*year), 0);
        assert_eq!(inflation.foundation(*year), 0);
        assert_eq!(inflation.validator(*year), -30_000_000);
        assert_eq!(inflation.validator(*year), -(inflation.vault() as i128));
    }
}

#[test]
fn fixed_rate_is_constant() {
    let inflation = Inflation::new_fixed(42_000_000);
    assert_eq!(inflation.taper, RATE_ONE);
    for year in &[0u64, 1, 2, 7, 100, u64::MAX] {
        assert_eq!(inflation.total(*year), 42_000_000);
        assert_eq!(inflation.foundation(*year), 0);
        assert_eq!(inflation.validator(*year), 12_000_000);
    }
}

#[test]
fn pico_is_a_hundredth_of_a_percent() {
    let inflation = Inflation::pico();
    assert_eq!(inflation, Inflation::new_fixed(100_000));
    assert_eq!(inflation.total(0), 100_000);
    assert_eq!(inflation.total(100), 100_000);
}

#[test]
fn full_has_no_foundation_share() {
    let inflation = Inflation::full();
    assert_eq!(inflation.foundation, 0);
    assert_eq!(inflation.foundation_term, 0);
    assert_eq!(inflation.total(0), 80_000_000);
    assert_eq!(inflation.foundation(0), 0);
    assert_eq!(inflation.validator(0), 50_000_000);
    assert_eq!(inflation.total(1), Inflation::default().total(1));
}

#[test]
fn no_taper_keeps_initial_rate() {
    let inflation = Inflation {
        initial: 70_000_000,
        terminal: 10_000_000,
        taper: 0,
        foundation: RATE_ONE,
        foundation_term: u64::MAX,
    };
    assert_eq!(inflation.total(0), 70_000_000);
    assert_eq!(inflation.total(u64::MAX), 70_000_000);
    assert_eq!(inflation.foundation(5), 70_000_000);
    assert_eq!(inflation.validator(5), -30_000_000);
}

#[test]
fn full_taper_drops_to_terminal() {
    let inflation = Inflation {
        initial: 90_000_000,
        terminal: 20_000_000,
        taper: RATE_ONE,
        foundation: 0,
        foundation_term: 0,
    };
    assert_eq!(inflation.total(0), 90_000_000);
    assert_eq!(inflation.total(1), 20_000_000);
}

#[test]
fn vault_deduction_is_the_table_sum() {
    let table = vault_allocations();
    assert_eq!(table.len(), 2);
    assert_eq!(table[0].rate, 10_000_000);
    assert_eq!(table[1].rate, 20_000_000);
    assert_ne!(table[0].address, table[1].address);
    assert_eq!(table[0].address, inflation::vault_addresses::foo::id());
    assert_eq!(table[1].address, inflation::vault_addresses::bar::id());
    let sum: u64 = table.iter().map(|a| a.rate).sum();
    assert_eq!(Inflation::default().vault(), sum);
    assert_eq!(Inflation::new_disabled().vault(), 30_000_000);
}
