//! The inflation parameters and the rates derived from them.
use vstd::arithmetic::div_mod::{
    lemma_div_denominator, lemma_div_is_ordered, lemma_div_multiples_vanish,
    lemma_fundamental_div_mod, lemma_fundamental_div_mod_converse, lemma_mod_bound,
};
use vstd::arithmetic::power::{lemma_pow0, lemma_pow_positive, pow};
use vstd::prelude::*;

use crate::digits::{
    digits_of, digits_value, is_digits, lemma_pow_nonneg, lemma_pow_step, mul_digits,
    top_digits_value,
};

use crate::vault_addresses::{lemma_vault_total, rates_sum, vault_allocations, vault_rates, vault_total};

verus! {

/// The fixed-point scale of every rate: a rate `r` stands for the fraction
/// `r / RATE_ONE`, so `RATE_ONE` is 100% and a rate has nine decimal places.
pub const RATE_ONE: u64 = 1_000_000_000;

/// 8% at year zero.
pub const DEFAULT_INITIAL: u64 = 80_000_000;

/// 1.5% once the taper has run out.
pub const DEFAULT_TERMINAL: u64 = 15_000_000;

/// 15% less each year.
pub const DEFAULT_TAPER: u64 = 150_000_000;

/// 5% of the total goes to the foundation.
pub const DEFAULT_FOUNDATION: u64 = 50_000_000;

/// The foundation's share lasts seven years.
pub const DEFAULT_FOUNDATION_TERM: u64 = 7;

/// 0.01%, the rate of `Inflation::pico`.
pub const PICO_RATE: u64 = 100_000;

/// The parameters of the inflation curve. Rates are in units of `RATE_ONE`.
#[derive(PartialEq, Eq, Structural, Clone, Copy, Debug)]
pub struct Inflation {
    /// Inflation rate at year zero.
    pub initial: u64,
    /// Inflation rate once the taper has brought the curve down to it.
    pub terminal: u64,
    /// Fraction by which the tapering rate shrinks each year:
    /// the rate at `year` is the larger of `terminal` and `initial * (1 - taper)^year`.
    pub taper: u64,
    /// Fraction of the total inflation allocated to the foundation.
    pub foundation: u64,
    /// Number of years for which the foundation gets its share.
    pub foundation_term: u64,
}

/// What is left of `rate` after `years` of taper: `rate * (1 - taper)^years`, rounded down
/// once, at the end.
pub open spec fn tapered(rate: nat, taper: nat, years: nat) -> nat {
    (rate * pow(RATE_ONE - taper, years) / pow(RATE_ONE as int, years)) as nat
}

/// A part `f` of `t`, with `f` at most one, is at most `t`.
proof fn lemma_part_of(t: nat, f: nat)
    requires
        f <= RATE_ONE,
    ensures
        t * f <= t * RATE_ONE,
        (t * f) as int / (RATE_ONE as int) <= t,
{
    let one = RATE_ONE as int;
    assert(t * f <= t * one) by (nonlinear_arith)
        requires
            f <= one,
            t >= 0,
    ;
    assert((t * f) as int / one <= t) by (nonlinear_arith)
        requires
            t * f <= t * one,
            one > 0,
            t * f >= 0,
    ;
}

/// At year zero nothing has been tapered.
proof fn lemma_tapered_start(rate: nat, taper: nat)
    ensures
        tapered(rate, taper, 0) == rate,
{
    lemma_pow0(RATE_ONE - taper);
    lemma_pow0(RATE_ONE as int);
}

/// The exact tapered rate before rounding, and the year after it as a quotient of it.
proof fn lemma_tapered_next(rate: nat, taper: nat, y: nat)
    requires
        taper <= RATE_ONE,
    ensures
        rate * pow(RATE_ONE - taper, y) >= 0,
        pow(RATE_ONE as int, y) > 0,
        tapered(rate, taper, y) == rate * pow(RATE_ONE - taper, y) / pow(RATE_ONE as int, y),
        tapered(rate, taper, y + 1) == (rate * pow(RATE_ONE - taper, y)) * (RATE_ONE - taper) / (
        RATE_ONE * pow(RATE_ONE as int, y)),
        tapered(rate, taper, y + 1) <= tapered(rate, taper, y),
{
    let b = RATE_ONE as int;
    let k = RATE_ONE - taper;
    lemma_pow_nonneg(k, y);
    lemma_pow_positive(b, y);
    lemma_pow_step(k, y);
    lemma_pow_step(b, y);
    let n = rate * pow(k, y);
    let d = pow(b, y);
    assert(n >= 0) by (nonlinear_arith)
        requires
            rate >= 0,
            pow(k, y) >= 0,
            n == rate * pow(k, y),
    ;
    assert(rate * pow(k, y + 1) == n * k) by (nonlinear_arith)
        requires
            pow(k, y + 1) == k * pow(k, y),
            n == rate * pow(k, y),
    ;
    assert(0 <= n * k <= n * b) by (nonlinear_arith)
        requires
            0 <= k <= b,
            n >= 0,
    ;
    lemma_div_denominator(n * k, b, d);
    assert(n * k / b <= n) by (nonlinear_arith)
        requires
            n * k <= n * b,
            b > 0,
            n * k >= 0,
    ;
    lemma_div_is_ordered(n * k / b, n, d);
    assert(n / d >= 0 && n * k / (b * d) >= 0) by (nonlinear_arith)
        requires
            n >= 0,
            n * k >= 0,
            d > 0,
            b > 0,
    ;
}

/// The tapered rate never grows with the years.
pub proof fn lemma_tapered_antitone(rate: nat, taper: nat, a: nat, b: nat)
    requires
        taper <= RATE_ONE,
        a <= b,
    ensures
        tapered(rate, taper, b) <= tapered(rate, taper, a),
    decreases b,
{
    if a < b {
        lemma_tapered_antitone(rate, taper, a, (b - 1) as nat);
        lemma_tapered_next(rate, taper, (b - 1) as nat);
    }
}

/// The tapered rate never exceeds the rate it started from.
proof fn lemma_tapered_at_most_rate(rate: nat, taper: nat, years: nat)
    requires
        taper <= RATE_ONE,
    ensures
        tapered(rate, taper, years) <= rate,
{
    lemma_tapered_start(rate, taper);
    lemma_tapered_antitone(rate, taper, 0, years);
}

/// With no taper the rate stays where it started.
proof fn lemma_tapered_untapered(rate: nat, years: nat)
    ensures
        tapered(rate, 0, years) == rate,
{
    let d = pow(RATE_ONE as int, years);
    lemma_pow_positive(RATE_ONE as int, years);
    lemma_div_multiples_vanish(rate as int, d);
    assert(rate * d == d * rate);
}

/// A taper of one takes everything in the first year.
proof fn lemma_tapered_all(rate: nat, years: nat)
    requires
        years > 0,
    ensures
        tapered(rate, RATE_ONE as nat, years) == 0,
{
    let e = (years - 1) as nat;
    lemma_pow_step(0, e);
    assert(e + 1 == years);
    assert(pow(0, years) == 0);
    assert(RATE_ONE - (RATE_ONE as nat) == 0);
    lemma_pow_positive(RATE_ONE as int, years);
    assert(rate * pow(0, years) == 0);
}

impl Inflation {
    /// Rates that stand for fractions lie between 0 and 1.
    pub open spec fn wf(self) -> bool {
        self.taper <= RATE_ONE && self.foundation <= RATE_ONE
    }

    /// The historical reference parameters.
    pub open spec fn spec_default() -> Inflation {
        Inflation {
            initial: DEFAULT_INITIAL,
            terminal: DEFAULT_TERMINAL,
            taper: DEFAULT_TAPER,
            foundation: DEFAULT_FOUNDATION,
            foundation_term: DEFAULT_FOUNDATION_TERM,
        }
    }

    /// No inflation at all.
    pub open spec fn spec_disabled() -> Inflation {
        Inflation { initial: 0, terminal: 0, taper: 0, foundation: 0, foundation_term: 0 }
    }

    /// The constant rate `validator`, all of it for staking rewards.
    pub open spec fn spec_fixed(validator: u64) -> Inflation {
        Inflation {
            initial: validator,
            terminal: validator,
            taper: RATE_ONE,
            foundation: 0,
            foundation_term: 0,
        }
    }

    /// The reference curve with no foundation share.
    pub open spec fn spec_full() -> Inflation {
        Inflation {
            initial: DEFAULT_INITIAL,
            terminal: DEFAULT_TERMINAL,
            taper: DEFAULT_TAPER,
            foundation: 0,
            foundation_term: 0,
        }
    }

    /// The inflation rate at `year`: the tapered initial rate, or the terminal rate
    /// once the tapered rate has come down to it.
    pub open spec fn spec_total(self, year: nat) -> nat {
        let t = tapered(self.initial as nat, self.taper as nat, year);
        if t > self.terminal {
            t
        } else {
            self.terminal as nat
        }
    }

    /// The foundation's part of the total at `year`, rounded down; nothing after its term.
    pub open spec fn spec_foundation(self, year: nat) -> nat {
        if year < self.foundation_term {
            (self.spec_total(year) * self.foundation / (RATE_ONE as int)) as nat
        } else {
            0
        }
    }

    /// What is left for validators at `year` once the foundation and the vaults have
    /// had their parts; negative where the vaults take more than there is.
    pub open spec fn spec_validator(self, year: nat) -> int {
        self.spec_total(year) - self.spec_foundation(year) - vault_total()
    }

    /// No inflation at all, in any year.
    pub fn new_disabled() -> (r: Self)
        ensures
            r == Self::spec_disabled(),
            r.wf(),
    {
        Inflation { initial: 0, terminal: 0, taper: 0, foundation: 0, foundation_term: 0 }
    }

    /// A fixed inflation rate of `validator` for staking rewards, and none for the foundation.
    pub fn new_fixed(validator: u64) -> (r: Self)
        ensures
            r == Self::spec_fixed(validator),
            r.wf(),
    {
        Inflation {
            initial: validator,
            terminal: validator,
            taper: RATE_ONE,
            foundation: 0,
            foundation_term: 0,
        }
    }

    /// A fixed inflation rate of 0.01%.
    pub fn pico() -> (r: Self)
        ensures
            r == Self::spec_fixed(PICO_RATE),
            r.wf(),
    {
        Self::new_fixed(PICO_RATE)
    }

    /// The reference curve with all of it, less the vaults' part, for validators.
    pub fn full() -> (r: Self)
        ensures
            r == Self::spec_full(),
            r.wf(),
    {
        Inflation {
            initial: DEFAULT_INITIAL,
            terminal: DEFAULT_TERMINAL,
            taper: DEFAULT_TAPER,
            foundation: 0,
            foundation_term: 0,
        }
    }

    /// The inflation rate at `year`: the larger of `terminal` and
    /// `initial * (1 - taper)^year`, the power taken exactly and rounded down once.
    pub fn total(&self, year: u64) -> (r: u64)
        requires
            self.wf(),
        ensures
            r == self.spec_total(year as nat),
    {
        if self.taper == 0 {
            proof {
                lemma_tapered_untapered(self.initial as nat, year as nat);
            }
            return if self.initial > self.terminal {
                self.initial
            } else {
                self.terminal
            };
        }
        let k: u64 = RATE_ONE - self.taper;
        // `initial * k^y`, exactly; its digits from the `y`-th on are the tapered rate.
        let mut digits = digits_of(self.initial);
        let mut rate: u64 = self.initial;
        let mut y: u64 = 0;
        proof {
            lemma_tapered_start(self.initial as nat, self.taper as nat);
            lemma_pow0(k as int);
        }
        while y < year && rate > self.terminal
            invariant
                self.wf(),
                self.taper > 0,
                k == RATE_ONE - self.taper,
                y <= year,
                is_digits(digits@),
                digits@.len() == y + 3,
                digits_value(digits@) == self.initial * pow(k as int, y as nat),
                rate == tapered(self.initial as nat, self.taper as nat, y as nat),
            decreases year - y,
        {
            let next = mul_digits(&digits, k);
            proof {
                let n = self.initial * pow(k as int, y as nat);
                lemma_pow_step(k as int, y as nat);
                assert(n * k == self.initial * pow(k as int, (y + 1) as nat)) by (nonlinear_arith)
                    requires
                        n == self.initial * pow(k as int, y as nat),
                        pow(k as int, (y + 1) as nat) == k * pow(k as int, y as nat),
                ;
            }
            digits = next;
            y = y + 1;
            let top = top_digits_value(&digits);
            proof {
                lemma_tapered_next(self.initial as nat, self.taper as nat, y as nat);
                lemma_tapered_at_most_rate(self.initial as nat, self.taper as nat, y as nat);
            }
            rate = top as u64;
        }
        proof {
            if y < year {
                lemma_tapered_antitone(self.initial as nat, self.taper as nat, y as nat, year as nat);
            }
        }
        if rate > self.terminal {
            rate
        } else {
            self.terminal
        }
    }

    /// The foundation's part of the rate at `year`.
    pub fn foundation(&self, year: u64) -> (r: u64)
        requires
            self.wf(),
        ensures
            r == self.spec_foundation(year as nat),
    {
        if year < self.foundation_term {
            let total = self.total(year);
            proof {
                lemma_part_of(total as nat, self.foundation as nat);
            }
            ((total as u128 * self.foundation as u128) / RATE_ONE as u128) as u64
        } else {
            0
        }
    }

    /// The rate carved out for the vaults, the same every year.
    pub fn vault(&self) -> (r: u64)
        ensures
            r == vault_total(),
    {
        let table = vault_allocations();
        let mut sum: u64 = 0;
        let mut i: usize = 0;
        while i < table.len()
            invariant
                table@.len() == vault_rates().len(),
                forall|j: int| 0 <= j < table@.len() ==> #[trigger] table@[j].rate == vault_rates()[j],
                i <= table@.len(),
                sum == rates_sum(vault_rates().take(i as int)),
                sum <= i * 20_000_000,
            decreases table@.len() - i,
        {
            proof {
                assert(vault_rates().take(i + 1).drop_last() =~= vault_rates().take(i as int));
                assert(vault_rates()[0] == 10_000_000 && vault_rates()[1] == 20_000_000);
            }
            sum = sum + table[i].rate;
            i = i + 1;
        }
        proof {
            assert(vault_rates().take(i as int) =~= vault_rates());
        }
        sum
    }

    /// What is left for validators at `year`, negative where the vaults take more than there is.
    pub fn validator(&self, year: u64) -> (r: i128)
        requires
            self.wf(),
        ensures
            r == self.spec_validator(year as nat),
    {
        self.total(year) as i128 - self.foundation(year) as i128 - self.vault() as i128
    }
}

impl Default for Inflation {
    /// The historical reference parameters: 8% tapering by 15% a year down to 1.5%,
    /// 5% of it to the foundation for seven years.
    fn default() -> (r: Self)
        ensures
            r == Self::spec_default(),
            r.wf(),
    {
        Inflation {
            initial: DEFAULT_INITIAL,
            terminal: DEFAULT_TERMINAL,
            taper: DEFAULT_TAPER,
            foundation: DEFAULT_FOUNDATION,
            foundation_term: DEFAULT_FOUNDATION_TERM,
        }
    }
}

/// The total is what validators, the foundation and the vaults get together, and the
/// foundation never gets more than the total.
pub proof fn lemma_shares_sum_to_total(inflation: Inflation, year: nat)
    requires
        inflation.wf(),
    ensures
        inflation.spec_total(year) == inflation.spec_validator(year) + inflation.spec_foundation(year)
            + vault_total(),
        inflation.spec_foundation(year) <= inflation.spec_total(year),
{
    lemma_part_of(inflation.spec_total(year), inflation.foundation as nat);
}

/// The total never falls below the terminal rate and never rises.
pub proof fn lemma_total_tapers(inflation: Inflation, year: nat)
    requires
        inflation.wf(),
    ensures
        inflation.spec_total(year) >= inflation.terminal,
        inflation.spec_total(year + 1) <= inflation.spec_total(year),
{
    lemma_tapered_next(inflation.initial as nat, inflation.taper as nat, year);
}

/// Where the taper takes at least one unit a year off any rate above the terminal rate
/// (`terminal * taper >= RATE_ONE`), the total falls every year until it has come down
/// to the terminal rate.
pub proof fn lemma_total_falls(inflation: Inflation, year: nat)
    requires
        inflation.wf(),
        inflation.terminal * inflation.taper >= RATE_ONE,
    ensures
        inflation.spec_total(year) > inflation.terminal ==> inflation.spec_total(year + 1)
            < inflation.spec_total(year),
{
    let rate = inflation.initial as nat;
    let taper = inflation.taper as nat;
    let t = tapered(rate, taper, year);
    if t > inflation.terminal {
        lemma_tapered_next(rate, taper, year);
        let b = RATE_ONE as int;
        let k = RATE_ONE - taper;
        let n = rate * pow(k, year);
        let d = pow(b, year);
        let term = inflation.terminal as int;
        lemma_fundamental_div_mod(n, d);
        lemma_mod_bound(n, d);
        assert(n < (t + 1) * d) by (nonlinear_arith)
            requires
                n == d * (n / d) + n % d,
                n % d < d,
                t == n / d,
        ;
        assert(t * taper >= k) by (nonlinear_arith)
            requires
                t > term,
                term * taper >= b,
                taper >= 0,
                k == b - taper,
        ;
        assert(n * k < t * (b * d)) by (nonlinear_arith)
            requires
                n < (t + 1) * d,
                t * taper >= k,
                k == b - taper,
                0 <= k,
                d > 0,
                t > 0,
                b > 0,
                n >= 0,
        ;
        let x = n * k;
        let m = b * d;
        lemma_fundamental_div_mod(x, m);
        lemma_mod_bound(x, m);
        assert(x / m < t) by (nonlinear_arith)
            requires
                x == m * (x / m) + x % m,
                x % m >= 0,
                x < t * m,
                m > 0,
        ;
    }
}

/// The reference curve at year eleven, where it has dropped below its terminal rate.
proof fn lemma_default_year_eleven()
    ensures
        tapered(DEFAULT_INITIAL as nat, DEFAULT_TAPER as nat, 11) == 13_387_459,
{
    let k: int = 850_000_000;
    let b: int = 1_000_000_000;
    lemma_pow0(k);
    lemma_pow0(b);
    lemma_pow_step(k, 0);
    lemma_pow_step(k, 1);
    lemma_pow_step(k, 2);
    lemma_pow_step(k, 3);
    lemma_pow_step(k, 4);
    lemma_pow_step(k, 5);
    lemma_pow_step(k, 6);
    lemma_pow_step(k, 7);
    lemma_pow_step(k, 8);
    lemma_pow_step(k, 9);
    lemma_pow_step(k, 10);
    lemma_pow_step(b, 0);
    lemma_pow_step(b, 1);
    lemma_pow_step(b, 2);
    lemma_pow_step(b, 3);
    lemma_pow_step(b, 4);
    lemma_pow_step(b, 5);
    lemma_pow_step(b, 6);
    lemma_pow_step(b, 7);
    lemma_pow_step(b, 8);
    lemma_pow_step(b, 9);
    lemma_pow_step(b, 10);
    let x = 80_000_000 * pow(k, 11);
    let d = pow(b, 11);
    lemma_fundamental_div_mod_converse(x, d, 13_387_459, x - 13_387_459 * d);
}

/// The reference curve falls every year until it reaches its terminal rate, which it
/// does at year eleven and keeps from then on.
pub proof fn lemma_default_settles(year: nat)
    ensures
        Inflation::spec_default().spec_total(year) >= DEFAULT_TERMINAL,
        Inflation::spec_default().spec_total(year) > DEFAULT_TERMINAL ==> Inflation::spec_default().spec_total(year + 1)
            < Inflation::spec_default().spec_total(year),
        year >= 11 ==> Inflation::spec_default().spec_total(year) == DEFAULT_TERMINAL,
{
    let d = Inflation::spec_default();
    lemma_total_tapers(d, year);
    lemma_total_falls(d, year);
    if year >= 11 {
        lemma_default_year_eleven();
        lemma_tapered_antitone(DEFAULT_INITIAL as nat, DEFAULT_TAPER as nat, 11, year);
    }
}

/// A fixed configuration yields its rate every year.
pub proof fn lemma_fixed_is_constant(rate: u64, year: nat)
    ensures
        Inflation::spec_fixed(rate).spec_total(year) == rate,
{
    lemma_tapered_start(rate as nat, RATE_ONE as nat);
    if year > 0 {
        lemma_tapered_all(rate as nat, year);
    }
}

/// Once its term is over the foundation gets nothing.
pub proof fn lemma_foundation_ends_at_term(inflation: Inflation, year: nat)
    requires
        year >= inflation.foundation_term,
    ensures
        inflation.spec_foundation(year) == 0,
{
}

/// Disabled inflation issues nothing, so the validators' part is the vaults' deduction,
/// negated: minus three percent.
pub proof fn lemma_disabled_issues_nothing(year: nat)
    ensures
        Inflation::spec_disabled().spec_total(year) == 0,
        Inflation::spec_disabled().spec_foundation(year) == 0,
        Inflation::spec_disabled().spec_validator(year) == -(vault_total() as int),
        Inflation::spec_disabled().spec_validator(year) == -30_000_000,
{
    lemma_vault_total();
    lemma_tapered_untapered(0, year);
}

} // verus!
