use mortgage::fixedpoint::SCALE;
use mortgage::mortgage::{year_to_monthly_interest, Mortgage, MortgageError};
use mortgage::paymentschemes::{
    fixed_capital_payments, fixed_mensualities, variable_linear_capital_payments, MonthlyPayment,
    MortgagePayments, ParseSchemeError, PaymentScheme, ScheduleError,
};

fn rate(f: f64) -> i128 {
    (f * 1e9).round() as i128
}

fn amount(units: i64) -> i128 {
    units as i128 * SCALE
}

fn to_f64(x: i128) -> f64 {
    x as f64 / 1e9
}

#[test]
fn test_year_to_monthly() {
    let m: i128 = year_to_monthly_interest(rate(1.8 / 100.0));
    assert!(to_f64(m) - 0.0014877 <= 1e-6);
}

#[test]
fn test_parse_paymentscheme() {
    let mut pay: PaymentScheme = PaymentScheme::from_str("FixedCapital").unwrap();
    assert_eq!(PaymentScheme::FixedCapital, pay);

    pay = PaymentScheme::from_str("FixedMensualities").unwrap();
    assert_eq!(PaymentScheme::FixedMensualities, pay);

    pay = PaymentScheme::from_str("VariableLinearCapital 500.0").unwrap();
    assert_eq!(PaymentScheme::VariableLinearCapital(500 * SCALE), pay);
}

#[test]
fn test_fixed_capital_payments() {
    let principal: i128 = amount(92000);
    let mort: Mortgage = Mortgage::new(principal, 1, vec![rate(1.8 / 100.0)]).unwrap();
    let m: i128 = year_to_monthly_interest(rate(1.8 / 100.0));
    let expected: i128 = principal + m * principal / SCALE;
    assert_eq!(fixed_capital_payments(mort)[0].payment, expected);
}

#[test]
fn test_fixed_mensualities() {
    let principal: i128 = amount(92000);
    let mort: Mortgage = Mortgage::new(principal, 1, vec![rate(1.8 / 100.0)]).unwrap();
    let m: i128 = year_to_monthly_interest(rate(1.8 / 100.0));
    let expected: i128 = principal + m * principal / SCALE;
    let rows: Vec<MonthlyPayment> = fixed_mensualities(mort).unwrap();
    assert!(to_f64(rows[0].payment) - to_f64(expected) <= 1e-6);
}

#[test]
fn test_variable_linear_capital_payments() {
    let principal: i128 = amount(120000);
    let n: i64 = 12;
    let mort: Mortgage = Mortgage::new(principal, n, vec![rate(0.03); 12]).unwrap();
    let first_payment: i128 = amount(11000);
    let rows: Vec<MonthlyPayment> =
        variable_linear_capital_payments(mort, first_payment).unwrap();
    assert_eq!(rows.len(), 12);
    // the first payment is the one asked for
    assert_eq!(rows[0].payment, first_payment);
    // principal portions grow by a constant step
    let delta: i128 = rows[1].capital - rows[0].capital;
    for k in 0..rows.len() - 1 {
        assert_eq!(rows[k + 1].capital - rows[k].capital, delta);
    }
    // the portions add up to the principal, up to the step rounding
    let sum: i128 = rows.iter().map(|r| r.capital).sum();
    let d: i128 = (n as i128 - 1) * n as i128;
    assert!(2 * (sum - principal) < d && -d < 2 * (sum - principal));
    // each payment is its portion plus interest on the running balance
    let m: i128 = year_to_monthly_interest(rate(0.03));
    let mut balance: i128 = principal;
    for k in 0..rows.len() {
        assert_eq!(rows[k].balance, balance);
        assert_eq!(rows[k].payment, rows[k].capital + m * balance / SCALE);
        balance -= rows[k].capital;
    }
}

#[test]
fn test_single_period_variable_linear_rejected() {
    let mort: Mortgage = Mortgage::new(amount(92000), 1, vec![rate(0.018)]).unwrap();
    let r = variable_linear_capital_payments(mort, amount(500));
    assert_eq!(r.unwrap_err(), ScheduleError::DegenerateTerm);
    let mort2: Mortgage = Mortgage::new(amount(92000), 1, vec![rate(0.018)]).unwrap();
    let r2 = MortgagePayments::new(mort2, PaymentScheme::VariableLinearCapital(amount(500)));
    assert!(matches!(r2, Err(ScheduleError::DegenerateTerm)));
}

#[test]
fn test_fixed_capital_full_term() {
    let principal: i128 = amount(120000);
    let n: i64 = 240;
    let mort: Mortgage = Mortgage::new(principal, n, vec![rate(0.03); 240]).unwrap();
    let pays: MortgagePayments =
        MortgagePayments::new(mort, PaymentScheme::FixedCapital).unwrap();
    let capital: Vec<i128> = pays.capital_paid();
    assert_eq!(capital.len(), 240);
    // every portion identical
    for k in 1..capital.len() {
        assert_eq!(capital[k], capital[0]);
    }
    // portions recover the principal to within one billionth per period
    let sum: i128 = capital.iter().sum();
    assert!(0 <= principal - sum && principal - sum < n as i128);
    // the balance strictly decreases and ends at the last portion
    let rows: &Vec<MonthlyPayment> = &pays.payments;
    for k in 1..rows.len() {
        assert!(rows[k].balance < rows[k - 1].balance);
    }
    let last = &rows[239];
    assert!(0 <= last.balance - last.capital && last.balance - last.capital < n as i128);
}

#[test]
fn test_total_repaid_is_sum_of_payments() {
    let mort: Mortgage = Mortgage::new(amount(92000), 120, vec![rate(0.018); 120]).unwrap();
    let pays: MortgagePayments =
        MortgagePayments::new(mort, PaymentScheme::FixedMensualities).unwrap();
    let total: i128 = pays.total_repaid();
    let sum: i128 = pays.payments().iter().sum();
    assert_eq!(total, sum);
    assert!(total > amount(92000));
}

#[test]
fn test_monthly_rate_conversion() {
    // monotonic in the yearly rate
    let m1: i128 = year_to_monthly_interest(rate(0.018));
    let m2: i128 = year_to_monthly_interest(rate(0.03));
    let m3: i128 = year_to_monthly_interest(rate(0.10));
    assert!(m1 < m2 && m2 < m3);
    assert_eq!(year_to_monthly_interest(0), 0);
    // compounding twelve times recovers the yearly rate
    for r in [0.0, 0.018, 0.03, 0.10, 0.50, 1.0] {
        let m: f64 = to_f64(year_to_monthly_interest(rate(r)));
        assert!(((1.0 + m).powi(12) - (1.0 + r)).abs() <= 1e-6);
    }
}

#[test]
fn test_monthly_interest_rate_vector() {
    let mort: Mortgage =
        Mortgage::new(amount(100), 3, vec![rate(0.018), rate(0.03), rate(0.018)]).unwrap();
    let monthly: Vec<i128> = mort.monthly_interest_rate();
    assert_eq!(monthly.len(), 3);
    assert_eq!(monthly[0], year_to_monthly_interest(rate(0.018)));
    assert_eq!(monthly[1], year_to_monthly_interest(rate(0.03)));
    assert_eq!(monthly[0], monthly[2]);
    assert_eq!(mort.principal(), amount(100));
    assert_eq!(mort.nperiods(), 3);
    assert_eq!(mort.yearly_interest_rate()[1], rate(0.03));
}

#[test]
fn test_mortgage_validation_errors() {
    assert_eq!(
        Mortgage::new(0, 12, vec![rate(0.018); 12]).unwrap_err(),
        MortgageError::InvalidPrincipal
    );
    assert_eq!(
        Mortgage::new(-amount(1), 12, vec![rate(0.018); 12]).unwrap_err(),
        MortgageError::InvalidPrincipal
    );
    assert_eq!(
        Mortgage::new(amount(1000), 0, vec![]).unwrap_err(),
        MortgageError::InvalidTerm
    );
    assert_eq!(
        Mortgage::new(amount(1000), 1201, vec![rate(0.018); 1201]).unwrap_err(),
        MortgageError::InvalidTerm
    );
    assert_eq!(
        Mortgage::new(amount(1000), 12, vec![rate(0.018); 11]).unwrap_err(),
        MortgageError::RateCountMismatch
    );
    assert_eq!(
        Mortgage::new(amount(1000), 2, vec![rate(0.018), 2 * SCALE]).unwrap_err(),
        MortgageError::RateOutOfRange
    );
    assert_eq!(
        Mortgage::new(amount(1000), 2, vec![rate(0.018), -1]).unwrap_err(),
        MortgageError::RateOutOfRange
    );
}

#[test]
fn test_zero_rate_annuity_rejected() {
    let mort: Mortgage = Mortgage::new(amount(1000), 2, vec![rate(0.018), 0]).unwrap();
    assert_eq!(fixed_mensualities(mort).unwrap_err(), ScheduleError::ZeroRate);
    // the fixed-capital scheme accepts a zero rate: interest is zero
    let mort2: Mortgage = Mortgage::new(amount(1000), 2, vec![0, 0]).unwrap();
    let rows: Vec<MonthlyPayment> = fixed_capital_payments(mort2);
    assert_eq!(rows[0].payment, amount(500));
    assert_eq!(rows[0].interest, 0);
}

#[test]
fn test_parse_scheme_errors() {
    assert_eq!(
        PaymentScheme::from_str("VariableLinearCapital abc").unwrap_err(),
        ParseSchemeError::InvalidInitialPayment
    );
    assert_eq!(
        PaymentScheme::from_str("VariableLinearCapital 5..0").unwrap_err(),
        ParseSchemeError::InvalidInitialPayment
    );
    assert_eq!(
        PaymentScheme::from_str("VariableLinearCapital").unwrap_err(),
        ParseSchemeError::InvalidInput
    );
    assert_eq!(
        PaymentScheme::from_str("Nonsense").unwrap_err(),
        ParseSchemeError::InvalidInput
    );
    assert_eq!(
        PaymentScheme::from_str("").unwrap_err(),
        ParseSchemeError::InvalidInput
    );
    assert_eq!(
        PaymentScheme::from_str("FixedCapital extra").unwrap_err(),
        ParseSchemeError::InvalidInput
    );
}

#[test]
fn test_parse_scheme_tokens_and_values() {
    assert_eq!(
        PaymentScheme::from_str("  VasteKapitaalaflossing  ").unwrap(),
        PaymentScheme::FixedCapital
    );
    assert_eq!(
        PaymentScheme::from_str("VasteMensualiteiten").unwrap(),
        PaymentScheme::FixedMensualities
    );
    assert_eq!(
        PaymentScheme::from_str("VariabeleLineaireKapitaalaflossing 750").unwrap(),
        PaymentScheme::VariableLinearCapital(750 * SCALE)
    );
    assert_eq!(
        PaymentScheme::from_str("VariableLinearCapital 0.5").unwrap(),
        PaymentScheme::VariableLinearCapital(500_000_000)
    );
    assert_eq!(
        PaymentScheme::from_str("VariableLinearCapital -2").unwrap(),
        PaymentScheme::VariableLinearCapital(-2 * SCALE)
    );
    assert_eq!(
        PaymentScheme::from_str("VariableLinearCapital .25").unwrap(),
        PaymentScheme::VariableLinearCapital(250_000_000)
    );
    assert_eq!(
        PaymentScheme::from_str("VariableLinearCapital 1.").unwrap(),
        PaymentScheme::VariableLinearCapital(SCALE)
    );
}

#[test]
fn test_out_of_range_amounts_rejected() {
    // a first payment beyond the largest representable principal
    let mort: Mortgage = Mortgage::new(amount(1000), 12, vec![rate(0.018); 12]).unwrap();
    let too_big: i128 = 2_000_000_000_000_000_000;
    assert_eq!(
        variable_linear_capital_payments(mort, too_big).unwrap_err(),
        ScheduleError::AmountOutOfRange
    );
    // an annuity compound factor beyond the representable range:
    // one hundred percent a year over four hundred months
    let mort2: Mortgage = Mortgage::new(amount(1000), 400, vec![SCALE; 400]).unwrap();
    assert_eq!(
        fixed_mensualities(mort2).unwrap_err(),
        ScheduleError::AmountOutOfRange
    );
}

#[test]
fn test_single_period_schemes_agree() {
    // a single-period annuity degenerates to full payoff with interest
    let principal: i128 = amount(92000);
    let mort_fc: Mortgage = Mortgage::new(principal, 1, vec![rate(0.018)]).unwrap();
    let mort_fm: Mortgage = Mortgage::new(principal, 1, vec![rate(0.018)]).unwrap();
    let fc: Vec<MonthlyPayment> = fixed_capital_payments(mort_fc);
    let fm: Vec<MonthlyPayment> = fixed_mensualities(mort_fm).unwrap();
    assert!(to_f64(fm[0].payment) - to_f64(fc[0].payment) <= 1e-6);
    assert_eq!(fc[0].balance, principal);
    assert_eq!(fc[0].capital, principal);
}
