//! The payment-scheme engine: turns a loan and a repayment scheme
//! into a month-by-month schedule.

use vstd::prelude::*;
use vstd::arithmetic::div_mod::*;
use vstd::arithmetic::mul::*;
use crate::fixedpoint::{
    SCALE, MAX_PRINCIPAL, MAX_PERIODS, POW_LIMIT, AMOUNT_LIMIT, div_trunc, fxmul, fxdiv, fxpow,
    fx_mul, fx_div, fx_pow, lemma_div_trunc_mag, lemma_div_trunc_rem, lemma_fxmul_rate_le,
    lemma_fxmul_rate_bounded, lemma_fxmul_nonneg_bound, lemma_fxpow_ge_base,
};
use crate::mortgage::{Mortgage, monthly_rate};
use vstd::string::StrSliceExecFns;

verus! {

/// One repayment scheme for a whole loan.
#[derive(Debug, PartialEq, Eq, Structural, Clone, Copy)]
pub enum PaymentScheme {
    /// Equal principal portion every period.
    FixedCapital,
    /// Equal total payment every period, by the annuity formula
    /// re-evaluated against each period's own rate.
    FixedMensualities,
    /// Principal portions that grow linearly, starting from the
    /// portion implied by this first total payment (scaled).
    VariableLinearCapital(i128),
}

/// Why a schedule could not be produced.
#[derive(Debug, PartialEq, Eq, Structural, Clone, Copy)]
pub enum ScheduleError {
    /// A period's monthly rate is zero: the annuity formula would
    /// divide by zero.
    ZeroRate,
    /// An amount left the representable range.
    AmountOutOfRange,
    /// A single-period term: the linear-capital step is undefined.
    DegenerateTerm,
}

/// Why a scheme selector string was rejected.
#[derive(Debug, PartialEq, Eq, Structural, Clone, Copy)]
pub enum ParseSchemeError {
    /// The selector named the variable-linear scheme but its second
    /// token is not a plain decimal number.
    InvalidInitialPayment,
    /// The selector matches no scheme.
    InvalidInput,
}

/// Whitespace for the purpose of splitting a selector into tokens.
pub open spec fn is_ws_char(c: char) -> bool {
    c == ' ' || c == '\t' || c == '\n' || c == '\r'
}

/// Tokenizer state after reading the first `i` characters of `s`:
/// the tokens already closed, and the token still open.
pub open spec fn tok_state(s: Seq<char>, i: int) -> (Seq<Seq<char>>, Seq<char>)
    decreases i,
{
    if i <= 0 {
        (Seq::<Seq<char>>::empty(), Seq::<char>::empty())
    } else {
        let prev = tok_state(s, i - 1);
        if is_ws_char(s[i - 1]) {
            if prev.1.len() == 0 {
                prev
            } else {
                (prev.0.push(prev.1), Seq::<char>::empty())
            }
        } else {
            (prev.0, prev.1.push(s[i - 1]))
        }
    }
}

/// The whitespace-separated tokens of `s`, in order.
pub open spec fn ws_tokens(s: Seq<char>) -> Seq<Seq<char>> {
    let st = tok_state(s, s.len() as int);
    if st.1.len() == 0 {
        st.0
    } else {
        st.0.push(st.1)
    }
}

/// The views of a vector of character vectors.
pub open spec fn views_of(ts: Seq<Vec<char>>) -> Seq<Seq<char>> {
    ts.map_values(|v: Vec<char>| v@)
}

/// An ASCII decimal digit.
pub open spec fn is_digit(c: char) -> bool {
    48 <= c as u32 <= 57
}

/// The value of an ASCII decimal digit.
pub open spec fn digit_val(c: char) -> int {
    c as u32 - 48
}

/// Every character of `t` is a decimal digit.
pub open spec fn all_digits(t: Seq<char>) -> bool {
    forall|i: int| 0 <= i < t.len() ==> is_digit(#[trigger] t[i])
}

/// The value of a run of decimal digits, most significant first.
pub open spec fn digits_value(t: Seq<char>) -> int
    decreases t.len(),
{
    if t.len() == 0 {
        0
    } else {
        digits_value(t.drop_last()) * 10 + digit_val(t.last())
    }
}

/// Ten to the `k`th power.
pub open spec fn pow10(k: int) -> int
    decreases k,
{
    if k <= 0 {
        1
    } else {
        10 * pow10(k - 1)
    }
}

proof fn lemma_pow10_values()
    ensures
        pow10(0) == 1,
        pow10(1) == 10,
        pow10(2) == 100,
        pow10(3) == 1000,
        pow10(4) == 10000,
        pow10(5) == 100000,
        pow10(6) == 1000000,
        pow10(7) == 10000000,
        pow10(8) == 100000000,
        pow10(9) == 1_000_000_000,
        pow10(18) == 1_000_000_000_000_000_000,
{
    assert(pow10(0) == 1);
    assert(pow10(1) == 10);
    assert(pow10(2) == 100);
    assert(pow10(3) == 1000);
    assert(pow10(4) == 10000);
    assert(pow10(5) == 100000);
    assert(pow10(6) == 1000000);
    assert(pow10(7) == 10000000);
    assert(pow10(8) == 100000000);
    assert(pow10(9) == 1_000_000_000);
    assert(pow10(10) == 10_000_000_000);
    assert(pow10(11) == 100_000_000_000);
    assert(pow10(12) == 1_000_000_000_000);
    assert(pow10(13) == 10_000_000_000_000);
    assert(pow10(14) == 100_000_000_000_000);
    assert(pow10(15) == 1_000_000_000_000_000);
    assert(pow10(16) == 10_000_000_000_000_000);
    assert(pow10(17) == 100_000_000_000_000_000);
    assert(pow10(18) == 1_000_000_000_000_000_000);
}

proof fn lemma_pow10_le(a: int, b: int)
    requires
        a <= b,
    ensures
        pow10(a) <= pow10(b),
        1 <= pow10(a),
    decreases b - a,
{
    if a < b {
        lemma_pow10_le(a, b - 1);
    } else {
        lemma_pow10_pos(a);
    }
}

proof fn lemma_pow10_pos(a: int)
    ensures
        1 <= pow10(a),
    decreases a,
{
    if a > 0 {
        lemma_pow10_pos(a - 1);
    }
}

/// A run of `k` digits has a value below ten to the `k`th.
proof fn lemma_digits_value_bound(t: Seq<char>)
    requires
        all_digits(t),
    ensures
        0 <= digits_value(t) < pow10(t.len() as int),
    decreases t.len(),
{
    if t.len() > 0 {
        assert(all_digits(t.drop_last()));
        lemma_digits_value_bound(t.drop_last());
        assert(is_digit(t.last()));
    }
}

/// Ten to the `k`th, executable.
fn pow10_exec(k: usize) -> (r: i128)
    requires
        k <= 18,
    ensures
        r == pow10(k as int),
{
    let mut r: i128 = 1;
    let mut j: usize = 0;
    while j < k
        invariant
            0 <= j <= k <= 18,
            r == pow10(j as int),
        decreases k - j,
    {
        proof {
            lemma_pow10_le(j as int, 18);
            lemma_pow10_values();
        }
        r = r * 10;
        j = j + 1;
    }
    r
}

/// The token without its optional leading sign.
pub open spec fn unsigned_part(t: Seq<char>) -> Seq<char> {
    if t.len() > 0 && (t[0] == '+' || t[0] == '-') {
        t.skip(1)
    } else {
        t
    }
}

/// The sign the token carries: -1 under a leading minus, else 1.
pub open spec fn sign_of(t: Seq<char>) -> int {
    if t.len() > 0 && t[0] == '-' {
        -1
    } else {
        1
    }
}

/// The unsigned token `u` is a decimal number whose (possibly absent)
/// point stands at position `d`: digits before it, digits after it,
/// at least one digit in all, at most 18 integer and 9 fractional
/// digits.
pub open spec fn decimal_split_ok(u: Seq<char>, d: int) -> bool {
    &&& 0 <= d <= u.len()
    &&& (d < u.len() ==> u[d] == '.')
    &&& (d == u.len() ==> 1 <= u.len())
    &&& all_digits(u.take(d))
    &&& (d < u.len() ==> all_digits(u.skip(d + 1)))
    &&& d <= 18
    &&& (d < u.len() ==> u.len() - d - 1 <= 9)
    &&& (d < u.len() ==> (1 <= d || 1 <= u.len() - d - 1))
}

/// The token is a plain signed decimal number the engine can hold.
pub open spec fn is_decimal(t: Seq<char>) -> bool {
    exists|d: int| #[trigger] decimal_split_ok(unsigned_part(t), d)
}

/// Where the decimal point of a well-formed token stands.
pub open spec fn decimal_split(t: Seq<char>) -> int {
    choose|d: int| decimal_split_ok(unsigned_part(t), d)
}

/// The scaled fixed-point value of a well-formed decimal token.
pub open spec fn decimal_value(t: Seq<char>) -> int {
    let u = unsigned_part(t);
    let d = decimal_split(t);
    let frac = if d < u.len() {
        digits_value(u.skip(d + 1)) * pow10(9 - (u.len() - d - 1))
    } else {
        0
    };
    sign_of(t) * (digits_value(u.take(d)) * (SCALE as int) + frac)
}

/// When a scan has found digits up to position `dpos` and a point
/// there, any valid split stands at `dpos`.
proof fn lemma_split_must_be_at(u: Seq<char>, dpos: int, dd: int)
    requires
        0 <= dpos < u.len(),
        u[dpos] == '.',
        all_digits(u.take(dpos)),
        decimal_split_ok(u, dd),
    ensures
        dd == dpos,
{
    if dd < dpos {
        assert(u.take(dpos)[dd] == u[dd]);
        assert(is_digit(u[dd]));
        assert(u[dd] == '.');
        assert(false);
    }
    if dd > dpos {
        assert(u.take(dd)[dpos] == u[dpos]);
        assert(is_digit(u[dpos]));
        assert(false);
    }
}

/// A token admits at most one decimal-point position.
proof fn lemma_decimal_split_unique(u: Seq<char>, d1: int, d2: int)
    requires
        decimal_split_ok(u, d1),
        decimal_split_ok(u, d2),
    ensures
        d1 == d2,
{
    if d1 < d2 {
        assert(u.take(d2)[d1] == u[d1]);
        assert(is_digit(u[d1]));
        assert(u[d1] == '.');
        assert(false);
    }
    if d2 < d1 {
        assert(u.take(d1)[d2] == u[d2]);
        assert(is_digit(u[d2]));
        assert(u[d2] == '.');
        assert(false);
    }
}

/// One period's row of a schedule. All amounts are scaled by `SCALE`.
#[derive(Debug, PartialEq, Eq, Structural, Clone, Copy)]
pub struct MonthlyPayment {
    /// Period number, starting at 1.
    pub month: usize,
    /// Yearly rate in effect for this period.
    pub yearly_interest_rate: i128,
    /// Total cash due this period.
    pub payment: i128,
    /// Principal portion of the payment.
    pub capital: i128,
    /// Interest portion: payment minus principal portion.
    pub interest: i128,
    /// Outstanding principal the interest was charged against, before
    /// this period's principal portion is deducted.
    pub balance: i128,
}

impl MonthlyPayment {
    /// Builds one row; the interest portion is what the payment holds
    /// beyond the principal portion.
    pub fn new(month: usize, yearly_interest_rate: i128, payment: i128, capital: i128, balance: i128) -> (r: Self)
        requires
            -AMOUNT_LIMIT <= payment <= AMOUNT_LIMIT,
            -AMOUNT_LIMIT <= capital <= AMOUNT_LIMIT,
        ensures
            r.month == month,
            r.yearly_interest_rate == yearly_interest_rate,
            r.payment == payment,
            r.capital == capital,
            r.interest == payment - capital,
            r.balance == balance,
    {
        MonthlyPayment {
            month,
            yearly_interest_rate,
            payment,
            capital,
            interest: payment - capital,
            balance,
        }
    }
}

/// Sum of the `payment` fields of a schedule.
pub open spec fn sum_payment(rows: Seq<MonthlyPayment>) -> int
    decreases rows.len(),
{
    if rows.len() == 0 {
        0
    } else {
        sum_payment(rows.drop_last()) + rows.last().payment
    }
}

/// Sum of the `capital` fields of a schedule.
pub open spec fn sum_capital(rows: Seq<MonthlyPayment>) -> int
    decreases rows.len(),
{
    if rows.len() == 0 {
        0
    } else {
        sum_capital(rows.drop_last()) + rows.last().capital
    }
}

/// Every row's amounts are within `AMOUNT_LIMIT` and there is at most
/// one row per supported period.
pub open spec fn bounded_rows(rows: Seq<MonthlyPayment>) -> bool {
    &&& rows.len() <= MAX_PERIODS
    &&& forall|k: int|
        0 <= k < rows.len() ==> -AMOUNT_LIMIT <= #[trigger] rows[k].payment <= AMOUNT_LIMIT
}

/// The monthly rate in effect for period `k` (0-based) of the loan.
pub open spec fn period_rate(m: Mortgage, k: int) -> int {
    monthly_rate(m.year_interest_rate@[k] as int)
}

/// Fixed-capital scheme: the constant principal portion, principal
/// divided by the number of periods, rounded down.
pub open spec fn fc_fixedcap(m: Mortgage) -> int {
    m.principal as int / m.nperiods as int
}

/// Fixed-capital scheme: the balance interest is charged against in
/// period `k` (0-based): the principal less the portions already paid.
pub open spec fn fc_saldo(m: Mortgage, k: int) -> int {
    m.principal - k * fc_fixedcap(m)
}

/// Fixed-capital scheme: the total payment of period `k` (0-based).
pub open spec fn fc_payment(m: Mortgage, k: int) -> int {
    fc_fixedcap(m) + fxmul(period_rate(m, k), fc_saldo(m, k))
}

/// The rows are exactly the fixed-capital schedule of the loan.
pub open spec fn fc_matches(m: Mortgage, rows: Seq<MonthlyPayment>) -> bool {
    &&& rows.len() == m.nperiods
    &&& forall|k: int|
        0 <= k < rows.len() ==> {
            &&& (#[trigger] rows[k]).month == k + 1
            &&& rows[k].yearly_interest_rate == m.year_interest_rate@[k]
            &&& rows[k].payment == fc_payment(m, k)
            &&& rows[k].capital == fc_fixedcap(m)
            &&& rows[k].interest == fc_payment(m, k) - fc_fixedcap(m)
            &&& rows[k].balance == fc_saldo(m, k)
        }
}

/// The schedule under the fixed-capital scheme: every period repays
/// the same principal portion, and pays interest on what is still
/// outstanding at the start of the period.
pub fn fixed_capital_payments(mort: Mortgage) -> (r: Vec<MonthlyPayment>)
    requires
        mort.wf(),
    ensures
        fc_matches(mort, r@),
        bounded_rows(r@),
{
    let principal: i128 = mort.principal();
    let nperiods: i64 = mort.nperiods();
    let fixedcap: i128 = principal.checked_div(nperiods as i128).unwrap();
    proof {
        lemma_div_pos_is_pos(principal as int, nperiods as int);
        lemma_div_nonincreasing(principal as int, nperiods as int);
        lemma_fundamental_div_mod(principal as int, nperiods as int);
        lemma_mod_division_less_than_divisor(principal as int, nperiods as int);
        assert(fixedcap == fc_fixedcap(mort));
        assert(nperiods * fc_fixedcap(mort) <= principal);
    }
    let m_interest_rate: Vec<i128> = mort.monthly_interest_rate();
    let mut payments: Vec<MonthlyPayment> = Vec::new();
    let n: usize = nperiods as usize;
    let mut period: usize = 0;
    while period < n
        invariant
            mort.wf(),
            principal == mort.principal,
            nperiods == mort.nperiods,
            n == nperiods,
            fixedcap == fc_fixedcap(mort),
            0 <= fixedcap <= principal,
            nperiods * fc_fixedcap(mort) <= principal,
            m_interest_rate@.len() == n,
            forall|i: int|
                0 <= i < n ==> 0 <= #[trigger] m_interest_rate@[i] <= SCALE
                    && m_interest_rate@[i] == period_rate(mort, i),
            0 <= period <= n,
            payments@.len() == period,
            forall|k: int|
                0 <= k < period ==> {
                    &&& (#[trigger] payments@[k]).month == k + 1
                    &&& payments@[k].yearly_interest_rate == mort.year_interest_rate@[k]
                    &&& payments@[k].payment == fc_payment(mort, k)
                    &&& -AMOUNT_LIMIT <= payments@[k].payment <= AMOUNT_LIMIT
                    &&& payments@[k].capital == fc_fixedcap(mort)
                    &&& payments@[k].interest == fc_payment(mort, k) - fc_fixedcap(mort)
                    &&& payments@[k].balance == fc_saldo(mort, k)
                },
        decreases n - period,
    {
        proof {
            assert(period * fixedcap <= nperiods * fixedcap) by {
                lemma_mul_inequality(period as int, nperiods as int, fixedcap as int);
            }
            assert(0 <= period * fixedcap) by {
                lemma_mul_nonnegative(period as int, fixedcap as int);
            }
        }
        let saldo: i128 = principal - (period as i128) * fixedcap;
        proof {
            assert(saldo == fc_saldo(mort, period as int));
            lemma_fxmul_rate_le(m_interest_rate@[period as int] as int, saldo as int);
            assert(m_interest_rate@[period as int] * saldo <= i128::MAX) by {
                lemma_mul_upper_bound(
                    m_interest_rate@[period as int] as int,
                    SCALE as int,
                    saldo as int,
                    MAX_PRINCIPAL as int,
                );
            }
            lemma_mul_nonnegative(m_interest_rate@[period as int] as int, saldo as int);
        }
        let mens: i128 = fixedcap + fx_mul(m_interest_rate[period], saldo);
        payments.push(
            MonthlyPayment::new(
                period + 1,
                mort.year_interest_rate[period],
                mens,
                fixedcap,
                saldo,
            ),
        );
        period = period + 1;
    }
    payments
}

/// Law: under the fixed-capital scheme every period's principal
/// portion is the same, the principal divided by the period count,
/// and the portions add up to the principal exactly, up to the
/// rounding lost in that division: less than one billionth per period.
pub proof fn lemma_fixed_capital_principal(m: Mortgage, rows: Seq<MonthlyPayment>)
    requires
        m.wf(),
        fc_matches(m, rows),
    ensures
        forall|k: int| 0 <= k < rows.len() ==> (#[trigger] rows[k]).capital == fc_fixedcap(m),
        0 <= m.principal - sum_capital(rows) < m.nperiods,
{
    lemma_sum_capital_const(rows, fc_fixedcap(m));
    lemma_fundamental_div_mod(m.principal as int, m.nperiods as int);
    lemma_mod_division_less_than_divisor(m.principal as int, m.nperiods as int);
}

/// Fixed-mensualities scheme: the compound factor `(1 + r)^n` for
/// period `k`'s own monthly rate `r` over the full term `n`.
pub open spec fn fm_pow(m: Mortgage, k: int) -> int {
    fxpow(SCALE + period_rate(m, k), m.nperiods as nat)
}

/// Fixed-mensualities scheme: the annuity payment of period `k`,
/// `principal * r * (1+r)^n / ((1+r)^n - 1)` evaluated with that
/// period's own monthly rate `r` and the full term `n`.
pub open spec fn fm_payment(m: Mortgage, k: int) -> int {
    fxdiv(fxmul(fxmul(m.principal as int, period_rate(m, k)), fm_pow(m, k)), fm_pow(m, k) - SCALE)
}

/// Fixed-mensualities scheme: the outstanding balance carried into
/// period `k`: the principal less every earlier principal portion.
pub open spec fn fm_balance(m: Mortgage, k: int) -> int
    decreases k,
{
    if k <= 0 {
        m.principal as int
    } else {
        fm_balance(m, k - 1) - fm_payment(m, k - 1) + fxmul(
            fm_balance(m, k - 1),
            period_rate(m, k - 1),
        )
    }
}

/// Fixed-mensualities scheme: the principal portion of period `k`:
/// the payment less the interest due on the carried balance.
pub open spec fn fm_portion(m: Mortgage, k: int) -> int {
    fm_payment(m, k) - fxmul(fm_balance(m, k), period_rate(m, k))
}

/// Period `k` of the fixed-mensualities schedule stays representable:
/// its compound factor, payment, portion and next balance are all in
/// range.
pub open spec fn fm_ok_at(m: Mortgage, k: int) -> bool {
    &&& fm_pow(m, k) <= POW_LIMIT
    &&& fm_payment(m, k) <= AMOUNT_LIMIT
    &&& -AMOUNT_LIMIT <= fm_portion(m, k) <= AMOUNT_LIMIT
    &&& -AMOUNT_LIMIT <= fm_balance(m, k + 1) <= AMOUNT_LIMIT
}

/// The whole fixed-mensualities schedule stays representable.
pub open spec fn fm_ok(m: Mortgage) -> bool {
    forall|k: int| 0 <= k < m.nperiods ==> #[trigger] fm_ok_at(m, k)
}

/// Some period's monthly rate is zero, so the annuity denominator
/// `(1+r)^n - 1` vanishes.
pub open spec fn fm_has_zero_rate(m: Mortgage) -> bool {
    exists|k: int| 0 <= k < m.nperiods && #[trigger] period_rate(m, k) == 0
}

/// The rows are exactly the fixed-mensualities schedule of the loan.
pub open spec fn fm_matches(m: Mortgage, rows: Seq<MonthlyPayment>) -> bool {
    &&& rows.len() == m.nperiods
    &&& forall|k: int|
        0 <= k < rows.len() ==> {
            &&& (#[trigger] rows[k]).month == k + 1
            &&& rows[k].yearly_interest_rate == m.year_interest_rate@[k]
            &&& rows[k].payment == fm_payment(m, k)
            &&& rows[k].capital == fm_portion(m, k)
            &&& rows[k].interest == fm_payment(m, k) - fm_portion(m, k)
            &&& rows[k].balance == fm_balance(m, k)
        }
}

/// The schedule under the fixed-mensualities scheme: each period pays
/// the annuity amount for its own rate, re-evaluated over the full
/// term. Exactly self-consistent when the rate is constant; under a
/// variable rate this is the documented worst-case approximation, and
/// is kept as such rather than re-amortized period by period.
///
/// Fails with `ZeroRate` exactly when some period's monthly rate is
/// zero, and with `AmountOutOfRange` exactly when (no rate is zero
/// and) some figure of the schedule would leave the representable
/// range.
pub fn fixed_mensualities(mort: Mortgage) -> (r: Result<Vec<MonthlyPayment>, ScheduleError>)
    requires
        mort.wf(),
    ensures
        r == Err::<Vec<MonthlyPayment>, ScheduleError>(ScheduleError::ZeroRate)
            <==> fm_has_zero_rate(mort),
        r == Err::<Vec<MonthlyPayment>, ScheduleError>(ScheduleError::AmountOutOfRange)
            <==> !fm_has_zero_rate(mort) && !fm_ok(mort),
        r is Ok <==> !fm_has_zero_rate(mort) && fm_ok(mort),
        r is Ok ==> fm_matches(mort, r->Ok_0@) && bounded_rows(r->Ok_0@),
{
    let principal: i128 = mort.principal();
    let nperiods: i64 = mort.nperiods();
    let n: usize = nperiods as usize;
    let m_interest_rate: Vec<i128> = mort.monthly_interest_rate();
    let mut i: usize = 0;
    while i < n
        invariant
            mort.wf(),
            n == mort.nperiods,
            m_interest_rate@.len() == n,
            forall|j: int|
                0 <= j < n ==> 0 <= #[trigger] m_interest_rate@[j] <= SCALE
                    && m_interest_rate@[j] == period_rate(mort, j),
            0 <= i <= n,
            forall|j: int| 0 <= j < i ==> 1 <= #[trigger] m_interest_rate@[j],
        decreases n - i,
    {
        if m_interest_rate[i] == 0 {
            proof {
                assert(period_rate(mort, i as int) == 0);
                assert(fm_has_zero_rate(mort));
            }
            return Err(ScheduleError::ZeroRate);
        }
        i = i + 1;
    }
    proof {
        assert forall|k: int| 0 <= k < n implies #[trigger] period_rate(mort, k) >= 1 by {
            assert(m_interest_rate@[k] == period_rate(mort, k));
            assert(m_interest_rate@[k] >= 1);
        }
        assert(!fm_has_zero_rate(mort));
    }
    let mut payments: Vec<MonthlyPayment> = Vec::new();
    let mut balance: i128 = principal;
    let mut period: usize = 0;
    while period < n
        invariant
            mort.wf(),
            principal == mort.principal,
            nperiods == mort.nperiods,
            n == nperiods,
            m_interest_rate@.len() == n,
            forall|j: int|
                0 <= j < n ==> 1 <= #[trigger] m_interest_rate@[j] <= SCALE
                    && m_interest_rate@[j] == period_rate(mort, j),
            !fm_has_zero_rate(mort),
            0 <= period <= n,
            payments@.len() == period,
            balance == fm_balance(mort, period as int),
            -AMOUNT_LIMIT <= balance <= AMOUNT_LIMIT,
            forall|k: int| 0 <= k < period ==> #[trigger] fm_ok_at(mort, k),
            forall|k: int|
                0 <= k < period ==> {
                    &&& (#[trigger] payments@[k]).month == k + 1
                    &&& payments@[k].yearly_interest_rate == mort.year_interest_rate@[k]
                    &&& payments@[k].payment == fm_payment(mort, k)
                    &&& -AMOUNT_LIMIT <= payments@[k].payment <= AMOUNT_LIMIT
                    &&& payments@[k].capital == fm_portion(mort, k)
                    &&& payments@[k].interest == fm_payment(mort, k) - fm_portion(mort, k)
                    &&& payments@[k].balance == fm_balance(mort, k)
                },
        decreases n - period,
    {
        let rate: i128 = m_interest_rate[period];
        let powopt: Option<i128> = fx_pow(SCALE + rate, nperiods as u64);
        let pow: i128;
        match powopt {
            None => {
                proof {
                    assert(!fm_ok_at(mort, period as int));
                    assert(!fm_ok(mort));
                }
                return Err(ScheduleError::AmountOutOfRange);
            },
            Some(v) => {
                pow = v;
            },
        }
        proof {
            lemma_fxpow_ge_base((SCALE + rate) as int, nperiods as nat);
            assert(pow >= SCALE + 1);
            assert(principal * rate <= MAX_PRINCIPAL * SCALE) by {
                lemma_mul_upper_bound(principal as int, MAX_PRINCIPAL as int, rate as int, SCALE as int);
            }
            lemma_mul_nonnegative(principal as int, rate as int);
        }
        let den: i128 = pow - SCALE;
        let t1: i128 = fx_mul(principal, rate);
        proof {
            lemma_fxmul_rate_le(rate as int, principal as int);
            assert(0 <= t1 <= principal);
            assert(t1 * pow <= MAX_PRINCIPAL * POW_LIMIT) by {
                lemma_mul_upper_bound(t1 as int, MAX_PRINCIPAL as int, pow as int, POW_LIMIT as int);
            }
            lemma_mul_nonnegative(t1 as int, pow as int);
        }
        let t2: i128 = fx_mul(t1, pow);
        proof {
            lemma_fxmul_nonneg_bound(t1 as int, pow as int);
            assert(t2 * SCALE <= MAX_PRINCIPAL * POW_LIMIT);
            assert(t2 <= 1_000_000_000_000_000_000_000_000_000i128);
            lemma_mul_nonnegative(t2 as int, SCALE as int);
            lemma_div_trunc_mag(t2 * SCALE, den as int);
        }
        let mens: i128 = fx_div(t2, den);
        proof {
            assert(mens == fm_payment(mort, period as int));
            assert(mens >= 0);
        }
        if mens > AMOUNT_LIMIT {
            proof {
                assert(!fm_ok_at(mort, period as int));
                assert(!fm_ok(mort));
            }
            return Err(ScheduleError::AmountOutOfRange);
        }
        proof {
            assert(-170141183460469231731687303715884105727i128 <= balance * rate
                <= 170141183460469231731687303715884105727i128) by (nonlinear_arith)
                requires
                    -AMOUNT_LIMIT <= balance <= AMOUNT_LIMIT,
                    0 <= rate <= SCALE,
                    AMOUNT_LIMIT == 10_000_000_000_000_000_000_000_000_000i128,
                    SCALE == 1_000_000_000i128,
            ;
            lemma_fxmul_rate_bounded(rate as int, balance as int, AMOUNT_LIMIT as int);
            lemma_mul_is_commutative(balance as int, rate as int);
        }
        let ib: i128 = fx_mul(balance, rate);
        proof {
            assert(fxmul(balance as int, rate as int) == fxmul(rate as int, balance as int));
            assert(-AMOUNT_LIMIT <= ib <= AMOUNT_LIMIT);
        }
        let portion: i128 = mens - ib;
        proof {
            assert(portion == fm_portion(mort, period as int));
        }
        if portion > AMOUNT_LIMIT || portion < -AMOUNT_LIMIT {
            proof {
                assert(!fm_ok_at(mort, period as int));
                assert(!fm_ok(mort));
            }
            return Err(ScheduleError::AmountOutOfRange);
        }
        let new_balance: i128 = balance - portion;
        proof {
            assert(fm_balance(mort, period + 1) == new_balance);
        }
        if new_balance > AMOUNT_LIMIT || new_balance < -AMOUNT_LIMIT {
            proof {
                assert(!fm_ok_at(mort, period as int));
                assert(!fm_ok(mort));
            }
            return Err(ScheduleError::AmountOutOfRange);
        }
        payments.push(
            MonthlyPayment::new(
                period + 1,
                mort.year_interest_rate[period],
                mens,
                portion,
                balance,
            ),
        );
        proof {
            assert(fm_ok_at(mort, period as int));
        }
        balance = new_balance;
        period = period + 1;
    }
    proof {
        assert(fm_ok(mort));
    }
    Ok(payments)
}

/// Variable-linear-capital scheme: the first principal portion,
/// backed out of the requested first total payment by removing the
/// first period's interest on the whole principal.
pub open spec fn vl_x1(m: Mortgage, init: int) -> int {
    init - fxmul(period_rate(m, 0), m.principal as int)
}

/// Variable-linear-capital scheme: the constant step between
/// consecutive principal portions, chosen so that the portions of the
/// whole term add up to the principal:
/// `2 * (principal - n * x1) / ((n - 1) * n)`, rounded toward zero.
pub open spec fn vl_delta(m: Mortgage, init: int) -> int {
    div_trunc(2 * (m.principal - m.nperiods * vl_x1(m, init)), (m.nperiods - 1) * m.nperiods)
}

/// Variable-linear-capital scheme: the principal portion of period
/// `k` (0-based): the first portion plus `k` steps.
pub open spec fn vl_x(m: Mortgage, init: int, k: int) -> int {
    vl_x1(m, init) + k * vl_delta(m, init)
}

/// Variable-linear-capital scheme: the balance carried into period
/// `k`: the principal less every earlier principal portion.
pub open spec fn vl_saldo(m: Mortgage, init: int, k: int) -> int
    decreases k,
{
    if k <= 0 {
        m.principal as int
    } else {
        vl_saldo(m, init, k - 1) - vl_x(m, init, k - 1)
    }
}

/// Variable-linear-capital scheme: the total payment of period `k`:
/// its principal portion plus interest on the carried balance.
pub open spec fn vl_payment(m: Mortgage, init: int, k: int) -> int {
    vl_x(m, init, k) + fxmul(period_rate(m, k), vl_saldo(m, init, k))
}

/// The rows are exactly the variable-linear-capital schedule of the
/// loan for the given first payment.
pub open spec fn vl_matches(m: Mortgage, init: int, rows: Seq<MonthlyPayment>) -> bool {
    &&& rows.len() == m.nperiods
    &&& forall|k: int|
        0 <= k < rows.len() ==> {
            &&& (#[trigger] rows[k]).month == k + 1
            &&& rows[k].yearly_interest_rate == m.year_interest_rate@[k]
            &&& rows[k].payment == vl_payment(m, init, k)
            &&& rows[k].capital == vl_x(m, init, k)
            &&& rows[k].interest == vl_payment(m, init, k) - vl_x(m, init, k)
            &&& rows[k].balance == vl_saldo(m, init, k)
        }
}

/// The schedule under the variable-linear-capital scheme: principal
/// portions grow by a constant step from the portion implied by the
/// requested first payment, engineered so the portions of the whole
/// term add up to the principal.
///
/// Fails with `DegenerateTerm` exactly on a single-period loan, whose
/// step is undefined, and with `AmountOutOfRange` exactly when (the
/// term is longer and) the first payment is beyond `MAX_PRINCIPAL` in
/// magnitude.
pub fn variable_linear_capital_payments(mort: Mortgage, initial_payment: i128) -> (r: Result<
    Vec<MonthlyPayment>,
    ScheduleError,
>)
    requires
        mort.wf(),
    ensures
        r == Err::<Vec<MonthlyPayment>, ScheduleError>(ScheduleError::DegenerateTerm)
            <==> mort.nperiods == 1,
        r == Err::<Vec<MonthlyPayment>, ScheduleError>(ScheduleError::AmountOutOfRange)
            <==> mort.nperiods != 1 && !(-MAX_PRINCIPAL <= initial_payment <= MAX_PRINCIPAL),
        r is Ok <==> mort.nperiods != 1 && -MAX_PRINCIPAL <= initial_payment <= MAX_PRINCIPAL,
        r is Ok ==> vl_matches(mort, initial_payment as int, r->Ok_0@) && bounded_rows(r->Ok_0@),
{
    let principal: i128 = mort.principal();
    let nperiods: i64 = mort.nperiods();
    if nperiods == 1 {
        return Err(ScheduleError::DegenerateTerm);
    }
    if initial_payment > MAX_PRINCIPAL || initial_payment < -MAX_PRINCIPAL {
        return Err(ScheduleError::AmountOutOfRange);
    }
    let n: usize = nperiods as usize;
    let m_interest_rate: Vec<i128> = mort.monthly_interest_rate();
    proof {
        assert(m_interest_rate@[0] * principal <= SCALE * MAX_PRINCIPAL) by {
            lemma_mul_upper_bound(
                m_interest_rate@[0] as int,
                SCALE as int,
                principal as int,
                MAX_PRINCIPAL as int,
            );
        }
        lemma_mul_nonnegative(m_interest_rate@[0] as int, principal as int);
        lemma_fxmul_rate_le(m_interest_rate@[0] as int, principal as int);
    }
    let ip0: i128 = fx_mul(m_interest_rate[0], principal);
    let x1: i128 = initial_payment - ip0;
    proof {
        assert(x1 == vl_x1(mort, initial_payment as int));
        assert(-2_000_000_000_000_000_000i128 <= x1 <= 2_000_000_000_000_000_000i128);
        assert(0 <= (nperiods as i128) * x1 + 2_400_000_000_000_000_000_000
            <= 4_800_000_000_000_000_000_000) by (nonlinear_arith)
            requires
                2 <= nperiods as i128 <= 1200,
                -2_000_000_000_000_000_000i128 <= x1 <= 2_000_000_000_000_000_000i128,
        ;
    }
    let nx1: i128 = (nperiods as i128).checked_mul(x1).unwrap();
    let num: i128 = 2 * (principal - nx1);
    proof {
        assert(2 <= ((nperiods as i128) - 1) * (nperiods as i128) <= 1_438_800) by (
        nonlinear_arith)
            requires
                2 <= nperiods as i128 <= 1200,
        ;
    }
    let d: i128 = ((nperiods as i128) - 1).checked_mul(nperiods as i128).unwrap();
    proof {
        lemma_div_trunc_mag(num as int, d as int);
    }
    let delta: i128 = num.checked_div(d).unwrap();
    proof {
        assert(delta == vl_delta(mort, initial_payment as int));
        assert(-5_000_000_000_000_000_000_000i128 <= delta <= 5_000_000_000_000_000_000_000i128);
    }
    let mut payments: Vec<MonthlyPayment> = Vec::new();
    let mut x: i128 = x1;
    let mut saldo: i128 = principal;
    let mut period: usize = 0;
    while period < n
        invariant
            mort.wf(),
            principal == mort.principal,
            nperiods == mort.nperiods,
            n == nperiods,
            2 <= nperiods,
            m_interest_rate@.len() == n,
            forall|j: int|
                0 <= j < n ==> 0 <= #[trigger] m_interest_rate@[j] <= SCALE
                    && m_interest_rate@[j] == period_rate(mort, j),
            -MAX_PRINCIPAL <= initial_payment <= MAX_PRINCIPAL,
            x1 == vl_x1(mort, initial_payment as int),
            -2_000_000_000_000_000_000i128 <= x1 <= 2_000_000_000_000_000_000i128,
            delta == vl_delta(mort, initial_payment as int),
            -5_000_000_000_000_000_000_000i128 <= delta <= 5_000_000_000_000_000_000_000i128,
            0 <= period <= n,
            x == vl_x(mort, initial_payment as int, period as int),
            -6_002_000_000_000_000_000_000_000i128 <= x <= 6_002_000_000_000_000_000_000_000i128,
            saldo == vl_saldo(mort, initial_payment as int, period as int),
            -(MAX_PRINCIPAL + period * 6_002_000_000_000_000_000_000_000) <= saldo
                <= MAX_PRINCIPAL + period * 6_002_000_000_000_000_000_000_000,
            payments@.len() == period,
            forall|k: int|
                0 <= k < period ==> {
                    &&& (#[trigger] payments@[k]).month == k + 1
                    &&& payments@[k].yearly_interest_rate == mort.year_interest_rate@[k]
                    &&& payments@[k].payment == vl_payment(mort, initial_payment as int, k)
                    &&& -AMOUNT_LIMIT <= payments@[k].payment <= AMOUNT_LIMIT
                    &&& payments@[k].capital == vl_x(mort, initial_payment as int, k)
                    &&& payments@[k].interest == vl_payment(mort, initial_payment as int, k)
                        - vl_x(mort, initial_payment as int, k)
                    &&& payments@[k].balance == vl_saldo(mort, initial_payment as int, k)
                },
        decreases n - period,
    {
        let rate: i128 = m_interest_rate[period];
        proof {
            assert(-7_203_000_000_000_000_000_000_000_000i128 <= saldo
                <= 7_203_000_000_000_000_000_000_000_000i128);
            assert(-170141183460469231731687303715884105727i128 <= rate * saldo
                <= 170141183460469231731687303715884105727i128) by (nonlinear_arith)
                requires
                    0 <= rate <= 1_000_000_000i128,
                    -7_203_000_000_000_000_000_000_000_000i128 <= saldo
                        <= 7_203_000_000_000_000_000_000_000_000i128,
            ;
            lemma_fxmul_rate_bounded(
                rate as int,
                saldo as int,
                7_203_000_000_000_000_000_000_000_000,
            );
        }
        let interest_part: i128 = fx_mul(rate, saldo);
        let mens: i128 = x + interest_part;
        payments.push(
            MonthlyPayment::new(
                period + 1,
                mort.year_interest_rate[period],
                mens,
                x,
                saldo,
            ),
        );
        proof {
            assert(mens == vl_payment(mort, initial_payment as int, period as int));
        }
        saldo = saldo - x;
        proof {
            assert(saldo == vl_saldo(mort, initial_payment as int, period + 1));
            assert((period + 1) * delta == period * delta + delta) by {
                lemma_mul_is_distributive_add_other_way(delta as int, period as int, 1);
                lemma_mul_basics_4(delta as int);
            }
            assert(-6_002_000_000_000_000_000_000_000 <= x1 + (period + 1) * delta
                <= 6_002_000_000_000_000_000_000_000) by (nonlinear_arith)
                requires
                    -2_000_000_000_000_000_000i128 <= x1 <= 2_000_000_000_000_000_000i128,
                    -5_000_000_000_000_000_000_000i128 <= delta
                        <= 5_000_000_000_000_000_000_000i128,
                    0 <= period + 1 <= 1200,
            ;
        }
        x = x + delta;
        period = period + 1;
    }
    Ok(payments)
}

/// The first `k` rows of an arithmetic progression of principal
/// portions sum, doubled, to `2*k*x1 + delta*k*(k-1)`.
proof fn lemma_sum_capital_arith(rows: Seq<MonthlyPayment>, x1: int, delta: int, k: int)
    requires
        0 <= k <= rows.len(),
        forall|j: int| 0 <= j < rows.len() ==> (#[trigger] rows[j]).capital == x1 + j * delta,
    ensures
        2 * sum_capital(rows.take(k)) == 2 * k * x1 + delta * k * (k - 1),
    decreases k,
{
    if k == 0 {
        assert(rows.take(0).len() == 0);
    } else {
        lemma_sum_capital_arith(rows, x1, delta, k - 1);
        assert(rows.take(k).drop_last() =~= rows.take(k - 1));
        assert(rows.take(k).last() == rows[k - 1]);
        assert(rows[k - 1].capital == x1 + (k - 1) * delta);
        assert(sum_capital(rows.take(k)) == sum_capital(rows.take(k - 1)) + x1 + (k - 1) * delta);
        assert(2 * sum_capital(rows.take(k - 1)) == 2 * (k - 1) * x1 + delta * (k - 1) * (k - 1
            - 1));
        assert(2 * (k - 1) * x1 + delta * (k - 1) * (k - 1 - 1) + 2 * (x1 + (k - 1) * delta) == 2
            * k * x1 + delta * k * (k - 1)) by (nonlinear_arith);
    }
}

/// Law: under the variable-linear-capital scheme, consecutive
/// principal portions differ by the constant step `vl_delta`, and all
/// portions together return the principal exactly, up to the rounding
/// lost in the step division: doubled, the total misses the doubled
/// principal by less than `(n - 1) * n` billionths.
pub proof fn lemma_variable_linear_principal(m: Mortgage, init: int, rows: Seq<MonthlyPayment>)
    requires
        m.wf(),
        m.nperiods >= 2,
        vl_matches(m, init, rows),
    ensures
        forall|k: int|
            0 <= k < rows.len() - 1 ==> (#[trigger] rows[k + 1]).capital - rows[k].capital
                == vl_delta(m, init),
        -((m.nperiods - 1) * m.nperiods) < 2 * (sum_capital(rows) - m.principal),
        2 * (sum_capital(rows) - m.principal) < (m.nperiods - 1) * m.nperiods,
{
    let n = m.nperiods as int;
    let x1 = vl_x1(m, init);
    let delta = vl_delta(m, init);
    assert forall|k: int|
        0 <= k < rows.len() - 1 implies (#[trigger] rows[k + 1]).capital - rows[k].capital
        == delta by {
        assert(rows[k].capital == x1 + k * delta);
        assert(rows[k + 1].capital == x1 + (k + 1) * delta);
        assert((k + 1) * delta == k * delta + delta) by {
            lemma_mul_is_distributive_add_other_way(delta, k, 1);
            lemma_mul_basics_4(delta);
        }
    }
    assert(forall|j: int|
        0 <= j < rows.len() ==> (#[trigger] rows[j]).capital == x1 + j * delta);
    lemma_sum_capital_arith(rows, x1, delta, n);
    assert(rows.take(n) =~= rows);
    let num = 2 * (m.principal - n * x1);
    let d = (n - 1) * n;
    assert(2 <= (n - 1) * n) by (nonlinear_arith)
        requires
            2 <= n,
    ;
    lemma_div_trunc_rem(num, d);
    assert(delta == div_trunc(num, d));
    assert(delta * n * (n - 1) == ((n - 1) * n) * delta) by (nonlinear_arith);
    assert(2 * (sum_capital(rows) - m.principal) == d * delta - num) by (nonlinear_arith)
        requires
            2 * sum_capital(rows) == 2 * n * x1 + delta * n * (n - 1),
            num == 2 * (m.principal - n * x1),
            delta * n * (n - 1) == d * delta,
    ;
}

/// The complete schedules a caller reads: one row per period, in
/// period order.
pub struct MortgagePayments {
    /// The rows of the schedule, ordered by period.
    pub payments: Vec<MonthlyPayment>,
}

impl MortgagePayments {
    /// Every row of the schedule is within the representable range.
    pub open spec fn wf(&self) -> bool {
        bounded_rows(self.payments@)
    }

    /// Builds the schedule for the loan under the chosen scheme by
    /// dispatching to that scheme's algorithm; fails exactly as the
    /// scheme's own function does.
    pub fn new(m: Mortgage, p: PaymentScheme) -> (r: Result<MortgagePayments, ScheduleError>)
        requires
            m.wf(),
        ensures
            p == PaymentScheme::FixedCapital ==> r is Ok && fc_matches(
                m,
                r->Ok_0.payments@,
            ),
            p == PaymentScheme::FixedMensualities ==> {
                &&& (r is Ok <==> !fm_has_zero_rate(m) && fm_ok(m))
                &&& (r == Err::<MortgagePayments, ScheduleError>(ScheduleError::ZeroRate)
                    <==> fm_has_zero_rate(m))
                &&& (r == Err::<MortgagePayments, ScheduleError>(ScheduleError::AmountOutOfRange)
                    <==> !fm_has_zero_rate(m) && !fm_ok(m))
                &&& (r is Ok ==> fm_matches(m, r->Ok_0.payments@))
            },
            p is VariableLinearCapital ==> {
                let ip = p->VariableLinearCapital_0;
                &&& (r is Ok <==> m.nperiods != 1 && -MAX_PRINCIPAL <= ip <= MAX_PRINCIPAL)
                &&& (r == Err::<MortgagePayments, ScheduleError>(ScheduleError::DegenerateTerm)
                    <==> m.nperiods == 1)
                &&& (r == Err::<MortgagePayments, ScheduleError>(ScheduleError::AmountOutOfRange)
                    <==> m.nperiods != 1 && !(-MAX_PRINCIPAL <= ip <= MAX_PRINCIPAL))
                &&& (r is Ok ==> vl_matches(m, ip as int, r->Ok_0.payments@))
            },
            r is Ok ==> r->Ok_0.wf(),
    {
        match p {
            PaymentScheme::FixedCapital => Ok(
                MortgagePayments { payments: fixed_capital_payments(m) },
            ),
            PaymentScheme::FixedMensualities => match fixed_mensualities(m) {
                Ok(v) => Ok(MortgagePayments { payments: v }),
                Err(e) => Err(e),
            },
            PaymentScheme::VariableLinearCapital(init_pay) => match variable_linear_capital_payments(
                m,
                init_pay,
            ) {
                Ok(v) => Ok(MortgagePayments { payments: v }),
                Err(e) => Err(e),
            },
        }
    }

    /// The total payment of each period, in period order.
    pub fn payments(&self) -> (r: Vec<i128>)
        ensures
            r@.len() == self.payments@.len(),
            forall|k: int| 0 <= k < r@.len() ==> r@[k] == (#[trigger] self.payments@[k]).payment,
    {
        let mut out: Vec<i128> = Vec::new();
        let mut k: usize = 0;
        while k < self.payments.len()
            invariant
                0 <= k <= self.payments@.len(),
                out@.len() == k,
                forall|j: int| 0 <= j < k ==> out@[j] == (#[trigger] self.payments@[j]).payment,
            decreases self.payments@.len() - k,
        {
            out.push(self.payments[k].payment);
            k = k + 1;
        }
        out
    }

    /// The principal portion of each period, in period order.
    pub fn capital_paid(&self) -> (r: Vec<i128>)
        ensures
            r@.len() == self.payments@.len(),
            forall|k: int| 0 <= k < r@.len() ==> r@[k] == (#[trigger] self.payments@[k]).capital,
    {
        let mut out: Vec<i128> = Vec::new();
        let mut k: usize = 0;
        while k < self.payments.len()
            invariant
                0 <= k <= self.payments@.len(),
                out@.len() == k,
                forall|j: int| 0 <= j < k ==> out@[j] == (#[trigger] self.payments@[j]).capital,
            decreases self.payments@.len() - k,
        {
            out.push(self.payments[k].capital);
            k = k + 1;
        }
        out
    }

    /// Law: the total repaid over the whole loan is the sum of every
    /// period's payment field, exactly.
    pub fn total_repaid(&self) -> (r: i128)
        requires
            self.wf(),
        ensures
            r == sum_payment(self.payments@),
    {
        let mut total: i128 = 0;
        let mut k: usize = 0;
        while k < self.payments.len()
            invariant
                self.wf(),
                0 <= k <= self.payments@.len(),
                total == sum_payment(self.payments@.take(k as int)),
                -(k * AMOUNT_LIMIT) <= total <= k * AMOUNT_LIMIT,
            decreases self.payments@.len() - k,
        {
            proof {
                assert(self.payments@.take(k + 1).drop_last() =~= self.payments@.take(k as int));
                assert(self.payments@.take(k + 1).last() == self.payments@[k as int]);
            }
            total = total + self.payments[k].payment;
            k = k + 1;
        }
        proof {
            assert(self.payments@.take(self.payments@.len() as int) =~= self.payments@);
        }
        total
    }
}

/// Splits a selector string into its whitespace-separated tokens.
fn tokenize(s: &str) -> (r: Vec<Vec<char>>)
    ensures
        views_of(r@) == ws_tokens(s@),
{
    let n: usize = s.unicode_len();
    let mut tokens: Vec<Vec<char>> = Vec::new();
    let mut cur: Vec<char> = Vec::new();
    let mut i: usize = 0;
    while i < n
        invariant
            n == s@.len(),
            0 <= i <= n,
            views_of(tokens@) == tok_state(s@, i as int).0,
            cur@ == tok_state(s@, i as int).1,
        decreases n - i,
    {
        let c: char = s.get_char(i);
        let ghost prev_tokens = tokens@;
        let ghost prev_cur = cur@;
        if c == ' ' || c == '\t' || c == '\n' || c == '\r' {
            if cur.len() > 0 {
                tokens.push(cur);
                cur = Vec::new();
                proof {
                    assert(views_of(tokens@) =~= views_of(prev_tokens).push(prev_cur));
                }
            }
        } else {
            cur.push(c);
        }
        proof {
            assert(is_ws_char(s@[i as int]) == (s@[i as int] == ' ' || s@[i as int] == '\t'
                || s@[i as int] == '\n' || s@[i as int] == '\r'));
        }
        i = i + 1;
    }
    if cur.len() > 0 {
        let ghost prev_tokens = tokens@;
        let ghost prev_cur = cur@;
        tokens.push(cur);
        proof {
            assert(views_of(tokens@) =~= views_of(prev_tokens).push(prev_cur));
        }
    }
    tokens
}

/// Whether a token spells out exactly the given keyword.
fn token_eq_str(tok: &Vec<char>, kw: &str) -> (b: bool)
    ensures
        b == (tok@ == kw@),
{
    let klen: usize = kw.unicode_len();
    if tok.len() != klen {
        proof {
            assert(tok@.len() != kw@.len());
        }
        return false;
    }
    let mut i: usize = 0;
    while i < klen
        invariant
            klen == kw@.len(),
            tok@.len() == klen,
            0 <= i <= klen,
            forall|j: int| 0 <= j < i ==> tok@[j] == kw@[j],
        decreases klen - i,
    {
        if tok[i] != kw.get_char(i) {
            return false;
        }
        i = i + 1;
    }
    proof {
        assert(tok@ =~= kw@);
    }
    true
}

/// Parses a token as a plain signed decimal number into its scaled
/// fixed-point value; reports `None` exactly when the token is not
/// such a number.
fn parse_decimal(t: &Vec<char>) -> (r: Option<i128>)
    ensures
        r is Some <==> is_decimal(t@),
        r is Some ==> r->Some_0 == decimal_value(t@),
{
    let n: usize = t.len();
    let mut idx: usize = 0;
    let mut negative: bool = false;
    if n > 0 {
        let c0: char = t[0];
        if c0 == '+' || c0 == '-' {
            negative = c0 == '-';
            idx = 1;
        }
    }
    let ghost u = unsigned_part(t@);
    let ghost off = idx as int;
    proof {
        assert(u =~= t@.skip(off));
        assert(negative <==> sign_of(t@) == -1);
    }
    let mut intval: i128 = 0;
    let mut intcount: usize = 0;
    while idx < n && t[idx] as u32 >= 48 && t[idx] as u32 <= 57
        invariant
            n == t@.len(),
            off == 0 || off == 1,
            off <= idx <= n,
            u == t@.skip(off),
            u == unsigned_part(t@),
            (negative <==> sign_of(t@) == -1),
            u.len() == n - off,
            intcount == idx - off,
            intcount <= 18,
            all_digits(u.take(intcount as int)),
            intval == digits_value(u.take(intcount as int)),
            0 <= intval < pow10(intcount as int),
        decreases n - idx,
    {
        proof {
            assert(u[intcount as int] == t@[idx as int]);
            assert(is_digit(u[intcount as int]));
        }
        if intcount == 18 {
            proof {
                assert forall|dd: int| !(#[trigger] decimal_split_ok(u, dd)) by {
                    if decimal_split_ok(u, dd) {
                        assert(dd <= 18);
                        assert(dd < u.len());
                        if dd < 18 {
                            assert(u.take(18)[dd] == u[dd]);
                            assert(is_digit(u[dd]));
                        } else {
                            assert(is_digit(u[dd]));
                        }
                        assert(u[dd] == '.');
                        assert(false);
                    }
                }
                assert(!is_decimal(t@));
            }
            return None;
        }
        let dv: i128 = (t[idx] as u32 - 48) as i128;
        proof {
            lemma_pow10_le(intcount as int, 18);
            lemma_pow10_values();
            assert(u.take(intcount + 1).drop_last() =~= u.take(intcount as int));
            assert(u.take(intcount + 1).last() == u[intcount as int]);
            assert(pow10(intcount + 1) == 10 * pow10(intcount as int));
        }
        intval = intval * 10 + dv;
        intcount = intcount + 1;
        idx = idx + 1;
    }
    if idx == n {
        if intcount == 0 {
            proof {
                assert(u.len() == 0);
                assert forall|dd: int| !(#[trigger] decimal_split_ok(u, dd)) by {}
                assert(!is_decimal(t@));
            }
            return None;
        }
        proof {
            assert(u.take(u.len() as int) =~= u);
            assert(decimal_split_ok(u, u.len() as int));
            lemma_decimal_split_unique(u, decimal_split(t@), u.len() as int);
            lemma_pow10_le(intcount as int, 18);
            lemma_pow10_values();
        }
        let v: i128 = intval * 1_000_000_000;
        if negative {
            return Some(-v);
        }
        return Some(v);
    }
    let cdot: char = t[idx];
    proof {
        assert(cdot == u[intcount as int]);
        assert(!is_digit(cdot));
    }
    if !(cdot == '.') {
        proof {
            assert forall|dd: int| !(#[trigger] decimal_split_ok(u, dd)) by {
                if decimal_split_ok(u, dd) {
                    if dd < intcount {
                        assert(u[dd] == '.');
                        assert(u.take(intcount as int)[dd] == u[dd]);
                        assert(is_digit(u[dd]));
                        assert(false);
                    } else if dd == intcount {
                        assert(dd < u.len());
                        assert(u[dd] == '.');
                        assert(false);
                    } else {
                        assert(u.take(dd)[intcount as int] == u[intcount as int]);
                        assert(is_digit(u[intcount as int]));
                        assert(false);
                    }
                }
            }
            assert(!is_decimal(t@));
        }
        return None;
    }
    let ghost dpos = intcount as int;
    idx = idx + 1;
    let mut fracval: i128 = 0;
    let mut fraccount: usize = 0;
    while idx < n && t[idx] as u32 >= 48 && t[idx] as u32 <= 57
        invariant
            n == t@.len(),
            off == 0 || off == 1,
            u == t@.skip(off),
            u == unsigned_part(t@),
            (negative <==> sign_of(t@) == -1),
            u.len() == n - off,
            dpos == intcount,
            intcount <= 18,
            dpos < u.len(),
            u[dpos] == '.',
            all_digits(u.take(dpos)),
            intval == digits_value(u.take(dpos)),
            0 <= intval < pow10(dpos),
            off + dpos + 1 <= idx <= n,
            fraccount == idx - off - dpos - 1,
            fraccount <= 9,
            all_digits(u.skip(dpos + 1).take(fraccount as int)),
            fracval == digits_value(u.skip(dpos + 1).take(fraccount as int)),
            0 <= fracval < pow10(fraccount as int),
        decreases n - idx,
    {
        proof {
            assert(u.skip(dpos + 1)[fraccount as int] == u[dpos + 1 + fraccount]);
            assert(u[dpos + 1 + fraccount] == t@[idx as int]);
            assert(is_digit(u.skip(dpos + 1)[fraccount as int]));
        }
        if fraccount == 9 {
            proof {
                assert forall|dd: int| !(#[trigger] decimal_split_ok(u, dd)) by {
                    if decimal_split_ok(u, dd) {
                        lemma_split_must_be_at(u, dpos, dd);
                        assert(u.len() - dpos - 1 >= 10);
                        assert(false);
                    }
                }
                assert(!is_decimal(t@));
            }
            return None;
        }
        let dv: i128 = (t[idx] as u32 - 48) as i128;
        proof {
            lemma_pow10_le(fraccount as int, 18);
            lemma_pow10_values();
            let f = u.skip(dpos + 1);
            assert(f.take(fraccount + 1).drop_last() =~= f.take(fraccount as int));
            assert(f.take(fraccount + 1).last() == f[fraccount as int]);
            assert(pow10(fraccount + 1) == 10 * pow10(fraccount as int));
        }
        fracval = fracval * 10 + dv;
        fraccount = fraccount + 1;
        idx = idx + 1;
    }
    if idx < n {
        proof {
            assert(u[idx - off] == t@[idx as int]);
            assert(!is_digit(u[idx - off]));
            assert(idx - off > dpos);
            assert forall|dd: int| !(#[trigger] decimal_split_ok(u, dd)) by {
                if decimal_split_ok(u, dd) {
                    if dd == dpos {
                        assert(u.skip(dpos + 1)[idx - off - dpos - 1] == u[idx - off]);
                        assert(is_digit(u[idx - off]));
                        assert(false);
                    } else if dd < dpos {
                        assert(u.take(dpos)[dd] == u[dd]);
                        assert(is_digit(u[dd]));
                        assert(u[dd] == '.');
                        assert(false);
                    } else {
                        assert(u.take(dd)[dpos] == u[dpos]);
                        assert(is_digit(u[dpos]));
                        assert(false);
                    }
                }
            }
            assert(!is_decimal(t@));
        }
        return None;
    }
    if intcount == 0 && fraccount == 0 {
        proof {
            assert(u.len() - dpos - 1 == 0);
            assert forall|dd: int| !(#[trigger] decimal_split_ok(u, dd)) by {
                if decimal_split_ok(u, dd) {
                    lemma_split_must_be_at(u, dpos, dd);
                    assert(1 <= dpos || 1 <= u.len() - dpos - 1);
                    assert(false);
                }
            }
            assert(!is_decimal(t@));
        }
        return None;
    }
    proof {
        assert(u.skip(dpos + 1).take(fraccount as int) =~= u.skip(dpos + 1));
        assert(decimal_split_ok(u, dpos));
        lemma_decimal_split_unique(u, decimal_split(t@), dpos);
        lemma_pow10_le(dpos, 18);
        lemma_pow10_le(fraccount as int, 9);
        lemma_pow10_le(9 - fraccount, 9);
        lemma_pow10_values();
        assert(fracval * pow10(9 - fraccount) < 1_000_000_000_000_000_000) by (nonlinear_arith)
            requires
                0 <= fracval < pow10(fraccount as int),
                1 <= pow10(9 - fraccount) <= 1_000_000_000,
                pow10(fraccount as int) <= 1_000_000_000,
        ;
        assert(0 <= fracval * pow10(9 - fraccount)) by (nonlinear_arith)
            requires
                0 <= fracval,
                1 <= pow10(9 - fraccount),
        ;
    }
    let mult: i128 = pow10_exec(9 - fraccount);
    let v: i128 = intval * 1_000_000_000 + fracval * mult;
    if negative {
        return Some(-v);
    }
    Some(v)
}

/// The scheme a token list selects: one token for a fixed scheme,
/// under its machine name or its Dutch label; for the variable-linear
/// scheme a second token carrying the first payment as a decimal
/// number. Anything else is an error, and a malformed number under a
/// recognized variable-linear head is its own error.
pub open spec fn scheme_of_tokens(toks: Seq<Seq<char>>) -> Result<PaymentScheme, ParseSchemeError> {
    if toks.len() == 1 && (toks[0] == "FixedCapital"@ || toks[0] == "VasteKapitaalaflossing"@) {
        Ok(PaymentScheme::FixedCapital)
    } else if toks.len() == 1 && (toks[0] == "FixedMensualities"@ || toks[0]
        == "VasteMensualiteiten"@) {
        Ok(PaymentScheme::FixedMensualities)
    } else if toks.len() == 2 && (toks[0] == "VariableLinearCapital"@ || toks[0]
        == "VariabeleLineaireKapitaalaflossing"@) {
        if is_decimal(toks[1]) {
            Ok(PaymentScheme::VariableLinearCapital(decimal_value(toks[1]) as i128))
        } else {
            Err(ParseSchemeError::InvalidInitialPayment)
        }
    } else {
        Err(ParseSchemeError::InvalidInput)
    }
}

impl PaymentScheme {
    /// Parses a scheme selector: the scheme's tokens, separated by
    /// whitespace, exactly as `scheme_of_tokens` reads them.
    pub fn from_str(s: &str) -> (r: Result<PaymentScheme, ParseSchemeError>)
        ensures
            r == scheme_of_tokens(ws_tokens(s@)),
    {
        let toks: Vec<Vec<char>> = tokenize(s);
        proof {
            assert(views_of(toks@).len() == toks@.len());
            if toks@.len() > 0 {
                assert(views_of(toks@)[0] == toks@[0]@);
            }
            if toks@.len() > 1 {
                assert(views_of(toks@)[1] == toks@[1]@);
            }
        }
        if toks.len() == 1 {
            if token_eq_str(&toks[0], "FixedCapital") || token_eq_str(
                &toks[0],
                "VasteKapitaalaflossing",
            ) {
                Ok(PaymentScheme::FixedCapital)
            } else if token_eq_str(&toks[0], "FixedMensualities") || token_eq_str(
                &toks[0],
                "VasteMensualiteiten",
            ) {
                Ok(PaymentScheme::FixedMensualities)
            } else {
                Err(ParseSchemeError::InvalidInput)
            }
        } else if toks.len() == 2 {
            if token_eq_str(&toks[0], "VariableLinearCapital") || token_eq_str(
                &toks[0],
                "VariabeleLineaireKapitaalaflossing",
            ) {
                match parse_decimal(&toks[1]) {
                    Some(v) => Ok(PaymentScheme::VariableLinearCapital(v)),
                    None => Err(ParseSchemeError::InvalidInitialPayment),
                }
            } else {
                Err(ParseSchemeError::InvalidInput)
            }
        } else {
            Err(ParseSchemeError::InvalidInput)
        }
    }
}

/// A schedule whose principal portions all equal `c` has their sum
/// equal to `c` times the row count.
proof fn lemma_sum_capital_const(rows: Seq<MonthlyPayment>, c: int)
    requires
        forall|k: int| 0 <= k < rows.len() ==> (#[trigger] rows[k]).capital == c,
    ensures
        sum_capital(rows) == rows.len() * c,
    decreases rows.len(),
{
    if rows.len() == 0 {
    } else {
        lemma_sum_capital_const(rows.drop_last(), c);
        assert(rows.len() * c == (rows.len() - 1) * c + c) by {
            lemma_mul_is_distributive_sub_other_way(c, rows.len() as int, 1);
            lemma_mul_basics_4(c);
        }
    }
}

} // verus!
