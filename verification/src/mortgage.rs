//! The loan definition: principal, term, and per-period yearly rates.

use vstd::prelude::*;
use crate::fixedpoint::{
    SCALE, MAX_PRINCIPAL, MAX_PERIODS, fxpow, fx_pow,
    lemma_fxpow_scale, lemma_fxpow_ge_base, lemma_fxpow_mono_base,
};

verus! {

/// Why a loan definition was rejected.
#[derive(Debug, PartialEq, Eq, Structural, Clone, Copy)]
pub enum MortgageError {
    /// The principal is not positive, or too large to represent.
    InvalidPrincipal,
    /// The number of periods is not positive, or longer than the
    /// engine supports.
    InvalidTerm,
    /// The rate sequence does not have one entry per period.
    RateCountMismatch,
    /// A yearly rate is negative or above 1.0 (one hundred percent).
    RateOutOfRange,
}

/// A loan: an amount borrowed, a number of monthly periods, and the
/// nominal yearly interest rate in effect for each period. All three
/// are fixed once constructed.
#[derive(Debug)]
pub struct Mortgage {
    /// Amount borrowed, scaled by `SCALE`.
    pub principal: i128,
    /// Total number of monthly periods.
    pub nperiods: i64,
    /// Nominal yearly rate per period, scaled by `SCALE`; one entry
    /// per period.
    pub year_interest_rate: Vec<i128>,
}

/// `m` is the monthly-equivalent of the yearly rate `r`: compounding
/// `1 + m` twelve times reaches `1 + r`, while one more billionth on
/// `m` would pass it. At most one `m` satisfies this.
pub open spec fn is_monthly_equiv(r: int, m: int) -> bool {
    &&& 0 <= m <= r
    &&& fxpow(SCALE + m, 12) <= SCALE + r
    &&& SCALE + r < fxpow(SCALE + m + 1, 12)
}

/// The monthly-equivalent rate of the yearly rate `r`.
pub open spec fn monthly_rate(r: int) -> int {
    choose|m: int| is_monthly_equiv(r, m)
}

/// At most one rate satisfies the monthly-equivalence bracket.
pub proof fn lemma_monthly_equiv_unique(r: int, m1: int, m2: int)
    requires
        is_monthly_equiv(r, m1),
        is_monthly_equiv(r, m2),
    ensures
        m1 == m2,
{
    if m1 < m2 {
        lemma_fxpow_mono_base(SCALE + m1 + 1, SCALE + m2, 12);
    }
    if m2 < m1 {
        lemma_fxpow_mono_base(SCALE + m2 + 1, SCALE + m1, 12);
    }
}

/// Any witness of the bracket is `monthly_rate(r)` itself.
pub proof fn lemma_monthly_rate_is(r: int, m: int)
    requires
        is_monthly_equiv(r, m),
    ensures
        monthly_rate(r) == m,
{
    assert(is_monthly_equiv(r, monthly_rate(r))) by {
        assert(exists|x: int| is_monthly_equiv(r, x));
    }
    lemma_monthly_equiv_unique(r, monthly_rate(r), m);
}

/// Law: the monthly-equivalent conversion is monotonic. A yearly rate
/// no larger than another converts to a monthly rate no larger than
/// the other's.
pub proof fn lemma_monthly_rate_monotonic(r1: int, m1: int, r2: int, m2: int)
    requires
        is_monthly_equiv(r1, m1),
        is_monthly_equiv(r2, m2),
        r1 <= r2,
    ensures
        m1 <= m2,
{
    if m2 < m1 {
        lemma_fxpow_mono_base(SCALE + m2 + 1, SCALE + m1, 12);
    }
}

/// The monthly-equivalent of the yearly rate `yearly_i`: the exact
/// fixed-point rate `m` with `(1 + m)^12 <= 1 + yearly_i < (1 + m + e)^12`,
/// where `e` is one billionth.
pub fn year_to_monthly_interest(yearly_i: i128) -> (r: i128)
    requires
        0 <= yearly_i <= SCALE,
    ensures
        is_monthly_equiv(yearly_i as int, r as int),
        r == monthly_rate(yearly_i as int),
        0 <= r <= yearly_i,
{
    let mut lo: i128 = 0;
    let mut hi: i128 = yearly_i;
    proof {
        lemma_fxpow_scale(12);
        lemma_fxpow_ge_base(SCALE + yearly_i + 1, 12);
    }
    while lo < hi
        invariant
            0 <= lo <= hi <= yearly_i <= SCALE,
            fxpow(SCALE + lo, 12) <= SCALE + yearly_i,
            SCALE + yearly_i < fxpow(SCALE + hi + 1, 12),
        decreases hi - lo,
    {
        let step: i128 = (hi - lo + 1) / 2;
        proof {
            assert(1 <= step <= hi - lo) by (nonlinear_arith)
                requires
                    step == (hi - lo + 1) / 2,
                    1 <= hi - lo,
            ;
        }
        let mid: i128 = lo + step;
        match fx_pow(SCALE + mid, 12) {
            Some(v) => {
                if v <= SCALE + yearly_i {
                    lo = mid;
                } else {
                    hi = mid - 1;
                }
            },
            None => {
                hi = mid - 1;
            },
        }
    }
    proof {
        lemma_monthly_rate_is(yearly_i as int, lo as int);
    }
    lo
}

impl Mortgage {
    /// The loan is within the representable range: positive principal
    /// of at most `MAX_PRINCIPAL`, a term of 1 to `MAX_PERIODS`
    /// months, and one yearly rate in `[0, SCALE]` per period.
    pub open spec fn wf(&self) -> bool {
        &&& 0 < self.principal <= MAX_PRINCIPAL
        &&& 1 <= self.nperiods <= MAX_PERIODS
        &&& self.year_interest_rate@.len() == self.nperiods
        &&& forall|i: int|
            0 <= i < self.year_interest_rate@.len() ==> 0 <= #[trigger] self.year_interest_rate@[i]
                <= SCALE
    }

    /// Validates the inputs and builds the loan. Each rejection names
    /// the first field, in the order principal, term, rate count,
    /// rate range, that falls outside the representable range.
    pub fn new(principal: i128, nperiods: i64, year_interest_rate: Vec<i128>) -> (r: Result<
        Self,
        MortgageError,
    >)
        ensures
            r == Err::<Self, MortgageError>(MortgageError::InvalidPrincipal) <==> !(0 < principal
                <= MAX_PRINCIPAL),
            r == Err::<Self, MortgageError>(MortgageError::InvalidTerm) <==> (0 < principal
                <= MAX_PRINCIPAL) && !(1 <= nperiods <= MAX_PERIODS),
            r == Err::<Self, MortgageError>(MortgageError::RateCountMismatch) <==> (0 < principal
                <= MAX_PRINCIPAL) && (1 <= nperiods <= MAX_PERIODS) && year_interest_rate@.len()
                != nperiods,
            r == Err::<Self, MortgageError>(MortgageError::RateOutOfRange) <==> (0 < principal
                <= MAX_PRINCIPAL) && (1 <= nperiods <= MAX_PERIODS) && year_interest_rate@.len()
                == nperiods && (exists|i: int|
                0 <= i < year_interest_rate@.len() && !(0 <= #[trigger] year_interest_rate@[i]
                    <= SCALE)),
            r is Ok ==> {
                let m = r->Ok_0;
                &&& m.principal == principal
                &&& m.nperiods == nperiods
                &&& m.year_interest_rate@ == year_interest_rate@
                &&& m.wf()
            },
    {
        if !(principal > 0 && principal <= MAX_PRINCIPAL) {
            return Err(MortgageError::InvalidPrincipal);
        }
        if !(nperiods >= 1 && nperiods <= MAX_PERIODS) {
            return Err(MortgageError::InvalidTerm);
        }
        if year_interest_rate.len() != nperiods as usize {
            return Err(MortgageError::RateCountMismatch);
        }
        let mut i: usize = 0;
        while i < year_interest_rate.len()
            invariant
                0 < principal <= MAX_PRINCIPAL,
                1 <= nperiods <= MAX_PERIODS,
                year_interest_rate@.len() == nperiods,
                0 <= i <= year_interest_rate@.len(),
                forall|j: int|
                    0 <= j < i ==> 0 <= #[trigger] year_interest_rate@[j] <= SCALE,
            decreases year_interest_rate@.len() - i,
        {
            let rate: i128 = year_interest_rate[i];
            if !(rate >= 0 && rate <= SCALE) {
                return Err(MortgageError::RateOutOfRange);
            }
            i = i + 1;
        }
        Ok(Mortgage { principal, nperiods, year_interest_rate })
    }

    /// The amount borrowed, scaled by `SCALE`.
    pub fn principal(&self) -> (r: i128)
        ensures
            r == self.principal,
    {
        self.principal
    }

    /// The total number of monthly periods.
    pub fn nperiods(&self) -> (r: i64)
        ensures
            r == self.nperiods,
    {
        self.nperiods
    }

    /// The yearly rate in effect for each period.
    pub fn yearly_interest_rate(&self) -> (r: &Vec<i128>)
        ensures
            r@ == self.year_interest_rate@,
    {
        &self.year_interest_rate
    }

    /// The monthly-equivalent rate for each period, derived from the
    /// yearly rates element-wise.
    pub fn monthly_interest_rate(&self) -> (r: Vec<i128>)
        requires
            self.wf(),
        ensures
            r@.len() == self.year_interest_rate@.len(),
            forall|i: int|
                0 <= i < r@.len() ==> {
                    &&& 0 <= #[trigger] r@[i] <= self.year_interest_rate@[i]
                    &&& is_monthly_equiv(self.year_interest_rate@[i] as int, r@[i] as int)
                    &&& r@[i] == monthly_rate(self.year_interest_rate@[i] as int)
                },
    {
        let mut out: Vec<i128> = Vec::new();
        let mut i: usize = 0;
        while i < self.year_interest_rate.len()
            invariant
                self.wf(),
                0 <= i <= self.year_interest_rate@.len(),
                out@.len() == i,
                forall|j: int|
                    0 <= j < i ==> {
                        &&& 0 <= #[trigger] out@[j] <= self.year_interest_rate@[j]
                        &&& is_monthly_equiv(self.year_interest_rate@[j] as int, out@[j] as int)
                        &&& out@[j] == monthly_rate(self.year_interest_rate@[j] as int)
                    },
            decreases self.year_interest_rate@.len() - i,
        {
            let m: i128 = year_to_monthly_interest(self.year_interest_rate[i]);
            out.push(m);
            i = i + 1;
        }
        out
    }
}

} // verus!
