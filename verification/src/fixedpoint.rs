//! Fixed-point arithmetic for amounts and rates.
//!
//! Every amount of money and every interest rate in this crate is an
//! integer counted in billionths: the value `x` stands for the real
//! number `x / SCALE`. Multiplication and division of such values
//! rescale their result and round it toward zero.

use vstd::prelude::*;
use vstd::arithmetic::div_mod::*;
use vstd::arithmetic::mul::*;

verus! {

/// One unit (1.0) in the fixed-point encoding: a billion billionths.
pub const SCALE: i128 = 1_000_000_000;

/// Largest principal (scaled) that a loan may carry: one billion units.
pub const MAX_PRINCIPAL: i128 = 1_000_000_000_000_000_000;

/// Largest number of monthly periods a loan may run: a hundred years.
pub const MAX_PERIODS: i64 = 1200;

/// Largest compound factor the engine computes before reporting
/// that a schedule leaves the representable range.
pub const POW_LIMIT: i128 = 1_000_000_000_000_000_000;

/// Bound on every amount that a schedule row may hold.
pub const AMOUNT_LIMIT: i128 = 10_000_000_000_000_000_000_000_000_000;

/// Quotient of `a` by `b`, rounded toward zero, as `/` rounds on `i128`.
/// Meaningful only for `b >= 1`.
pub open spec fn div_trunc(a: int, b: int) -> int {
    if a >= 0 {
        a / b
    } else {
        -((-a) / b)
    }
}

/// Fixed-point product: the scaled encoding of `(a / SCALE) * (b / SCALE)`.
pub open spec fn fxmul(a: int, b: int) -> int {
    div_trunc(a * b, SCALE as int)
}

/// Fixed-point quotient: the scaled encoding of `(a / SCALE) / (b / SCALE)`.
pub open spec fn fxdiv(a: int, b: int) -> int {
    div_trunc(a * SCALE, b)
}

/// Fixed-point power: `base` (scaled) multiplied into 1.0 `n` times.
pub open spec fn fxpow(base: int, n: nat) -> int
    decreases n,
{
    if n == 0 {
        SCALE as int
    } else {
        fxmul(fxpow(base, (n - 1) as nat), base)
    }
}

/// Rounding toward zero never grows the magnitude of the quotient:
/// `div_trunc(a, b)` lies between 0 and `a`.
pub proof fn lemma_div_trunc_mag(a: int, b: int)
    requires
        1 <= b,
    ensures
        a >= 0 ==> 0 <= div_trunc(a, b) <= a,
        a < 0 ==> a <= div_trunc(a, b) <= 0,
{
    if a >= 0 {
        lemma_div_pos_is_pos(a, b);
        lemma_div_nonincreasing(a, b);
    } else {
        lemma_div_pos_is_pos(-a, b);
        lemma_div_nonincreasing(-a, b);
    }
}

/// What truncating division leaves behind: `b * div_trunc(a, b)` falls
/// short of `a` by less than `b`, on the zero side of `a`.
pub proof fn lemma_div_trunc_rem(a: int, b: int)
    requires
        1 <= b,
    ensures
        a >= 0 ==> 0 <= a - b * div_trunc(a, b) < b,
        a < 0 ==> 0 <= b * div_trunc(a, b) - a < b,
{
    if a >= 0 {
        lemma_fundamental_div_mod(a, b);
        lemma_mod_division_less_than_divisor(a, b);
        assert(a - b * div_trunc(a, b) == a % b);
    } else {
        lemma_fundamental_div_mod(-a, b);
        lemma_mod_division_less_than_divisor(-a, b);
        assert(b * div_trunc(a, b) == -(b * ((-a) / b))) by {
            lemma_mul_unary_negation(b, (-a) / b);
        }
        assert(b * div_trunc(a, b) - a == (-a) % b);
    }
}

/// Negating one factor negates a fixed-point product.
pub proof fn lemma_fxmul_neg(a: int, b: int)
    ensures
        fxmul(a, -b) == -fxmul(a, b),
{
    assert(a * (-b) == -(a * b)) by {
        lemma_mul_unary_negation(a, b);
        lemma_mul_is_commutative(a, -b);
        lemma_mul_is_commutative(a, b);
    }
}

/// Scaling by a rate of at most 1.0 never grows a nonnegative amount.
pub proof fn lemma_fxmul_rate_le(rate: int, x: int)
    requires
        0 <= rate <= SCALE,
        0 <= x,
    ensures
        0 <= fxmul(rate, x) <= x,
        fxmul(rate, x) == fxmul(x, rate),
{
    lemma_mul_is_commutative(rate, x);
    lemma_mul_nonnegative(rate, x);
    assert(rate * x <= SCALE * x) by {
        lemma_mul_inequality(rate, SCALE as int, x);
        lemma_mul_is_commutative(SCALE as int, x);
        lemma_mul_is_commutative(rate, x);
    }
    lemma_div_is_ordered(rate * x, SCALE * x, SCALE as int);
    lemma_div_multiples_vanish(x, SCALE as int);
    lemma_div_pos_is_pos(rate * x, SCALE as int);
}

/// Scaling by a rate of at most 1.0 keeps an amount within any
/// symmetric bound that held before.
pub proof fn lemma_fxmul_rate_bounded(rate: int, x: int, cap: int)
    requires
        0 <= rate <= SCALE,
        -cap <= x <= cap,
    ensures
        -cap <= fxmul(rate, x) <= cap,
{
    if x >= 0 {
        lemma_fxmul_rate_le(rate, x);
    } else {
        lemma_fxmul_rate_le(rate, -x);
        lemma_fxmul_neg(rate, -x);
    }
}

/// A fixed-point product of nonnegative factors is nonnegative and,
/// rescaled, no more than the plain product.
pub proof fn lemma_fxmul_nonneg_bound(a: int, b: int)
    requires
        0 <= a,
        0 <= b,
    ensures
        0 <= fxmul(a, b),
        fxmul(a, b) * SCALE <= a * b,
{
    lemma_mul_nonnegative(a, b);
    lemma_div_pos_is_pos(a * b, SCALE as int);
    lemma_div_trunc_rem(a * b, SCALE as int);
    lemma_mul_is_commutative(SCALE as int, fxmul(a, b));
}

/// Raising 1.0 to any power gives 1.0 exactly.
pub proof fn lemma_fxpow_scale(n: nat)
    ensures
        fxpow(SCALE as int, n) == SCALE,
    decreases n,
{
    if n > 0 {
        lemma_fxpow_scale((n - 1) as nat);
        lemma_div_multiples_vanish(SCALE as int, SCALE as int);
    }
}

/// A fixed-point power of a nonnegative base is nonnegative.
pub proof fn lemma_fxpow_nonneg(base: int, n: nat)
    requires
        0 <= base,
    ensures
        0 <= fxpow(base, n),
    decreases n,
{
    if n > 0 {
        lemma_fxpow_nonneg(base, (n - 1) as nat);
        lemma_fxmul_nonneg_bound(fxpow(base, (n - 1) as nat), base);
    }
}

/// Multiplying a nonnegative amount by a base of at least 1.0 never
/// shrinks it.
pub proof fn lemma_fxmul_ge_self(a: int, base: int)
    requires
        0 <= a,
        SCALE <= base,
    ensures
        a <= fxmul(a, base),
{
    assert(a * SCALE <= a * base) by {
        lemma_mul_inequality(SCALE as int, base, a);
        lemma_mul_is_commutative(SCALE as int, a);
        lemma_mul_is_commutative(base, a);
    }
    lemma_div_is_ordered(a * SCALE, a * base, SCALE as int);
    lemma_div_by_multiple(a, SCALE as int);
    lemma_mul_nonnegative(a, base);
}

/// For a base of at least 1.0, fixed-point powers never decrease as
/// the exponent grows.
pub proof fn lemma_fxpow_mono_exp(base: int, m: nat, n: nat)
    requires
        SCALE <= base,
        m <= n,
    ensures
        fxpow(base, m) <= fxpow(base, n),
    decreases n,
{
    if m < n {
        lemma_fxpow_mono_exp(base, m, (n - 1) as nat);
        lemma_fxpow_nonneg(base, (n - 1) as nat);
        lemma_fxmul_ge_self(fxpow(base, (n - 1) as nat), base);
    }
}

/// One application of the base leaves 1.0 at exactly the base.
pub proof fn lemma_fxpow_one(base: int)
    ensures
        fxpow(base, 1) == base,
{
    assert(fxpow(base, 0) == SCALE);
    assert(fxpow(base, 1) == fxmul(SCALE as int, base));
    if base >= 0 {
        lemma_mul_nonnegative(SCALE as int, base);
        lemma_div_multiples_vanish(base, SCALE as int);
    } else {
        lemma_div_multiples_vanish(-base, SCALE as int);
        lemma_mul_unary_negation(SCALE as int, base);
        assert(-(SCALE * base) == SCALE * (-base));
    }
}

/// For exponents of at least one, a power is at least its base.
pub proof fn lemma_fxpow_ge_base(base: int, n: nat)
    requires
        SCALE <= base,
        1 <= n,
    ensures
        base <= fxpow(base, n),
{
    lemma_fxpow_one(base);
    lemma_fxpow_mono_exp(base, 1, n);
}

/// Fixed-point powers are monotonic in the base.
pub proof fn lemma_fxpow_mono_base(b1: int, b2: int, n: nat)
    requires
        0 <= b1 <= b2,
    ensures
        fxpow(b1, n) <= fxpow(b2, n),
    decreases n,
{
    if n > 0 {
        lemma_fxpow_mono_base(b1, b2, (n - 1) as nat);
        lemma_fxpow_nonneg(b1, (n - 1) as nat);
        lemma_fxpow_nonneg(b2, (n - 1) as nat);
        assert(fxpow(b1, (n - 1) as nat) * b1 <= fxpow(b2, (n - 1) as nat) * b2) by {
            lemma_mul_upper_bound(
                fxpow(b1, (n - 1) as nat),
                fxpow(b2, (n - 1) as nat),
                b1,
                b2,
            );
        }
        lemma_div_is_ordered(
            fxpow(b1, (n - 1) as nat) * b1,
            fxpow(b2, (n - 1) as nat) * b2,
            SCALE as int,
        );
        lemma_mul_nonnegative(fxpow(b1, (n - 1) as nat), b1);
    }
}

/// Fixed-point multiplication, rounding toward zero.
pub fn fx_mul(a: i128, b: i128) -> (r: i128)
    requires
        i128::MIN <= a * b <= i128::MAX,
    ensures
        r == fxmul(a as int, b as int),
{
    let prod: i128 = a.checked_mul(b).unwrap();
    proof {
        lemma_div_trunc_mag(prod as int, SCALE as int);
    }
    prod.checked_div(SCALE).unwrap()
}

/// Fixed-point division by a positive divisor, rounding toward zero.
pub fn fx_div(a: i128, b: i128) -> (r: i128)
    requires
        1 <= b,
        i128::MIN <= a * SCALE <= i128::MAX,
    ensures
        r == fxdiv(a as int, b as int),
{
    let num: i128 = a.checked_mul(SCALE).unwrap();
    proof {
        lemma_div_trunc_mag(num as int, b as int);
    }
    num.checked_div(b).unwrap()
}

/// Fixed-point power of a base between 1.0 and 3.0. Reports `None`
/// exactly when the result would pass `POW_LIMIT`.
pub fn fx_pow(base: i128, n: u64) -> (r: Option<i128>)
    requires
        SCALE <= base <= 3 * SCALE,
    ensures
        match r {
            Some(v) => v == fxpow(base as int, n as nat) && 0 <= v <= POW_LIMIT,
            None => fxpow(base as int, n as nat) > POW_LIMIT,
        },
{
    let mut acc: i128 = SCALE;
    let mut i: u64 = 0;
    while i < n
        invariant
            SCALE <= base <= 3 * SCALE,
            i <= n,
            acc == fxpow(base as int, i as nat),
            0 <= acc <= POW_LIMIT,
        decreases n - i,
    {
        proof {
            lemma_mul_upper_bound(acc as int, POW_LIMIT as int, base as int, 3 * SCALE as int);
            lemma_mul_nonnegative(acc as int, base as int);
        }
        let next: i128 = fx_mul(acc, base);
        proof {
            assert(next == fxpow(base as int, (i + 1) as nat));
        }
        if next > POW_LIMIT {
            proof {
                lemma_fxpow_mono_exp(base as int, (i + 1) as nat, n as nat);
            }
            return None;
        }
        proof {
            lemma_fxpow_nonneg(base as int, (i + 1) as nat);
        }
        acc = next;
        i = i + 1;
    }
    Some(acc)
}

} // verus!
