//! Amortization schedules for a mortgage.
//!
//! A loan is a principal, a number of monthly periods, and a yearly
//! interest rate for each period. The engine turns such a loan and a
//! repayment scheme into a month-by-month schedule of payments,
//! principal portions, interest portions and outstanding balances.
//!
//! All amounts and rates are fixed-point integers counted in
//! billionths (see [`fixedpoint`]), so every figure in a schedule is
//! an exact integer pinned down by the contracts.

pub mod fixedpoint;
pub mod mortgage;
pub mod paymentschemes;
