//! Discounted-cash-flow valuation: net present value and internal rate of
//! return over a schedule of dated, exact-decimal cash amounts.
pub mod decimal;
pub mod engine;
pub mod money;
