//! A primal-dual approximation solver for the budgeted allocation problem:
//! agents with budgets bid on indivisible items, and the solver computes an
//! allocation that approximates the maximum total accepted bid value while
//! every agent's spend stays within its budget.
//!
//! All value arithmetic is exact: bids and budgets are 32-bit integers,
//! aggregates are 64-bit, and the dual variables (the per-agent discount
//! `alpha`, the accuracy parameter `epsilon`) are fixed-point numbers with
//! denominator `primal_dual::SCALE`. The feasibility tests, which the
//! primal-dual analysis states over real numbers, are carried out as
//! division-free integer comparisons, so every contract in this crate is
//! exact.

pub mod assignment;
pub mod price_ledger;
pub mod primal_dual;
