//! A verified transaction execution engine: it folds an ordered stream of
//! deposits, withdrawals, disputes, resolutions and chargebacks into final
//! per-account balances, under strict validity rules.
//!
//! Amounts are fixed-point decimals with four fractional digits, carried as
//! signed counts of ten-thousandths. The engine's behaviour is specified by
//! the transition function [`model::step`]; [`engine::Engine::execute`] is
//! proved to follow it exactly, and [`laws`] states the accounting laws that
//! follow: every account keeps `total == available + held`, deposits and
//! withdrawals move exactly their amount, a dispute resolved is a dispute
//! undone, and a chargeback locks the account for good.

pub mod client;
pub mod engine;
pub mod laws;
pub mod model;
pub mod transaction;
