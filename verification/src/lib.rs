//! Readiness-probe logic: numeric target parsing, configuration validation,
//! probe aggregation and exit-code selection.

pub mod exit;
pub mod text;
pub mod addr;
pub mod check;
pub mod config;
pub mod cli;
pub mod run;
