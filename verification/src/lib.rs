//! Layered internet-connectivity diagnosis: the decisions, formats and parsers
//! behind the `check-inet` tool, with their contracts proved by Verus.
#![allow(unused_imports)]

pub mod addr;
pub mod check;
pub mod checks;
pub mod diag;
pub mod dns;
pub mod gateway;
pub mod laws;
pub mod net;
pub mod run;
pub mod target;
pub mod text;
