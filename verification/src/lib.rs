//! Trading-engine building blocks with machine-checked contracts: integer
//! price and quantity units, an L2 order book, an order-state reducer, parent
//! execution accounting, an average-cost ledger, hard risk checks, a
//! deterministic replay queue, a simulated venue and a fixed-point decimal
//! parser.

pub mod arith;
pub mod checksum;
pub mod domain;
pub mod text;
pub mod render;
pub mod oms;
pub mod rational;
pub mod ledger;
pub mod order_book;
pub mod venue_fixture;
pub mod risk;
pub mod execution;
pub mod replay;
pub mod simulator;
