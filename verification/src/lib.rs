//! Passive limit-order fill simulation: queue-position accounting for a
//! resting order, fixed-point parsing of exchange feed rows, and the
//! decisions of the chronological replay.

pub mod order;
pub mod parser;
pub mod sim;
pub mod text;
