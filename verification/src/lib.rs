//! A connect-four engine: a compact board representation, win detection,
//! bounded adversarial search, and a heuristic move selector.

pub mod ai;
pub mod board;
