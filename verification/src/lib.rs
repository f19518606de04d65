//! Deterministic game-state core of an RTS engine: scenario contract,
//! economy, production, selection, orders and static navigation.

pub mod rts;
pub mod scenario;
pub mod digest;
pub mod text;
pub mod runtime;
pub mod sim;
