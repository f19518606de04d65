//! The horde simulation's integer bookkeeping.

pub mod spatial;
pub mod tick;
