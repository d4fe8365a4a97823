//! Verified valuation of a crypto-currency portfolio: exact decimal
//! arithmetic, percent change, snapshot building, elapsed-time formatting,
//! and a canonical JSON codec for the persisted configuration.

pub mod clock;
pub mod codec;
pub mod decimal;
pub mod elapsed;
pub mod engine;
pub mod laws;
pub mod model;
pub mod percent;
pub mod snapshot;
