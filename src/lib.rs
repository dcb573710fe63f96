//! Daily price bars, the indicators derived from them, and the request
//! scheduling and reconciliation rules that keep a local store of bars current.

pub mod calc;
pub mod clock;
pub mod quote;
pub mod schedule;
pub mod stoch;
pub mod trend;
