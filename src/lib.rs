//! In-memory store of sampled time series: a bounded reservoir per series, a
//! read-optimised basin that it publishes into, and the run registry that
//! readers and the single writer share.

pub mod types;
pub mod reservoir;
pub mod commit;
pub mod test_data;
