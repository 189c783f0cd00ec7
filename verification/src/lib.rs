//! A single-instrument limit-order-book matching core with four
//! interchangeable book representations (dense array, structure-of-arrays,
//! ordered tree, and a hot/cold hybrid), together with a cycle-granularity
//! latency tracker. All representations satisfy one common operational
//! contract, stated over a shared abstract book model.
#![verifier::loop_isolation(false)]

pub mod book;
pub mod fixed_tick;
pub mod hybrid;
pub mod latency;
pub mod laws;
pub mod model;
pub mod order;
pub mod price;
pub mod quantity;
pub mod rdtsc;
pub mod soa;
pub mod tree;
