//! A bounded pool of numbered presents is merged, one at a time, into a
//! single chain kept in ascending order, and drained from the chain's front
//! by symmetric servant threads that decide without a coordinator when all
//! work is done. A second, independent module computes a report statistic
//! over timed temperature readings.

pub mod presents;
pub mod temperature;
