//! A small verified computational demo service.
//!
//! The heart of the crate is the sorting service under [`sort`]: given a
//! bounded list of integers and a chosen algorithm, it returns the sorted
//! list together with an ordered trace of the algorithm's intermediate
//! steps, suitable for rendering an animation of how the sort progressed.
//! A companion [`fizzbuzz`] service demonstrates the same request and
//! response shape on a simpler bounded computation, and [`decimal`] holds
//! the verified integer rendering both lean on.

pub mod decimal;
pub mod fizzbuzz;
pub mod sort;
