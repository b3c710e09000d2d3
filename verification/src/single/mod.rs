//! Single-precision arithmetic on bit patterns, with every result stated over
//! the exact model in [`model`].
pub mod arith;
pub mod facts;
pub mod model;
pub mod order;
pub mod repr;
pub mod rounding;
pub mod whole;
