//! Scale-limit analysis: estimates how far a function's workload exceeds a
//! nominal baseline from an annotated schema, a query and a response sample.

pub mod analyzer;
pub mod laws;
pub mod model;
pub mod opts;
pub mod selection;
