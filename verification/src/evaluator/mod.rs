pub mod compare;
pub mod diff;
pub mod laws;

pub use compare::evaluate;
pub use compare::Evaluation;
pub use diff::compare_endpoints;
