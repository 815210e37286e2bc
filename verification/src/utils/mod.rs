pub mod error;
pub mod runtime;
pub mod text;

pub use error::Error;
pub use runtime::sort_by_runtime;
