pub mod endpoint;
pub mod grouping;
pub mod misc;

pub use endpoint::EndpointConfiguration;
pub use endpoint::OpenapiPath;
pub use endpoint::OpenapiPathComponent;
pub use grouping::Grouping;
pub use misc::Method;
