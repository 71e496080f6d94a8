pub mod codec;
pub mod error;
pub mod estimator;
pub mod features;
pub mod histogram;
pub mod model;

pub use error::Error;
pub use estimator::{FeeModel, ModelChoice};
