//! The core of an application framework: the ordered start-up pipeline
//! that composes hooks and initializers into one router, and the bridge
//! that carries structured validation failures through a channel that
//! holds nothing but text.
pub use self::errors::Error;
pub use validator;

pub mod app;
pub mod bridge;
pub mod errors;
pub mod fields;
pub mod pipeline;
pub mod prelude;
pub mod router;
pub mod text;
pub mod validation;
pub mod wire;
