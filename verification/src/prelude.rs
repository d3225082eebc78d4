//! What an application that builds on this core most often names.
pub use crate::app::{shutdown, start, AppContext, Hooks, Initializer, Started};
pub use crate::bridge::{decode, encode};
pub use crate::errors::Error;
pub use crate::fields::{FieldMessages, StructuredErrors};
pub use crate::router::{AppRoutes, Router};
pub use crate::validation::{
    self, ModelValidationErrors, ModelValidationMessage, Validatable, Validator,
};
