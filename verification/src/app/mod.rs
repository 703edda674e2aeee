//! A server application: routes with handlers per method, fallbacks and nested scopes.
pub mod application;
pub mod method;
pub mod pre_render;
pub mod routing;
pub mod scope;

pub use application::{App, Dispatch};
pub use scope::{Match, Scope};
