//! Uniform resource identifiers.
pub mod authority;
pub mod convert;
pub mod path_query;
pub mod scheme;
pub mod uri;
