//! HTTP/1.1 building blocks: URIs, status codes, responses, streaming form parsing and HTML.
use vstd::prelude::*;

pub mod response;
pub mod rng;
pub mod server;
pub mod status;
pub mod text;
pub mod version;
pub mod app;
pub mod client_ip;
pub mod cookies;
pub mod error_response;
pub mod forms;
pub mod header;
pub mod headers;
pub mod html;
pub mod json;
pub mod uri;

verus! {
} // verus!
