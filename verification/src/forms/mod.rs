//! Form handling: url-encoded forms, streamed `multipart/form-data` parsing and its helpers.
pub mod form;
pub mod form_data;
pub mod form_field;
pub mod one_or_many;
pub mod stream_reader;
