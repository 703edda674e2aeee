//! JSON support: insertion-ordered maps, reading JSON values and writing them as text.
pub mod de;
pub mod formatter;
pub mod map;
pub mod ser;
