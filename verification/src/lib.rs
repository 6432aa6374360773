//! Best-effort extraction of a corrected JSON or XML document from the
//! free-form reply of a language-model inference service, together with the
//! prompt construction that asks the service for the correction.
//!
//! All text is carried as UTF-8 bytes (`Vec<u8>`), so every transformation is
//! specified exactly over `Seq<u8>`.

pub mod laws;
pub mod models;
pub mod prompt;
pub mod stages;
pub mod text;
