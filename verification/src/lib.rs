//! Verified core of a photo culling and import tool: file-name templates,
//! embedded-preview extraction, EXIF interpretation, duplicate grouping and
//! the decisions taken around device and file I/O.

pub mod text;
pub mod jpeg;
pub mod analyzer;
pub mod exif;
pub mod scanner;
pub mod digest;
pub mod importer;
pub mod images;
pub mod drives;
pub mod db;
