//! Core logic of `bins`, a command-line client for paste services.

pub mod text;
pub mod error;
pub mod paste_url;
pub mod maps;
pub mod index;
pub mod engines;
pub mod configuration;
