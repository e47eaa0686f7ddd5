//! Presentation drivers around the search engine.

pub mod console;
