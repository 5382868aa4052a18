//! A personal bookmark library: bookmarks with titles, unique urls and
//! free-form tags, held in a three-table store with keyword and tag search,
//! a bookmark-file import scan, and print formatting.

pub mod bookmark;
pub mod chain;
pub mod confirm;
pub mod database;
pub mod import;
pub mod laws;
pub mod model;
pub mod text;
