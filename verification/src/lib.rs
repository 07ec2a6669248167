//! Storage engines for a small SQL database: a page-based engine with transactions, a file
//! format that other programs read, and a plain in-memory engine that saves its state.

pub mod common;
pub mod sqlite3;
pub mod v1;
pub mod v2;
