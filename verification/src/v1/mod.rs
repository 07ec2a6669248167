//! The first storage engine: tables and indexes in memory, one transaction at a time, and a
//! directory of files that holds the last committed state.

pub mod accepted_rows;
pub mod files;
pub mod indexes;
pub mod laws;
pub mod model;
pub mod schemas;
pub mod search_laws;
pub mod searches;
pub mod sessions;
pub mod state;
pub mod storage;
pub mod table_laws;
