//! Types and helpers that the storage engines share.

pub mod assoc;
pub mod bytes;
pub mod checks;
pub mod column_laws;
pub mod error;
pub mod json;
pub mod messages;
pub mod nested;
pub mod ordmap;
pub mod ordset;
pub mod schema;
pub mod text;
pub mod value;
