//! The file format with records, pages, schemas and expressions.

pub mod arithmetic;
pub mod autoindex;
pub mod calendar;
pub mod calendar_laws;
pub mod date_format;
pub mod date_laws;
pub mod dates;
pub mod entries;
pub mod expr;
pub mod expression_laws;
pub mod functions;
pub mod growth;
pub mod index_expr;
pub mod json5;
pub mod json_functions;
pub mod json_laws;
pub mod json_values;
pub mod layout;
pub mod number_functions;
pub mod number_laws;
pub mod operator_laws;
pub mod page;
pub mod pager;
pub mod pagination;
pub mod pattern_laws;
pub mod patterns;
pub mod printf;
pub mod printf_laws;
pub mod quoting;
pub mod reading_laws;
pub mod reals;
pub mod record;
pub mod render;
pub mod render_schema;
pub mod round_trip;
pub mod schema;
pub mod schema_rows;
pub mod strings;
pub mod text_functions;
pub mod text_laws;
pub mod trees;
pub mod values;
pub mod varint;
pub mod writer;
