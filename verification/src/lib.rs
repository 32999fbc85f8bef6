//! Quaternion expressions: parsing, the Hamilton product and canonical formatting.

pub mod basis;
pub mod decimal;
pub mod error;
pub mod formatter;
pub mod parser;
pub mod product;
pub mod quaternion;
pub mod roundtrip;
pub mod text;
