//! Str2table core library: a selector mini-language for addressing table
//! lines and columns, and a cell value inference engine that types raw
//! text fragments as integers, floats or strings.

pub mod error;
pub mod setting;
pub mod table;
pub mod tablecell;
pub mod tablecellcore;
pub mod tableline;
pub mod text;
