pub mod format;
pub mod reader;
pub mod table;
pub mod types;
pub mod writer;
