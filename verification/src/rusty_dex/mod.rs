//! A whole DEX image decoded into its tables.

pub mod agreement;
pub mod annotations;
pub mod class_data;
pub mod classes;
pub mod code_item;
pub mod error;
pub mod fields;
pub mod file;
pub mod header;
pub mod methods;
pub mod mutf8;
pub mod names;
pub mod protos;
pub mod reader;
pub mod strings;
pub mod types;

pub use names::{get_bytecode_for_method, get_qualified_method_names, parse};
