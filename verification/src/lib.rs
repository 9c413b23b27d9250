//! APK and DEX analysis.

pub mod apk;
pub mod bytes;
pub mod cli;
pub mod command;
pub mod dex;
pub mod error;
pub mod json;
pub mod order;
pub mod outline;
pub mod platform_symbols;
pub mod query;
pub mod rusty_dex;
pub mod search;
pub mod seqs;
pub mod skill;
pub mod text;
pub mod zip;
