//! APK container layer: which entries are walked, and what is answered from them.

pub mod agreement;
pub mod classes;
pub mod entries;
pub mod lookup;
pub mod plans;
pub mod probe;
pub mod references;
pub mod strings;
