//! Versioned platform ABI metadata.
//!
//! Platform symbols are immutable facts obtained from class files. They
//! constrain type and source recovery but never infer control-flow meaning. No database of them
//! is linked, so the default set is empty.
use crate::error::Error;
use std::sync::Arc;
use vstd::prelude::*;

verus! {

/// A class that a platform is known to have.
#[derive(Debug)]
pub struct PlatformClass {
    pub descriptor: String,
}

/// The classes of one platform target.
#[derive(Debug)]
pub struct PlatformSymbolSet {
    pub classes: Vec<PlatformClass>,
}

impl PlatformSymbolSet {
    /// The set of a platform nothing is known of.
    pub fn empty() -> (set: Self)
        ensures
            set.classes@.len() == 0,
    {
        PlatformSymbolSet { classes: Vec::new() }
    }
}

/// Returns the process-wide target-selected platform ABI.
///
/// Always empty: no embedded database is linked.
pub fn default_platform_symbols() -> (set: Result<Arc<PlatformSymbolSet>, Error>)
    ensures
        set matches Ok(set) && set.classes@.len() == 0,
{
    Ok(Arc::new(PlatformSymbolSet::empty()))
}

} // verus!
