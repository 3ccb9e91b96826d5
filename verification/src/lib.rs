//! Dead-code elimination for WebAssembly modules.
//!
//! The pass computes a reachability closure over a module's five index
//! spaces (types, functions, tables, memories, globals) starting from a
//! root set (non-blacklisted exports, the start function, data and element
//! segments, module-defined tables and imported memories), then renumbers
//! every surviving index so the output module is consistent.

use vstd::prelude::*;

pub mod blacklist;
pub mod gc;
pub mod laws;
pub mod module;
pub mod reach;
pub mod names;
pub mod remap;
pub mod util;

verus! {

/// Options recognized by the pass.
pub struct Config {
    /// When true, function names in the `name` section are replaced by
    /// their demangled form.
    pub demangle: bool,
}

} // verus!
