//! Server dependency bundles for V8 module loading.
use vstd::prelude::*;

verus! {

/// A pre-bundled dependency ESM module ready to load into V8.
pub struct DepEsmModule {
    /// The specifier user code imports from (e.g. `react`).
    pub specifier: String,
    /// Self-contained ESM source.
    pub source: String,
}

/// Result of server dependency pre-bundling.
pub struct ServerDepBundles {
    /// Polyfills and the server dependency script, evaluated before any module.
    pub polyfills: String,
    /// ESM wrapper modules, one per dependency specifier.
    pub modules: Vec<DepEsmModule>,
}

} // verus!
