//! The configuration of building IR from WebAssembly.
use vstd::prelude::*;
use crate::ir::WorldRef;

verus! {

/// The configuration of building IR from WebAssembly.
#[derive(Clone, Debug)]
pub struct WasmTranslationConfig {
    /// The source file name: the fallback name of a module or component when the binary names
    /// none and no override is given.
    pub source_name: String,
    /// The name that overrides the module or component name, if any.
    pub override_name: Option<String>,
    /// The world in which to build components and modules, if any.
    pub world: Option<WorldRef>,
    /// Whether to generate native DWARF debug information.
    pub generate_native_debuginfo: bool,
    /// Whether to retain DWARF sections in compiled modules.
    pub parse_wasm_debuginfo: bool,
}

impl Default for WasmTranslationConfig {
    /// The default configuration: source name `noname`, no override, no world, no native
    /// debug information, and WebAssembly debug information parsed.
    fn default() -> (r: Self)
        ensures
            r.source_name@ == "noname"@,
            r.override_name is None,
            r.world is None,
            !r.generate_native_debuginfo,
            r.parse_wasm_debuginfo,
    {
        WasmTranslationConfig {
            source_name: "noname".to_owned(),
            override_name: None,
            world: None,
            generate_native_debuginfo: false,
            parse_wasm_debuginfo: true,
        }
    }
}

} // verus!
