use vstd::prelude::*;

pub mod encoding;
pub mod felt;
pub mod felt_conv;
pub mod function_text;
pub mod arith;
pub mod builders;
pub mod cfg;
pub mod branch_regions;
pub mod cfg_to_scf;
pub mod component_init;
pub mod dispatch;
pub mod intrinsics;
pub mod ir;
pub mod layout;
pub mod miden_abi;
pub mod ops;
pub mod pass;
pub mod print;
pub mod reduce_loop;

pub mod repr;
pub mod spills;
pub mod repr_laws;
pub mod test_attrs;
pub mod variables;
pub mod wasm_config;

verus! {
} // verus!
