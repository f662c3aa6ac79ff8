//! Path reduction: collapsing long execution traces over an interprocedural
//! control-flow graph into short canonical representatives of the same shape.
//!
//! A per-function control-flow graph is compiled to a regular expression over
//! basic-block identifiers by GNFA state elimination; a concrete trace is then
//! parsed against the regex of its entry function, star iterations are bounded
//! by a constant `k`, and the bounded parse tree is flattened back into a path.
//! A streaming stack-based reducer offers the same service without the regex
//! detour. Reduced paths are fingerprinted with SHA-256.

pub mod convert;
pub mod extern_cfg;
pub mod file_format;
pub mod gen_cfg;
pub mod hash;
pub mod path_reduction;
pub mod re;
pub mod scc;
