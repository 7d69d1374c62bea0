//! A control-flow and data-flow toolkit for a simple typed intermediate
//! representation: programs are named functions whose bodies are flat
//! sequences of labels and instructions. The resolver partitions each body
//! into basic blocks and builds an interprocedural control-flow graph with
//! call and return edges; local value numbering canonicalizes computed
//! expressions to eliminate redundant recomputation; dead-code elimination
//! iteratively strips definitions that are never read. A small side pass
//! collects the variables each function defines.

pub mod dce;
pub mod ir;
pub mod lvn;
pub mod mrange;
pub mod resolver;
pub mod varmap;
