//! Elementwise array arithmetic described as an expression tree of typed
//! operands and binary operation nodes, compiled bottom-up into a sequence of
//! device steps (uploads, dispatches, readbacks, releases).

pub mod device;
pub mod element;
pub mod eval;
pub mod laws;
pub mod operand;
pub mod plan;
mod sealed;
pub mod tree;

pub use element::{Element, ElementKind};
pub use operand::{Component, Identity, Registry, Stored};
pub use tree::{combine, Context, Depth, Error, Op, Operand, Shader};
pub use plan::{compile, is_well_formed, Step};
pub use eval::{apply_word, evaluate};
pub use device::adapter_outcome;
