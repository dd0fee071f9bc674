//! An e-graph library: a union-find over e-class ids, e-nodes with
//! canonical arguments, pattern rewriting and cost-based extraction.

pub mod id;
pub mod unionfind;
pub mod enode;
pub mod maps;
pub mod eclass;
pub mod egraph;
pub mod pattern;
pub mod util;
pub mod sexp;
pub mod terms;
pub mod test;

pub use id::Id;
pub use unionfind::UnionFind;
pub use enode::Enode;
pub use eclass::EClass;
pub use egraph::EGraph;
pub use sexp::Sexp;
pub use pattern::{Pattern, Rule};
