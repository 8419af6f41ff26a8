//! Classical analyses of a program in intermediate representation:
//! control-flow graphs, dominator and post-dominator trees,
//! control-dependence graphs and call graphs, each computed on demand
//! and kept for later queries.

pub mod error;
pub mod graph;
pub mod ir;
pub mod control_flow_graph;
pub mod dominance;
pub mod dominator_tree;
pub mod control_dep_graph;
pub mod functions_by_type;
pub mod call_graph;
pub mod cache;
pub mod analysis;

pub use crate::analysis::Analysis;
pub use crate::call_graph::CallGraph;
pub use crate::control_dep_graph::ControlDependenceGraph;
pub use crate::control_flow_graph::{CFGNode, ControlFlowGraph};
pub use crate::dominator_tree::{DominatorTree, PostDominatorTree};
pub use crate::error::Error;
pub use crate::functions_by_type::FunctionsByType;
