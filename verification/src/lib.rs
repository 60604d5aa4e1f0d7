//! Layout of basic blocks: recovers the control-flow graph of machine code and
//! orders its blocks so that control transfers stay short.

pub mod vertex;
pub mod members;
pub mod block;
pub mod graph;
pub mod digraph;
pub mod paths;
pub mod links;
pub mod edges;
pub mod phantoms;
pub mod weights;
pub mod vag;
pub mod schedule;
pub mod kahn;
pub mod scc;
pub mod condense;
pub mod splice;
pub mod order;
pub mod cost;
pub mod validate;
pub mod bbsort;
pub mod binary;
pub mod cfg;
pub mod convert;

pub use crate::bbsort::{cfg_cost, cfg_sort, SortError};
