//! Control-flow structuring: turning a control-flow graph back into
//! structured regions (sequences, conditionals, loops) and statements.
pub mod ast;
pub mod cfg;
pub mod region;
pub mod region_graph;
pub mod region_dominance;
pub mod reducer;
pub mod reduction;
pub mod flow_order;
pub mod patterns;
pub mod graph_store;
pub mod stmts;
pub mod lower;
