//! Two tracing garbage collectors over one arena of fixed-shape nodes: a
//! LISP-2 sliding mark-compact heap and a Cheney stop-and-copy heap, behind
//! a shared heap contract, with the graph walks (reachable sums, counts,
//! dumps) and a seeded workload generator that drive them.
//!
//! Every collector entry point is proved to keep exactly the nodes the roots
//! reach, to rewrite every reachable handle consistently, and to leave the
//! active region free of forwarding addresses.

pub mod api;
pub mod graph;
pub mod laws;
pub mod manager;
pub mod mark_compact;
pub mod node;
pub mod stack;
pub mod stop_copy;
pub mod traverse;
pub mod workload;
