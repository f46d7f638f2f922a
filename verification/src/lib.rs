//! Verified core of a small linear-algebra compiler built on egglog:
//! conversion of core expressions into egglog expressions, reconstruction of
//! let-bindings from an extracted term DAG, a first-n rule scheduler and an
//! AST-depth cost model.
pub mod ast;
pub mod strings;
pub mod util;
pub mod egglog_api;
pub mod index_map;
pub mod termdag;
pub mod termdag_laws;
pub mod scheduler;
pub mod cost;
