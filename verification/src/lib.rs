//! Static analysis of Go programs backed by an SMT solver.

pub mod alike;
pub mod annotations;
pub mod answers;
pub mod arith;
pub mod asked;
pub mod asking;
pub mod blocking;
pub mod bounds;
pub mod buffers;
pub mod calls;
pub mod checker;
pub mod checkers;
pub mod codec;
pub mod contracts;
pub mod custody;
pub mod degrade;
pub mod dfs;
pub mod digest;
pub mod dom;
pub mod dump;
pub mod effects;
pub mod encode;
pub mod engine;
pub mod escape;
pub mod executions;
pub mod faults;
pub mod findings;
pub mod fixpoint;
pub mod flow;
pub mod formed;
pub mod graph;
pub mod ir;
pub mod lattice;
pub mod leak;
pub mod meaning;
pub mod model;
pub mod naming;
pub mod nil;
pub mod nilness;
pub mod ops;
pub mod order;
pub mod origins;
pub mod places;
pub mod prepass;
pub mod promises;
pub mod query;
pub mod query_cache;
pub mod questions;
pub mod ranges;
pub mod reading;
pub mod records;
pub mod replay;
pub mod reports;
pub mod rets;
pub mod scc_cache;
pub mod sequence;
pub mod shared;
pub mod silence;
pub mod sort;
pub mod sparing;
pub mod steps;
pub mod store;
pub mod summary;
pub mod term;
pub mod term_codec;
pub mod text;
pub mod traffic;
pub mod types;
pub mod values;
pub mod whole;
