//! Verified core of the circom circuit compiler back end: the binary R1CS
//! format, the text exporters, the DAG bookkeeping, the witness compaction of
//! the constraint list and the version checks of the parser.

pub mod encoding;
pub mod text;
pub mod constraint_writers;
pub mod dag;
pub mod constraint_generation;
pub mod constraint_list;
pub mod parser;
