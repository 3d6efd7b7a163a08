//! What instantiation computes besides executing templates: the names of
//! accessed symbols and the statistics of the instantiated circuit.

pub mod symbols;
pub mod template_info;
pub mod structure;
pub mod assignment_utils;
pub mod analysis;
pub mod runtime_reports;
