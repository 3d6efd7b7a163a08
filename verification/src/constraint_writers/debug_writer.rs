use vstd::prelude::*;
use super::json_writer::{ConstraintJSON, utf8};

verus! {

/// Builds the debugging outputs.
#[derive(Clone, Copy)]
pub struct DebugWriter {}

impl DebugWriter {
    pub fn new() -> (res: DebugWriter)
        ensures
            res == (DebugWriter {}),
    {
        DebugWriter {}
    }

    /// A new, empty document of constraints.
    pub fn build_constraints_file(&self) -> (res: ConstraintJSON)
        ensures
            res@ == utf8("{") + utf8("\n\"constraints\": ["),
            !res.has_constraints(),
    {
        ConstraintJSON::new()
    }
}

} // verus!
