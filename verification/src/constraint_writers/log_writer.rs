use vstd::prelude::*;

verus! {

/// What a compilation produced: constraints, wires, labels and inputs and
/// outputs.
pub struct Log {
    pub no_linear: usize,
    pub no_non_linear: usize,
    pub no_labels: usize,
    pub no_wires: usize,
    pub no_public_inputs: usize,
    pub no_private_inputs: usize,
    pub no_public_outputs: usize,
    pub no_private_outputs: usize,
}

impl Log {
    /// A log where every count is zero.
    pub fn new() -> (res: Log)
        ensures
            res.no_linear == 0,
            res.no_non_linear == 0,
            res.no_labels == 0,
            res.no_wires == 0,
            res.no_public_inputs == 0,
            res.no_private_inputs == 0,
            res.no_public_outputs == 0,
            res.no_private_outputs == 0,
    {
        Log {
            no_linear: 0,
            no_non_linear: 0,
            no_public_inputs: 0,
            no_private_inputs: 0,
            no_public_outputs: 0,
            no_private_outputs: 0,
            no_wires: 0,
            no_labels: 0,
        }
    }
}

} // verus!
