pub mod debug_writer;
pub mod json_writer;
pub mod log_writer;
pub mod name_to_signal_writer;
pub mod r1cs_writer;
pub mod sym_writer;
pub mod r1cs_reader;
