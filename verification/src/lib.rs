pub mod assembler;
pub mod errors;
pub mod json;
pub mod netlist;
pub mod simulator;
pub mod state;
