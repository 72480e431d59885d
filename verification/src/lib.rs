//! Stream protocol, operator rules and memory timing of a dataflow
//! accelerator simulator, stated as contracts and proved.

pub mod build_sim;
pub mod functions;
pub mod memory;
pub mod operator;
pub mod primitives;
pub mod proto_driver;
pub mod utils;
