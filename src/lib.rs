//! Flattened devicetree reader for a bare-metal boot path, with the small
//! pieces of driver arithmetic that consume what it finds.

pub mod bytes;
pub mod error;
pub mod header;
pub mod model;
pub mod node;
pub mod strings;
pub mod parser;
pub mod timer;
pub mod uart;
pub mod laws;
