pub mod events;
pub mod line_assembler;
pub mod passthrough;
pub mod processor;
