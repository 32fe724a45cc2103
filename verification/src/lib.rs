pub mod scan;
pub mod parser;
pub mod matcher;
pub mod renderer;
pub mod runtime;
pub mod config;
pub mod terminal;
