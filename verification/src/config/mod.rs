pub mod defaults;
pub mod loader;
pub mod schema;
