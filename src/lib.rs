pub mod laws;
pub mod model;
pub mod store;
pub mod text;
pub mod vault;
