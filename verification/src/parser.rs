pub mod conf;
pub mod mir;
pub mod schema;
pub mod tree;
