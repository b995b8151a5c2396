pub mod atoms;
pub mod lattice;
pub mod linalg;
pub mod text;
pub mod utils;
