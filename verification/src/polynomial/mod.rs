pub mod evaluation;
pub mod interpolation;
pub mod interpolation_laws;
pub mod laws;
pub mod model;
pub mod ops;
pub mod roots;

pub use ops::Polynomial;
