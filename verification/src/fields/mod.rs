pub mod element;
pub mod fermat;
pub mod laws;
pub mod modular;

pub use element::FieldElement;
