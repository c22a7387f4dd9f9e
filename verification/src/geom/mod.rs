pub mod point;
pub mod simplify;
pub mod validate;
pub mod transform;
