pub mod chain;
pub mod contour;
