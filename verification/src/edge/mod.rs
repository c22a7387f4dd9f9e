pub mod detector;
pub mod morphology;
pub mod threshold;
