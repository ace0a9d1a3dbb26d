pub mod model;
pub mod feedback;
pub mod parse;
pub mod simulate;
pub mod scoring;
pub mod rank;
pub mod round;
pub mod laws;
