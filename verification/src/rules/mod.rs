pub mod build;
pub mod constants;
pub mod geometry;
pub mod time;
