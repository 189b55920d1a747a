pub mod dim;
pub mod screen;
pub mod world;
