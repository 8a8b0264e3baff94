pub mod hook;
pub mod render;
pub mod tick;
pub mod world;
