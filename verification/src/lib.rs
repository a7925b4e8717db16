pub mod codec;
pub mod defaults;
pub mod engine;
pub mod render;
pub mod world;
