pub mod vectors;
pub mod animation;
