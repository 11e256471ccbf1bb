pub mod colour;
pub mod particle;
pub mod spawner;
