pub mod world;
pub mod life;
pub mod chunk;
pub mod game;
