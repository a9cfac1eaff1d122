pub mod game;
pub mod mesh;
