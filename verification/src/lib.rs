pub mod game_config;
pub mod text;
pub mod tile;
pub mod unity_random;
pub mod keyed;
pub mod board;
pub mod quest_manager;
pub mod preview;
pub mod score_manager;
pub mod generator;
pub mod env;
pub mod laws;
