pub mod board;
pub mod rules;
pub mod rng;
pub mod puzzle;
pub mod kitty;
pub mod text;
pub mod session;
pub mod display;
pub mod game;
pub mod terminal;
pub mod frame;
