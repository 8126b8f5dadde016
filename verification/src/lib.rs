pub mod elements;
pub mod entity;
pub mod error;
pub mod render;
pub mod representation;
pub mod text;
pub mod state;
pub mod board;
