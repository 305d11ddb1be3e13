pub mod board;
pub mod card;
pub mod counting;
pub mod error;
pub mod gamemove;
pub mod laws;
