pub mod board_moves;
pub mod cache;
pub mod enumerator;
pub mod model;
pub mod moveset;
pub mod rules;
pub mod stream;
