pub mod best_hand;
pub mod card;
pub mod eval;
pub mod everything;
pub mod mirror;
pub mod ranking;
pub mod sim;
pub mod symmetry;
pub mod text;
pub mod trim;
