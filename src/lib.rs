//! Decision engine for a turn-based ingredient-conversion game: a state model,
//! the rules that generate and apply moves, and a rollout search that picks
//! one move per turn under a wall-clock budget.

pub mod model;
pub mod rules;
pub mod laws;
pub mod search;
pub mod turn;
