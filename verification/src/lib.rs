//! A verified checkers (draughts) engine: board representation, move
//! legality, move application with captures and promotion, full-turn
//! enumeration with jump chains, a material evaluator, and a depth-limited
//! minimax search with alpha-beta style cutoffs.

pub mod ai;
pub mod board;
