//! Gem deduction (Mastermind) solver: feedback rule, search space, candidate
//! filtering, offline policies and exact search.
pub mod judge;
pub mod model;
pub mod solver;
pub mod keymap;
pub mod text;
pub mod policy;
pub mod palette;
pub mod session;
pub mod optimal;
pub mod checkpoint;
pub mod exchange;
pub mod lookahead;
pub mod realize;
pub mod bound;
pub mod symmetry;
