//! Best-first graph search over an abstract state-transition model, with the
//! Towers-of-Hanoi puzzle as a ready-made domain.
pub mod problem;
pub mod states;
pub mod actions;
pub mod node;
pub mod hanoi;
pub mod search;
pub mod optimal;
pub mod replay;
