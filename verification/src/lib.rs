//! A sparse, unbounded-plane cellular automaton following Conway's Game
//! of Life rules, with the generation step and the population builders
//! verified against a set-theoretic model of the plane.

pub mod builder;
pub mod life;
