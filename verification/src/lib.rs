//! Simulation of mobile agents ("ants") performing random walks over a graph
//! of named, directionally connected colonies. Two or more agents arriving at
//! the same colony in the same step destroy that colony, its connections, and
//! the agents there. The run ends when a step ceiling is reached or at most
//! one agent remains.

pub mod graph;
pub mod parse;
pub mod rng;
pub mod sim;
