pub mod evaluator;
pub mod game;
pub mod generator;
pub mod measure;
pub mod naive_solver;
pub mod rng;
pub mod testing;
pub mod tui;
pub mod utilities;
