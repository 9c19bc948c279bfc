pub mod crossover;
pub mod datacentre;
pub mod decomposition;
pub mod distance_matrix;
pub mod error;
pub mod evaluation;
pub mod heuristic_model;
pub mod initialisation;
pub mod mapping;
pub mod marks;
pub mod mutation;
pub mod nds;
pub mod neighbour_gen;
pub mod nsgaii;
pub mod placement_strategies;
pub mod pnsgaii;
pub mod probability;
pub mod random;
pub mod route;
pub mod routing;
pub mod search;
pub mod selection;
pub mod service;
pub mod solution;
pub mod stopwatch;
