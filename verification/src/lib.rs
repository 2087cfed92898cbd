pub mod casting_problem;
pub mod graph_coloring;
