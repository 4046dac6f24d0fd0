pub mod components;
pub mod frontier;
pub mod graph;
pub mod greedy;
pub mod ingest;
pub mod kruskal;
pub mod naming;
pub mod optimal;
pub mod order;
pub mod prim;
pub mod solv;
pub mod sorting;
pub mod threshold;
