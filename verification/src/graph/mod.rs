pub mod agreement;
pub mod astar;
pub mod dijkstra;
pub mod forest;
pub mod kruskal;
pub mod model;
pub mod mst;
pub mod paths;
pub mod prim;
pub mod search;

pub use astar::astar;
pub use dijkstra::dijkstra;
pub use kruskal::kruskal;
pub use prim::prim;
pub use model::{Edge, Graph, NodeId, NodeVal};
