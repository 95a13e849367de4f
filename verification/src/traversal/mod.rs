pub mod breadth_first_search;
pub mod depth_first_search;
pub mod graph;

pub use depth_first_search::depth_first_search_it;
pub use depth_first_search::depth_first_search_rec;

pub use breadth_first_search::breadth_first_search;
