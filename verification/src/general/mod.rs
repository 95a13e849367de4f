pub mod majority_element;

pub use majority_element::booyer_moore;
pub use majority_element::divide_and_conquer;
pub use majority_element::naive;

pub mod n_queens;

pub use n_queens::solve_n_queens;
