pub mod bubble_sort;
pub mod counting_sort;
pub mod insertion_sort;
pub mod quick_sort;
pub mod radix_sort;
pub mod sorted;

pub use bubble_sort::bubble_sort;
pub use counting_sort::counting_sort;
pub use insertion_sort::insertion_sort;
pub use quick_sort::quick_sort;
pub use radix_sort::{radix_sort_in_place, radix_sort_naive};
