//! Algorithms on slices, vectors and deques.

pub mod a;
pub mod it;
pub mod order;
pub mod slice;
pub mod vec;

pub use a::{
    deque_pop_front_n, deque_remove_first, locate_range, low_bound, search_first, search_last,
    unwrap, update_range, upper_bound,
};
pub use it::max_index;
pub use slice::{diff, search_slice, slice_by_radius};
pub use vec::vec_into;
