//! Collections: a bounded queue that keeps the first N elements in order,
//! and a small map that keeps insertion order.

pub mod top_queue;
pub mod vec_map;

pub use top_queue::TopQueue;
pub use vec_map::{VecMap, VecMapIter};
