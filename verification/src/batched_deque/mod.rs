pub mod batched_deque;
pub mod laws;
pub mod model;
