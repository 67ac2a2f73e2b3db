pub mod generation_guard;
pub mod generational_deque;
