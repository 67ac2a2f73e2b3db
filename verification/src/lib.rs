//! Level-2 limit order books rebuilt from two feeds: full snapshots and
//! incremental updates.
//!
//! * [`batched_deque`] and [`generational_deque`] are the arenas that hold
//!   the changes of the updates. An arena hands out a handle for what is
//!   appended to it and gives up space at its front as handles are released.
//!   A handle holds absolute indices and no reference: the arena is handed to
//!   each operation on a handle.
//! * [`order_book`] holds the book of one security, the buffered book that
//!   keeps updates which arrive ahead of their turn, and the manager that
//!   routes records to the books by security.
//! * [`parsing`] decodes the records from their bytes.
//! * [`price`] turns decimal prices into whole numbers of ticks of 0.01,
//!   which key the sides of a book. The feed's prices are binary floats; what
//!   decimal a float stands for is decided outside this crate and handed in.
//! * [`text`] writes numbers in decimal digits.
pub mod batched_deque;
pub mod generational_deque;
pub mod order_book;
pub mod parsing;
pub mod price;
pub mod text;
