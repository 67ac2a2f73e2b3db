pub mod order_book_snapshot;
pub mod order_book_update;
pub mod parser;
