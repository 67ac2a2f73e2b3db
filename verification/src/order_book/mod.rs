pub mod buffered_order_book;
pub mod errors;
pub mod laws;
pub mod manager;
pub mod model;
pub mod order_book;
pub mod render;
