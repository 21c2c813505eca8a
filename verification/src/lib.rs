//! A limit order book matching engine.
//!
//! The book keeps two price-ordered sides of resting orders (bids and asks),
//! an index from order id to its resting price, and the algorithms for
//! inserting, canceling and matching orders under price-time priority.
//! Every operation carries a contract that pins its result down against the
//! mathematical model in [`model`], and the priority and conservation laws
//! are proved in [`laws`].

pub mod laws;
pub mod lemmas;
pub mod messages;
pub mod model;
pub mod order;
pub mod order_book;

pub use order::{Order, OrderSide};
pub use order_book::OrderBook;
