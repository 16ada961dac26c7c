//! An exchange-style limit order book with verified matching.
//!
//! The book keeps resting orders in price levels (FIFO queues per price),
//! one `BookSide` per side of the market, and matches incoming market and
//! limit orders under price-time priority.  Prices and quantities are exact
//! fixed-point values held as integer counts of their smallest unit.

pub mod book_side;
pub mod order;
pub mod order_book;
pub mod price_level;

pub use order_book::OrderBook;
