//! Consolidated order books for one trading pair, built from the snapshots
//! of several exchanges, and the cost of a market order against them.
//!
//! Prices are integer cents and quantities integer units of 10^-8 of the
//! base asset, so that every sum, walk and rounding below is exact.
pub mod aggregator;
pub mod decimal;
pub mod error;
pub mod order_book;
pub mod quotes;
pub mod rate_limiter;
pub mod side;
pub mod types;
pub mod walk;

pub use aggregator::{aggregate, FetchOutcome, OrderBookAggregator};
pub use decimal::{parse_price, parse_quantity};
pub use error::{AggregatorError, BookSide};
pub use order_book::OrderBook;
pub use quotes::Quote;
pub use side::Level;
pub use rate_limiter::RateLimiter;
pub use types::{Exchange, Product};
pub use walk::OrderDetails;
