use vstd::prelude::*;

verus! {

/// A side of an order book.
#[derive(Clone, Copy, Debug, PartialEq, Eq, Structural)]
pub enum BookSide {
    /// Buy interest, consumed by a sell order.
    Bids,
    /// Sell interest, consumed by a buy order.
    Asks,
}

/// The errors that the library reports to its caller.
#[derive(Clone, Debug)]
pub enum AggregatorError {
    /// The side of the book that an order walks holds less than the order
    /// asks for; `available` is all that side holds.
    InsufficientLiquidity { side: BookSide, requested: u64, available: u64 },
    /// No provider delivered a book.
    AggregationFailed,
    /// The request budget of the current window is spent.
    RateLimitExceeded(String),
}

} // verus!
