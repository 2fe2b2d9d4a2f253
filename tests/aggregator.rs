use order_book_aggregator::{
    aggregate, AggregatorError, FetchOutcome, Level, OrderBook, OrderBookAggregator, Product,
};

fn book(bids: &[(u64, u64)], asks: &[(u64, u64)]) -> OrderBook {
    let mut b = OrderBook::new();
    for &(p, q) in bids {
        b.add_bid(p, q);
    }
    for &(p, q) in asks {
        b.add_ask(p, q);
    }
    b
}

#[test]
fn partial_failure_keeps_only_the_books_delivered() {
    let outcomes = vec![
        FetchOutcome::Failed,
        FetchOutcome::Book(book(&[(100, 1)], &[(200, 2)])),
        FetchOutcome::Failed,
        FetchOutcome::Book(book(&[(100, 3), (90, 4)], &[])),
    ];
    let merged = aggregate(Product::BTCUSD, outcomes).unwrap();
    assert_eq!(
        merged.bids().clone(),
        vec![Level { price: 90, quantity: 4 }, Level { price: 100, quantity: 4 }]
    );
    assert_eq!(merged.asks().clone(), vec![Level { price: 200, quantity: 2 }]);
}

#[test]
fn all_failed_is_aggregation_failed() {
    let outcomes = vec![FetchOutcome::Failed, FetchOutcome::Failed, FetchOutcome::Failed];
    let res = aggregate(Product::BTCUSD, outcomes);
    assert!(matches!(res, Err(AggregatorError::AggregationFailed)));
    assert!(matches!(aggregate(Product::BTCUSD, Vec::new()), Err(AggregatorError::AggregationFailed)));
}

#[test]
fn an_empty_book_delivered_still_counts_as_success() {
    let res = aggregate(Product::BTCUSD, vec![FetchOutcome::Failed, FetchOutcome::Book(OrderBook::new())]);
    assert!(res.unwrap().is_empty());
}

#[test]
fn first_book_seeds_and_later_books_merge() {
    let mut agg = OrderBookAggregator::new(Product::BTCUSD);
    assert_eq!(agg.product_id(), Product::BTCUSD);
    agg.record(FetchOutcome::Failed);
    assert_eq!(agg.succeeded(), 0);
    agg.record(FetchOutcome::Book(book(&[(100, 1)], &[])));
    assert_eq!(agg.succeeded(), 1);
    assert_eq!(agg.book().bid_quantity(100), 1);
    agg.record(FetchOutcome::Book(book(&[(100, 2)], &[(300, 5)])));
    agg.record(FetchOutcome::Failed);
    assert_eq!(agg.succeeded(), 2);
    let merged = agg.finish().unwrap();
    assert_eq!(merged.bid_quantity(100), 3);
    assert_eq!(merged.ask_quantity(300), 5);
}

#[test]
fn finishing_without_success_fails() {
    let agg = OrderBookAggregator::new(Product::BTCUSD);
    assert!(matches!(agg.finish(), Err(AggregatorError::AggregationFailed)));
}
