use order_book_aggregator::{
    parse_price, parse_quantity, AggregatorError, BookSide, Level, OrderBook, Quote,
};

fn cents(text: &str) -> u64 {
    parse_price(text).unwrap()
}

fn units(text: &str) -> u64 {
    parse_quantity(text).unwrap()
}

fn quote(price: &str, quantity: &str) -> Quote {
    Quote { price: price.to_string(), quantity: quantity.to_string() }
}

#[test]
fn test_best_buy_offer() {
    let mut order_book = OrderBook::new();
    order_book.add_ask(cents("103134.09"), units("0.50608469"));
    order_book.add_ask(cents("103134.02"), units("0.00803816"));
    order_book.add_ask(cents("103134.01"), units("0.09985862"));
    order_book.add_ask(cents("103133.06"), units("0.00969621"));
    order_book.add_ask(cents("103126.01"), units("0.1378704"));
    order_book.add_ask(cents("103123.79"), units("0.1425"));

    let res = order_book.calculate_best_buy_offer(units("0.1")).unwrap();
    // The lowest ask, 103123.79 for 0.1425, covers the order:
    // 0.1 * 103123.79 = 10312.379, which rounds to 10312.38.
    assert_eq!(res, 1_031_238);
}

#[test]
fn test_best_sell_offer() {
    let mut order_book = OrderBook::new();
    order_book.add_bid(cents("103120.00"), units("0.5"));
    order_book.add_bid(cents("103119.50"), units("0.3"));
    order_book.add_bid(cents("103118.00"), units("0.2"));

    let res = order_book.calculate_best_sell_offer(units("0.4")).unwrap();
    // The highest bid, 103120.00 for 0.5, covers the order:
    // 0.4 * 103120.00 = 41248.00.
    assert_eq!(res, 4_124_800);
}

#[test]
fn test_insufficient_liquidity_buy() {
    let mut order_book = OrderBook::new();
    order_book.add_ask(cents("103118.00"), units("0.2"));
    let res = order_book.calculate_best_buy_offer(units("0.5"));
    assert!(matches!(res, Err(AggregatorError::InsufficientLiquidity { .. })));
}

#[test]
fn test_insufficient_liquidity_sell() {
    let mut order_book = OrderBook::new();
    order_book.add_bid(cents("103118.00"), units("0.3"));
    let res = order_book.calculate_best_sell_offer(units("0.6"));
    assert!(matches!(res, Err(AggregatorError::InsufficientLiquidity { .. })));
}

#[test]
fn insufficient_liquidity_reports_side_and_amounts() {
    let mut book = OrderBook::new();
    book.add_ask(10_311_800, 20_000_000);
    book.add_ask(10_311_900, 5_000_000);
    book.add_bid(10_311_700, 30_000_000);
    match book.calculate_best_buy_offer(50_000_000) {
        Err(AggregatorError::InsufficientLiquidity { side, requested, available }) => {
            assert_eq!(side, BookSide::Asks);
            assert_eq!(requested, 50_000_000);
            assert_eq!(available, 25_000_000);
        }
        other => panic!("unexpected {:?}", other),
    }
    match book.calculate_best_sell_offer(60_000_000) {
        Err(AggregatorError::InsufficientLiquidity { side, requested, available }) => {
            assert_eq!(side, BookSide::Bids);
            assert_eq!(requested, 60_000_000);
            assert_eq!(available, 30_000_000);
        }
        other => panic!("unexpected {:?}", other),
    }
}

#[test]
fn exact_liquidity_is_enough() {
    let mut book = OrderBook::new();
    book.add_ask(10_000, 30_000_000);
    book.add_ask(20_000, 20_000_000);
    // 0.3 at 100.00 and 0.2 at 200.00: 30.00 + 40.00.
    assert_eq!(book.calculate_best_buy_offer(50_000_000).unwrap(), 7_000);
    assert!(book.calculate_best_buy_offer(50_000_001).is_err());
}

#[test]
fn zero_quantity_costs_nothing() {
    let empty = OrderBook::new();
    assert_eq!(empty.calculate_best_buy_offer(0).unwrap(), 0);
    assert_eq!(empty.calculate_best_sell_offer(0).unwrap(), 0);
    assert!(empty.calculate_best_buy_offer(1).is_err());
    assert!(empty.calculate_best_sell_offer(1).is_err());
}

#[test]
fn buy_walks_asks_lowest_first_across_levels() {
    let mut book = OrderBook::new();
    // Inserted out of order on purpose.
    book.add_ask(10_300, 100_000_000);
    book.add_ask(10_100, 100_000_000);
    book.add_ask(10_200, 100_000_000);
    // 1 at 101.00 and 0.5 at 102.00.
    assert_eq!(book.calculate_best_buy_offer(150_000_000).unwrap(), 15_200);
    let prices: Vec<u64> = book.asks().iter().map(|l| l.price).collect();
    assert_eq!(prices, vec![10_100, 10_200, 10_300]);
}

#[test]
fn sell_walks_bids_highest_first_across_levels() {
    let mut book = OrderBook::new();
    book.add_bid(9_900, 100_000_000);
    book.add_bid(10_000, 100_000_000);
    book.add_bid(9_800, 100_000_000);
    // 1 at 100.00 and 0.5 at 99.00.
    assert_eq!(book.calculate_best_sell_offer(150_000_000).unwrap(), 14_950);
}

#[test]
fn cost_rounds_half_cents_away_from_zero() {
    let mut book = OrderBook::new();
    book.add_ask(1, 150_000_000);
    // 1.5 units at 0.01: 1.5 cents, rounded up to 2.
    assert_eq!(book.calculate_best_buy_offer(150_000_000).unwrap(), 2);
    // 1.49999999 units at 0.01: just under 1.5 cents, rounded down to 1.
    assert_eq!(book.calculate_best_buy_offer(149_999_999).unwrap(), 1);
}

#[test]
fn adds_at_one_price_accumulate() {
    let mut book = OrderBook::new();
    book.add_bid(100, 5);
    book.add_bid(100, 7);
    book.add_ask(100, 3);
    book.add_bid(100, 0);
    book.add_ask(100, 4);
    assert_eq!(book.bid_quantity(100), 12);
    assert_eq!(book.ask_quantity(100), 7);
    assert_eq!(book.bids().len(), 1);
    assert_eq!(book.asks().len(), 1);
    assert_eq!(book.bid_quantity(101), 0);
}

#[test]
fn new_book_is_empty_until_a_level_is_added() {
    let mut book = OrderBook::new();
    assert!(book.is_empty());
    book.add_bid(100, 0);
    assert!(!book.is_empty());
    let mut other = OrderBook::new();
    other.add_ask(100, 1);
    assert!(!other.is_empty());
}

#[test]
fn merge_sums_matching_prices_and_keeps_the_rest() {
    let mut a = OrderBook::new();
    a.add_bid(100, 1);
    a.add_bid(200, 2);
    a.add_ask(300, 3);
    let mut b = OrderBook::new();
    b.add_bid(200, 10);
    b.add_bid(150, 20);
    b.add_ask(400, 4);
    a.merge(&b);
    assert_eq!(
        a.bids().clone(),
        vec![
            Level { price: 100, quantity: 1 },
            Level { price: 150, quantity: 20 },
            Level { price: 200, quantity: 12 },
        ]
    );
    assert_eq!(
        a.asks().clone(),
        vec![Level { price: 300, quantity: 3 }, Level { price: 400, quantity: 4 }]
    );
    // The merged-in book is left as it was.
    assert_eq!(b.bid_quantity(200), 10);
    assert_eq!(b.bids().len(), 2);
}

#[test]
fn merge_order_does_not_change_totals() {
    let mut a = OrderBook::new();
    a.add_bid(100, 1);
    a.add_ask(300, 3);
    a.add_ask(310, 6);
    let mut b = OrderBook::new();
    b.add_bid(100, 10);
    b.add_bid(90, 9);
    b.add_ask(310, 30);

    let mut ab = OrderBook::new();
    ab.merge(&a);
    ab.merge(&b);
    let mut ba = OrderBook::new();
    ba.merge(&b);
    ba.merge(&a);
    assert_eq!(ab.bids().clone(), ba.bids().clone());
    assert_eq!(ab.asks().clone(), ba.asks().clone());
    assert_eq!(ab.bid_quantity(100), 11);
    assert_eq!(ab.ask_quantity(310), 36);
}

#[test]
fn merging_the_same_book_twice_doubles_it() {
    let mut a = OrderBook::new();
    a.add_ask(100, 5);
    let mut acc = OrderBook::new();
    acc.merge(&a);
    acc.merge(&a);
    assert_eq!(acc.ask_quantity(100), 10);
}

#[test]
fn from_quotes_drops_levels_that_do_not_read() {
    let bids = vec![
        quote("103120.00", "0.5"),
        quote("NaN", "0.1"),
        quote("103119.50", "-0.3"),
        quote("103120.00", "0.25"),
        quote("abc", "1"),
        quote("103118", "inf"),
    ];
    let asks = vec![quote("103123.79", "0.1425"), quote("103123.791", "1"), quote("", "1")];
    let book = OrderBook::from_quotes(&bids, &asks);
    assert_eq!(book.bids().clone(), vec![Level { price: 10_312_000, quantity: 75_000_000 }]);
    assert_eq!(book.asks().clone(), vec![Level { price: 10_312_379, quantity: 14_250_000 }]);
}

#[test]
fn from_quotes_drops_a_quote_that_overflows_its_level() {
    let bids = vec![
        quote("1", "184467440737.09551615"),
        quote("1", "0.00000001"),
        quote("2", "0.00000001"),
    ];
    let book = OrderBook::from_quotes(&bids, &Vec::new());
    assert_eq!(book.bid_quantity(100), u64::MAX);
    assert_eq!(book.bid_quantity(200), 1);
}
