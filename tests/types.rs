use order_book_aggregator::{Exchange, Product};

#[test]
fn product_symbols() {
    assert_eq!(Product::BTCUSD.to_coinbase_symbol(), "BTC-USD");
    assert_eq!(Product::BTCUSD.to_gemini_symbol(), "BTCUSD");
}

#[test]
fn exchange_names() {
    assert_eq!(Exchange::Coinbase.to_string(), "coinbase");
    assert_eq!(Exchange::Gemini.to_string(), "gemini");
    assert_eq!(Exchange::AggregatedExchange.to_string(), "agg");
}
