use vstd::prelude::*;

verus! {

/// A trading pair that can be aggregated.
#[derive(Clone, Copy, Debug, PartialEq, Eq, Structural)]
pub enum Product {
    BTCUSD,
}

impl Product {
    /// The pair as Coinbase names it.
    pub open spec fn coinbase_symbol(self) -> Seq<char> {
        match self {
            Product::BTCUSD => "BTC-USD"@,
        }
    }

    /// The pair as Gemini names it.
    pub open spec fn gemini_symbol(self) -> Seq<char> {
        match self {
            Product::BTCUSD => "BTCUSD"@,
        }
    }

    pub fn to_coinbase_symbol(&self) -> (r: &'static str)
        ensures
            r@ == self.coinbase_symbol(),
    {
        match self {
            Product::BTCUSD => {
                proof {
                    reveal_strlit("BTC-USD");
                }
                "BTC-USD"
            },
        }
    }

    pub fn to_gemini_symbol(&self) -> (r: &'static str)
        ensures
            r@ == self.gemini_symbol(),
    {
        match self {
            Product::BTCUSD => {
                proof {
                    reveal_strlit("BTCUSD");
                }
                "BTCUSD"
            },
        }
    }
}

/// Where a book's liquidity comes from.
#[derive(Clone, Copy, Debug, PartialEq, Eq, Structural)]
pub enum Exchange {
    Coinbase,
    Gemini,
    AggregatedExchange,
}

impl Exchange {
    /// The short lower-case name of the exchange.
    pub open spec fn name(self) -> Seq<char> {
        match self {
            Exchange::Coinbase => "coinbase"@,
            Exchange::Gemini => "gemini"@,
            Exchange::AggregatedExchange => "agg"@,
        }
    }

    pub fn to_string(&self) -> (r: String)
        ensures
            r@ == self.name(),
    {
        match self {
            Exchange::Coinbase => {
                proof {
                    reveal_strlit("coinbase");
                }
                "coinbase".to_string()
            },
            Exchange::Gemini => {
                proof {
                    reveal_strlit("gemini");
                }
                "gemini".to_string()
            },
            Exchange::AggregatedExchange => {
                proof {
                    reveal_strlit("agg");
                }
                "agg".to_string()
            },
        }
    }
}

} // verus!
