use vstd::prelude::*;
use vstd::utf8::encode_utf8;

use crate::decimal::{fixed_of, parse_price, parse_quantity, PRICE_DECIMALS, QUANTITY_DECIMALS};
use crate::side::{add_to_side, ascending, has_level, quantity_at, side_quantity, Level};

verus! {

/// One level as an exchange reports it: a price and a quantity, both as
/// decimal text.
#[derive(Clone, Debug)]
pub struct Quote {
    pub price: String,
    pub quantity: String,
}

/// The level that a quote stands for: its price in cents and its quantity
/// in units of 10^-8, where both fields read as decimals of their kind.
pub open spec fn quote_level(q: Quote) -> Option<(u64, u64)> {
    match (
        fixed_of(encode_utf8(q.price@), PRICE_DECIMALS as nat),
        fixed_of(encode_utf8(q.quantity@), QUANTITY_DECIMALS as nat),
    ) {
        (Some(p), Some(x)) => Some((p, x)),
        _ => None,
    }
}

/// Whether some quote stands for a level at `price`.
pub open spec fn quoted_price(quotes: Seq<Quote>, price: u64) -> bool {
    exists|i: int|
        0 <= i < quotes.len() && #[trigger] quote_level(quotes[i]) is Some && quote_level(quotes[i]).unwrap().0 == price
}

/// The quantity at `price` after the quotes are taken in order: each one
/// that stands for a level at `price` adds its quantity, unless the total
/// would leave `u64`.
pub open spec fn quoted_at(quotes: Seq<Quote>, price: u64) -> nat
    decreases quotes.len(),
{
    if quotes.len() == 0 {
        0
    } else {
        let prev = quoted_at(quotes.drop_last(), price);
        match quote_level(quotes.last()) {
            Some((p, x)) => if p == price && prev + x <= u64::MAX {
                prev + x as nat
            } else {
                prev
            },
            None => prev,
        }
    }
}

/// Taking in one more quote changes the quoted levels at its price alone.
pub proof fn lemma_quotes_push(quotes: Seq<Quote>, q: Quote)
    ensures
        forall|p: u64|
            #![trigger quoted_price(quotes.push(q), p)]
            quoted_price(quotes.push(q), p) == (quoted_price(quotes, p) || (quote_level(q) is Some
                && quote_level(q).unwrap().0 == p)),
        forall|p: u64|
            #![trigger quoted_at(quotes.push(q), p)]
            quoted_at(quotes.push(q), p) == match quote_level(q) {
                Some((qp, x)) => if qp == p && quoted_at(quotes, p) + x <= u64::MAX {
                    quoted_at(quotes, p) + x as nat
                } else {
                    quoted_at(quotes, p)
                },
                None => quoted_at(quotes, p),
            },
{
    let next = quotes.push(q);
    assert(next.drop_last() =~= quotes);
    assert forall|p: u64|
        #![trigger quoted_price(next, p)]
        quoted_price(next, p) == (quoted_price(quotes, p) || (quote_level(q) is Some && quote_level(
            q,
        ).unwrap().0 == p)) by {
        if quoted_price(quotes, p) {
            let i = choose|i: int|
                0 <= i < quotes.len() && #[trigger] quote_level(quotes[i]) is Some && quote_level(
                    quotes[i],
                ).unwrap().0 == p;
            assert(next[i] == quotes[i]);
        }
        if quote_level(q) is Some && quote_level(q).unwrap().0 == p {
            assert(next[quotes.len() as int] == q);
        }
        if quoted_price(next, p) {
            let i = choose|i: int|
                0 <= i < next.len() && #[trigger] quote_level(next[i]) is Some && quote_level(
                    next[i],
                ).unwrap().0 == p;
            if i < quotes.len() {
                assert(next[i] == quotes[i]);
            }
        }
    }
}

/// A side built from quotes taken in order.
pub(crate) fn side_from_quotes(quotes: &Vec<Quote>) -> (r: Vec<Level>)
    ensures
        ascending(r@),
        forall|p: u64| #[trigger] has_level(r@, p) == quoted_price(quotes@, p),
        forall|p: u64| #[trigger] quantity_at(r@, p) == quoted_at(quotes@, p),
{
    let mut levels: Vec<Level> = Vec::new();
    let mut k: usize = 0;
    while k < quotes.len()
        invariant
            k <= quotes@.len(),
            ascending(levels@),
            forall|p: u64|
                #[trigger] has_level(levels@, p) == quoted_price(quotes@.take(k as int), p),
            forall|p: u64| #[trigger] quantity_at(levels@, p) == quoted_at(quotes@.take(k as int), p),
        decreases quotes@.len() - k,
    {
        let q = &quotes[k];
        let ghost pre = quotes@.take(k as int);
        let ghost next = quotes@.take(k + 1);
        assert(next.drop_last() =~= pre);
        assert(next.last() == quotes@[k as int]);
        let price = parse_price(q.price.as_str());
        let quantity = parse_quantity(q.quantity.as_str());
        let ghost before = levels@;
        proof {
            lemma_quotes_push(pre, quotes@[k as int]);
        }
        if let (Some(p), Some(x)) = (price, quantity) {
            let held = side_quantity(&levels, p);
            if held <= u64::MAX - x {
                add_to_side(&mut levels, p, x);
            } else {
                proof {
                    assert(has_level(before, p));
                }
            }
        }
        k = k + 1;
    }
    assert(quotes@.take(quotes@.len() as int) =~= quotes@);
    levels
}

} // verus!
