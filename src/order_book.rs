use vstd::prelude::*;

use crate::error::{AggregatorError, BookSide};
use crate::quotes::{quoted_at, quoted_price, side_from_quotes, Quote};
use crate::side::{
    add_to_side, ascending, has_level, lemma_side_determined, merge_side, quantity_at,
    side_quantity, Level,
};
use crate::walk::{
    fills, highest_first, lemma_fills_follow_levels, lemma_filled_fills,
    lemma_liquidity_highest_first, liquidity, round_to_cents, fill_cost, walk, UNITS_PER_COIN,
};

verus! {

/// The two sides of a book as sequences of levels, each ascending by price.
pub ghost struct BookView {
    pub bids: Seq<Level>,
    pub asks: Seq<Level>,
}

/// An order book: bids and asks, each a sequence of levels kept in
/// ascending price order with one level per price.
#[derive(Clone, Debug)]
pub struct OrderBook {
    bids: Vec<Level>,
    asks: Vec<Level>,
}

impl View for OrderBook {
    type V = BookView;

    closed spec fn view(&self) -> BookView {
        BookView { bids: self.bids@, asks: self.asks@ }
    }
}

impl OrderBook {
    /// Both sides ascending by price.
    pub open spec fn wf(&self) -> bool {
        ascending(self@.bids) && ascending(self@.asks)
    }

    /// The quantity bid at `price`.
    pub open spec fn bid_at(&self, price: u64) -> nat {
        quantity_at(self@.bids, price)
    }

    /// The quantity asked at `price`.
    pub open spec fn ask_at(&self, price: u64) -> nat {
        quantity_at(self@.asks, price)
    }

    /// This book holds, side by side, the levels of `a` and those of `b`,
    /// with the quantities at each price summed.
    pub open spec fn is_sum_of(&self, a: OrderBook, b: OrderBook) -> bool {
        &&& self.wf()
        &&& forall|p: u64|
            #![trigger has_level(self@.bids, p)]
            has_level(self@.bids, p) == (has_level(a@.bids, p) || has_level(b@.bids, p))
        &&& forall|p: u64|
            #![trigger has_level(self@.asks, p)]
            has_level(self@.asks, p) == (has_level(a@.asks, p) || has_level(b@.asks, p))
        &&& forall|p: u64| #[trigger] self.bid_at(p) == a.bid_at(p) + b.bid_at(p)
        &&& forall|p: u64| #[trigger] self.ask_at(p) == a.ask_at(p) + b.ask_at(p)
    }

    /// This book is `b` with `quantity` added at `price` on `side`: a level
    /// opens there if there was none, and nothing else changes.
    pub open spec fn is_after_add(&self, b: OrderBook, side: BookSide, price: u64, quantity: u64) -> bool {
        &&& self.wf()
        &&& match side {
            BookSide::Bids => {
                &&& self@.asks == b@.asks
                &&& forall|p: u64|
                    #![trigger has_level(self@.bids, p)]
                    has_level(self@.bids, p) == (has_level(b@.bids, p) || p == price)
                &&& forall|p: u64| #[trigger]
                    self.bid_at(p) == b.bid_at(p) + if p == price {
                        quantity as nat
                    } else {
                        0
                    }
            },
            BookSide::Asks => {
                &&& self@.bids == b@.bids
                &&& forall|p: u64|
                    #![trigger has_level(self@.asks, p)]
                    has_level(self@.asks, p) == (has_level(b@.asks, p) || p == price)
                &&& forall|p: u64| #[trigger]
                    self.ask_at(p) == b.ask_at(p) + if p == price {
                        quantity as nat
                    } else {
                        0
                    }
            },
        }
    }

    /// Both sides without levels.
    pub open spec fn has_no_levels(&self) -> bool {
        self@.bids.len() == 0 && self@.asks.len() == 0
    }

    /// An empty book.
    pub fn new() -> (r: OrderBook)
        ensures
            r.wf(),
            r@.bids.len() == 0,
            r@.asks.len() == 0,
    {
        OrderBook { bids: Vec::new(), asks: Vec::new() }
    }

    /// A book built from quotes as an exchange reports them: each quote
    /// whose price and quantity both read as decimals of their kind is added
    /// to its side in order; the rest are dropped, and so is a quote that
    /// would take the total at its price beyond `u64`.
    pub fn from_quotes(bids: &Vec<Quote>, asks: &Vec<Quote>) -> (r: OrderBook)
        ensures
            r.wf(),
            forall|p: u64| #[trigger] has_level(r@.bids, p) == quoted_price(bids@, p),
            forall|p: u64| #[trigger] has_level(r@.asks, p) == quoted_price(asks@, p),
            forall|p: u64| #[trigger] r.bid_at(p) == quoted_at(bids@, p),
            forall|p: u64| #[trigger] r.ask_at(p) == quoted_at(asks@, p),
    {
        OrderBook { bids: side_from_quotes(bids), asks: side_from_quotes(asks) }
    }

    /// True iff neither side has a level.
    pub fn is_empty(&self) -> (r: bool)
        ensures
            r == (self@.bids.len() == 0 && self@.asks.len() == 0),
    {
        self.bids.len() == 0 && self.asks.len() == 0
    }

    /// The levels of the bid side, ascending by price.
    pub fn bids(&self) -> (r: &Vec<Level>)
        ensures
            r@ == self@.bids,
    {
        &self.bids
    }

    /// The levels of the ask side, ascending by price.
    pub fn asks(&self) -> (r: &Vec<Level>)
        ensures
            r@ == self@.asks,
    {
        &self.asks
    }

    /// The quantity bid at `price`, zero where there is no bid.
    pub fn bid_quantity(&self, price: u64) -> (r: u64)
        requires
            self.wf(),
        ensures
            r == self.bid_at(price),
    {
        side_quantity(&self.bids, price)
    }

    /// The quantity asked at `price`, zero where there is no ask.
    pub fn ask_quantity(&self, price: u64) -> (r: u64)
        requires
            self.wf(),
        ensures
            r == self.ask_at(price),
    {
        side_quantity(&self.asks, price)
    }

    /// Adds `quantity` to the bids at `price`, opening the level if it is
    /// not there yet. The cumulative quantity must stay within `u64`.
    pub fn add_bid(&mut self, price: u64, quantity: u64)
        requires
            old(self).wf(),
            old(self).bid_at(price) + quantity <= u64::MAX,
        ensures
            final(self).is_after_add(*old(self), BookSide::Bids, price, quantity),
    {
        add_to_side(&mut self.bids, price, quantity);
    }

    /// Adds `quantity` to the asks at `price`, opening the level if it is
    /// not there yet. The cumulative quantity must stay within `u64`.
    pub fn add_ask(&mut self, price: u64, quantity: u64)
        requires
            old(self).wf(),
            old(self).ask_at(price) + quantity <= u64::MAX,
        ensures
            final(self).is_after_add(*old(self), BookSide::Asks, price, quantity),
    {
        add_to_side(&mut self.asks, price, quantity);
    }

    /// The cost in cents of buying `quantity` units at market: the asks
    /// are met from the lowest price up, and the sum of price times
    /// quantity taken is rounded to whole cents. Fails, with nothing
    /// partial returned, when the asks hold less than `quantity`.
    pub fn calculate_best_buy_offer(&self, quantity: u64) -> (r: Result<u128, AggregatorError>)
        ensures
            match r {
                Ok(cost) => quantity <= liquidity(self@.asks) && cost == round_to_cents(
                    fill_cost(fills(self@.asks, quantity as nat)),
                ),
                Err(e) => quantity > liquidity(self@.asks) && e == (
                AggregatorError::InsufficientLiquidity {
                    side: BookSide::Asks,
                    requested: quantity,
                    available: liquidity(self@.asks) as u64,
                }),
            },
    {
        let (got, raw) = walk(&self.asks, false, quantity);
        proof {
            lemma_filled_fills(self@.asks, quantity as nat);
        }
        if got < quantity {
            Err(AggregatorError::InsufficientLiquidity {
                side: BookSide::Asks,
                requested: quantity,
                available: got,
            })
        } else {
            Ok((raw + (UNITS_PER_COIN / 2) as u128) / (UNITS_PER_COIN as u128))
        }
    }

    /// The proceeds in cents of selling `quantity` units at market: the
    /// bids are met from the highest price down, and the sum of price times
    /// quantity taken is rounded to whole cents. Fails, with nothing
    /// partial returned, when the bids hold less than `quantity`.
    pub fn calculate_best_sell_offer(&self, quantity: u64) -> (r: Result<u128, AggregatorError>)
        ensures
            match r {
                Ok(cost) => quantity <= liquidity(self@.bids) && cost == round_to_cents(
                    fill_cost(fills(highest_first(self@.bids), quantity as nat)),
                ),
                Err(e) => quantity > liquidity(self@.bids) && e == (
                AggregatorError::InsufficientLiquidity {
                    side: BookSide::Bids,
                    requested: quantity,
                    available: liquidity(self@.bids) as u64,
                }),
            },
    {
        let (got, raw) = walk(&self.bids, true, quantity);
        proof {
            lemma_filled_fills(highest_first(self@.bids), quantity as nat);
            lemma_liquidity_highest_first(self@.bids);
        }
        if got < quantity {
            Err(AggregatorError::InsufficientLiquidity {
                side: BookSide::Bids,
                requested: quantity,
                available: got,
            })
        } else {
            Ok((raw + (UNITS_PER_COIN / 2) as u128) / (UNITS_PER_COIN as u128))
        }
    }

    /// Adds every level of `other` into this book, side by side: the
    /// quantities at a price that both books hold are summed, and levels at
    /// other prices are taken over as they are. `other` is left unchanged.
    pub fn merge(&mut self, other: &OrderBook)
        requires
            old(self).wf(),
            other.wf(),
            forall|p: u64| #[trigger] old(self).bid_at(p) + other.bid_at(p) <= u64::MAX,
            forall|p: u64| #[trigger] old(self).ask_at(p) + other.ask_at(p) <= u64::MAX,
        ensures
            final(self).is_sum_of(*old(self), *other),
    {
        assert forall|p: u64| #[trigger]
            quantity_at(self.bids@, p) + quantity_at(other.bids@, p) <= u64::MAX by {
            assert(old(self).bid_at(p) + other.bid_at(p) <= u64::MAX);
        }
        assert forall|p: u64| #[trigger]
            quantity_at(self.asks@, p) + quantity_at(other.asks@, p) <= u64::MAX by {
            assert(old(self).ask_at(p) + other.ask_at(p) <= u64::MAX);
        }
        merge_side(&mut self.bids, &other.bids);
        merge_side(&mut self.asks, &other.asks);
    }
}

/// A book is determined by where each side has levels and what they hold.
pub proof fn lemma_book_determined(a: OrderBook, b: OrderBook)
    requires
        a.wf(),
        b.wf(),
        forall|p: u64| #[trigger] has_level(a@.bids, p) == has_level(b@.bids, p),
        forall|p: u64| #[trigger] has_level(a@.asks, p) == has_level(b@.asks, p),
        forall|p: u64| #[trigger] a.bid_at(p) == b.bid_at(p),
        forall|p: u64| #[trigger] a.ask_at(p) == b.ask_at(p),
    ensures
        a@ == b@,
{
    assert forall|p: u64| #[trigger] quantity_at(a@.bids, p) == quantity_at(b@.bids, p) by {
        assert(a.bid_at(p) == b.bid_at(p));
    }
    assert forall|p: u64| #[trigger] quantity_at(a@.asks, p) == quantity_at(b@.asks, p) by {
        assert(a.ask_at(p) == b.ask_at(p));
    }
    lemma_side_determined(a@.bids, b@.bids);
    lemma_side_determined(a@.asks, b@.asks);
}

/// The quantities added on `side` by a sequence of additions.
pub open spec fn added_on(adds: Seq<(BookSide, u64)>, side: BookSide) -> nat
    decreases adds.len(),
{
    if adds.len() == 0 {
        0
    } else {
        added_on(adds.drop_last(), side) + if adds.last().0 == side {
            adds.last().1 as nat
        } else {
            0
        }
    }
}

/// Additions at one price accumulate and never overwrite: when each book of
/// `books` is the one before it with the next of `adds` made at `price`,
/// the last book holds at `price`, on each side, what the first held plus
/// the sum of the quantities added on that side.
pub proof fn lemma_adds_accumulate(books: Seq<OrderBook>, adds: Seq<(BookSide, u64)>, price: u64)
    requires
        books.len() == adds.len() + 1,
        forall|i: int|
            0 <= i < adds.len() ==> #[trigger] books[i + 1].is_after_add(
                books[i],
                adds[i].0,
                price,
                adds[i].1,
            ),
    ensures
        books.last().bid_at(price) == books[0].bid_at(price) + added_on(adds, BookSide::Bids),
        books.last().ask_at(price) == books[0].ask_at(price) + added_on(adds, BookSide::Asks),
    decreases adds.len(),
{
    if adds.len() > 0 {
        let n = adds.len() as int;
        let fewer = books.drop_last();
        assert forall|i: int| 0 <= i < n - 1 implies #[trigger] fewer[i + 1].is_after_add(
            fewer[i],
            adds.drop_last()[i].0,
            price,
            adds.drop_last()[i].1,
        ) by {
            assert(books[i + 1].is_after_add(books[i], adds[i].0, price, adds[i].1));
        }
        lemma_adds_accumulate(fewer, adds.drop_last(), price);
        assert(books[n].is_after_add(books[n - 1], adds[n - 1].0, price, adds[n - 1].1));
        let last = books[n];
        let prev = books[n - 1];
        if adds[n - 1].0 == BookSide::Bids {
            assert(last.bid_at(price) == prev.bid_at(price) + adds[n - 1].1);
            assert(last.ask_at(price) == prev.ask_at(price));
        } else {
            assert(last.ask_at(price) == prev.ask_at(price) + adds[n - 1].1);
            assert(last.bid_at(price) == prev.bid_at(price));
        }
    }
}

/// Merging into an empty book in either order gives the same book: with
/// `a` then `b` merged into `e`, and `b` then `a` into `e` again, both
/// results hold at each price, on each side, the sum of `a` and `b`, and
/// are equal.
pub proof fn lemma_merge_commutative(
    e: OrderBook,
    a: OrderBook,
    b: OrderBook,
    ea: OrderBook,
    eab: OrderBook,
    eb: OrderBook,
    eba: OrderBook,
)
    requires
        e.has_no_levels(),
        ea.is_sum_of(e, a),
        eab.is_sum_of(ea, b),
        eb.is_sum_of(e, b),
        eba.is_sum_of(eb, a),
    ensures
        forall|p: u64| #[trigger] eab.bid_at(p) == a.bid_at(p) + b.bid_at(p),
        forall|p: u64| #[trigger] eab.ask_at(p) == a.ask_at(p) + b.ask_at(p),
        forall|p: u64| #[trigger] eba.bid_at(p) == eab.bid_at(p),
        forall|p: u64| #[trigger] eba.ask_at(p) == eab.ask_at(p),
        eba@ == eab@,
{
    assert forall|p: u64| e.bid_at(p) == 0 && e.ask_at(p) == 0 && !has_level(e@.bids, p)
        && !has_level(e@.asks, p) by {}
    assert forall|p: u64| #[trigger] eab.bid_at(p) == a.bid_at(p) + b.bid_at(p) by {
        assert(ea.bid_at(p) == e.bid_at(p) + a.bid_at(p));
    }
    assert forall|p: u64| #[trigger] eab.ask_at(p) == a.ask_at(p) + b.ask_at(p) by {
        assert(ea.ask_at(p) == e.ask_at(p) + a.ask_at(p));
    }
    assert forall|p: u64| #[trigger] eba.bid_at(p) == eab.bid_at(p) by {
        assert(ea.bid_at(p) == e.bid_at(p) + a.bid_at(p));
        assert(eb.bid_at(p) == e.bid_at(p) + b.bid_at(p));
    }
    assert forall|p: u64| #[trigger] eba.ask_at(p) == eab.ask_at(p) by {
        assert(ea.ask_at(p) == e.ask_at(p) + a.ask_at(p));
        assert(eb.ask_at(p) == e.ask_at(p) + b.ask_at(p));
    }
    assert forall|p: u64| #[trigger] has_level(eba@.bids, p) == has_level(eab@.bids, p) by {
        assert(has_level(ea@.bids, p) == (has_level(e@.bids, p) || has_level(a@.bids, p)));
        assert(has_level(eb@.bids, p) == (has_level(e@.bids, p) || has_level(b@.bids, p)));
    }
    assert forall|p: u64| #[trigger] has_level(eba@.asks, p) == has_level(eab@.asks, p) by {
        assert(has_level(ea@.asks, p) == (has_level(e@.asks, p) || has_level(a@.asks, p)));
        assert(has_level(eb@.asks, p) == (has_level(e@.asks, p) || has_level(b@.asks, p)));
    }
    lemma_book_determined(eba, eab);
}

/// Merges can be grouped either way: `c` merged into the merge of `b` into
/// `a` is the same book as the merge of `c` into `b` merged into `a`.
pub proof fn lemma_merge_associative(
    a: OrderBook,
    b: OrderBook,
    c: OrderBook,
    ab: OrderBook,
    ab_c: OrderBook,
    bc: OrderBook,
    a_bc: OrderBook,
)
    requires
        ab.is_sum_of(a, b),
        ab_c.is_sum_of(ab, c),
        bc.is_sum_of(b, c),
        a_bc.is_sum_of(a, bc),
    ensures
        forall|p: u64| #[trigger] ab_c.bid_at(p) == a_bc.bid_at(p),
        forall|p: u64| #[trigger] ab_c.ask_at(p) == a_bc.ask_at(p),
        ab_c@ == a_bc@,
{
    assert forall|p: u64| #[trigger] ab_c.bid_at(p) == a_bc.bid_at(p) by {
        assert(ab.bid_at(p) == a.bid_at(p) + b.bid_at(p));
        assert(bc.bid_at(p) == b.bid_at(p) + c.bid_at(p));
    }
    assert forall|p: u64| #[trigger] ab_c.ask_at(p) == a_bc.ask_at(p) by {
        assert(ab.ask_at(p) == a.ask_at(p) + b.ask_at(p));
        assert(bc.ask_at(p) == b.ask_at(p) + c.ask_at(p));
    }
    assert forall|p: u64| #[trigger] has_level(ab_c@.bids, p) == has_level(a_bc@.bids, p) by {
        assert(has_level(ab@.bids, p) == (has_level(a@.bids, p) || has_level(b@.bids, p)));
        assert(has_level(bc@.bids, p) == (has_level(b@.bids, p) || has_level(c@.bids, p)));
    }
    assert forall|p: u64| #[trigger] has_level(ab_c@.asks, p) == has_level(a_bc@.asks, p) by {
        assert(has_level(ab@.asks, p) == (has_level(a@.asks, p) || has_level(b@.asks, p)));
        assert(has_level(bc@.asks, p) == (has_level(b@.asks, p) || has_level(c@.asks, p)));
    }
    lemma_book_determined(ab_c, a_bc);
}

/// A buy order meets the asks strictly from the lowest price up: its i-th
/// fill is at the i-th lowest ask, so each fill is dearer than the last.
pub proof fn lemma_buy_walk_ascending(book: OrderBook, quantity: nat)
    requires
        book.wf(),
    ensures
        ({
            let f = fills(book@.asks, quantity);
            &&& f.len() <= book@.asks.len()
            &&& forall|i: int| 0 <= i < f.len() ==> #[trigger] f[i].price == book@.asks[i].price
            &&& forall|i: int, j: int| 0 <= i < j < f.len() ==> f[i].price < f[j].price
        }),
{
    lemma_fills_follow_levels(book@.asks, quantity);
    let f = fills(book@.asks, quantity);
    assert forall|i: int, j: int| 0 <= i < j < f.len() implies f[i].price < f[j].price by {
        assert(f[i].price == book@.asks[i].price);
        assert(f[j].price == book@.asks[j].price);
    }
}

/// A sell order meets the bids strictly from the highest price down: its
/// i-th fill is at the i-th highest bid, so each fill is cheaper than the
/// last.
pub proof fn lemma_sell_walk_descending(book: OrderBook, quantity: nat)
    requires
        book.wf(),
    ensures
        ({
            let b = book@.bids;
            let f = fills(highest_first(b), quantity);
            &&& f.len() <= b.len()
            &&& forall|i: int|
                0 <= i < f.len() ==> #[trigger] f[i].price == b[b.len() - 1 - i].price
            &&& forall|i: int, j: int| 0 <= i < j < f.len() ==> f[i].price > f[j].price
        }),
{
    let b = book@.bids;
    let h = highest_first(b);
    lemma_fills_follow_levels(h, quantity);
    let f = fills(h, quantity);
    assert forall|i: int| 0 <= i < f.len() implies #[trigger] f[i].price == b[b.len() - 1
        - i].price by {
        assert(f[i].price == h[i].price);
    }
    assert forall|i: int, j: int| 0 <= i < j < f.len() implies f[i].price > f[j].price by {
        assert(f[i].price == h[i].price);
        assert(f[j].price == h[j].price);
        assert(b[b.len() - 1 - j].price < b[b.len() - 1 - i].price);
    }
}

} // verus!
