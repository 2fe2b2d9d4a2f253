use vstd::prelude::*;

use crate::error::AggregatorError;
use crate::order_book::OrderBook;
use crate::side::has_level;
use crate::types::Product;

verus! {

/// What one provider's fetch came to.
#[derive(Debug)]
pub enum FetchOutcome {
    /// The provider delivered a book.
    Book(OrderBook),
    /// The provider failed, or its task ended abnormally.
    Failed,
}

/// The number of outcomes that delivered a book.
pub open spec fn successes(outcomes: Seq<FetchOutcome>) -> nat
    decreases outcomes.len(),
{
    if outcomes.len() == 0 {
        0
    } else {
        successes(outcomes.drop_last()) + if outcomes.last() is Book {
            1nat
        } else {
            0
        }
    }
}

/// The quantity bid at `price` over all the books delivered.
pub open spec fn total_bid_at(outcomes: Seq<FetchOutcome>, price: u64) -> nat
    decreases outcomes.len(),
{
    if outcomes.len() == 0 {
        0
    } else {
        total_bid_at(outcomes.drop_last(), price) + match outcomes.last() {
            FetchOutcome::Book(b) => b.bid_at(price),
            FetchOutcome::Failed => 0,
        }
    }
}

/// The quantity asked at `price` over all the books delivered.
pub open spec fn total_ask_at(outcomes: Seq<FetchOutcome>, price: u64) -> nat
    decreases outcomes.len(),
{
    if outcomes.len() == 0 {
        0
    } else {
        total_ask_at(outcomes.drop_last(), price) + match outcomes.last() {
            FetchOutcome::Book(b) => b.ask_at(price),
            FetchOutcome::Failed => 0,
        }
    }
}

/// Whether some book delivered has a bid at `price`.
pub open spec fn some_bid_at(outcomes: Seq<FetchOutcome>, price: u64) -> bool {
    exists|i: int|
        0 <= i < outcomes.len() && #[trigger] outcomes[i] is Book && has_level(
            outcomes[i]->Book_0@.bids,
            price,
        )
}

/// Whether some book delivered has an ask at `price`.
pub open spec fn some_ask_at(outcomes: Seq<FetchOutcome>, price: u64) -> bool {
    exists|i: int|
        0 <= i < outcomes.len() && #[trigger] outcomes[i] is Book && has_level(
            outcomes[i]->Book_0@.asks,
            price,
        )
}

/// Every book delivered is well formed.
pub open spec fn books_wf(outcomes: Seq<FetchOutcome>) -> bool {
    forall|i: int| 0 <= i < outcomes.len() && #[trigger] outcomes[i] is Book ==> outcomes[i]->Book_0.wf()
}

/// The totals at every price fit in `u64`.
pub open spec fn totals_fit(outcomes: Seq<FetchOutcome>) -> bool {
    &&& forall|p: u64| #[trigger] total_bid_at(outcomes, p) <= u64::MAX
    &&& forall|p: u64| #[trigger] total_ask_at(outcomes, p) <= u64::MAX
}

/// Taking in one more outcome adds its book, if any, to every total.
pub proof fn lemma_outcomes_push(outcomes: Seq<FetchOutcome>, o: FetchOutcome)
    ensures
        successes(outcomes.push(o)) == successes(outcomes) + if o is Book {
            1nat
        } else {
            0
        },
        forall|p: u64| #[trigger]
            total_bid_at(outcomes.push(o), p) == total_bid_at(outcomes, p) + match o {
                FetchOutcome::Book(b) => b.bid_at(p),
                FetchOutcome::Failed => 0,
            },
        forall|p: u64| #[trigger]
            total_ask_at(outcomes.push(o), p) == total_ask_at(outcomes, p) + match o {
                FetchOutcome::Book(b) => b.ask_at(p),
                FetchOutcome::Failed => 0,
            },
        forall|p: u64| #[trigger]
            some_bid_at(outcomes.push(o), p) == (some_bid_at(outcomes, p) || (o is Book
                && has_level(o->Book_0@.bids, p))),
        forall|p: u64| #[trigger]
            some_ask_at(outcomes.push(o), p) == (some_ask_at(outcomes, p) || (o is Book
                && has_level(o->Book_0@.asks, p))),
{
    let next = outcomes.push(o);
    let n = outcomes.len() as int;
    assert(next.drop_last() =~= outcomes);
    assert forall|p: u64| #[trigger]
        some_bid_at(next, p) == (some_bid_at(outcomes, p) || (o is Book && has_level(
            o->Book_0@.bids,
            p,
        ))) by {
        if some_bid_at(outcomes, p) {
            let i = choose|i: int|
                0 <= i < outcomes.len() && #[trigger] outcomes[i] is Book && has_level(
                    outcomes[i]->Book_0@.bids,
                    p,
                );
            assert(next[i] == outcomes[i]);
        }
        if o is Book && has_level(o->Book_0@.bids, p) {
            assert(next[n] == o);
        }
        if some_bid_at(next, p) {
            let i = choose|i: int|
                0 <= i < next.len() && #[trigger] next[i] is Book && has_level(
                    next[i]->Book_0@.bids,
                    p,
                );
            if i < n {
                assert(next[i] == outcomes[i]);
            }
        }
    }
    assert forall|p: u64| #[trigger]
        some_ask_at(next, p) == (some_ask_at(outcomes, p) || (o is Book && has_level(
            o->Book_0@.asks,
            p,
        ))) by {
        if some_ask_at(outcomes, p) {
            let i = choose|i: int|
                0 <= i < outcomes.len() && #[trigger] outcomes[i] is Book && has_level(
                    outcomes[i]->Book_0@.asks,
                    p,
                );
            assert(next[i] == outcomes[i]);
        }
        if o is Book && has_level(o->Book_0@.asks, p) {
            assert(next[n] == o);
        }
        if some_ask_at(next, p) {
            let i = choose|i: int|
                0 <= i < next.len() && #[trigger] next[i] is Book && has_level(
                    next[i]->Book_0@.asks,
                    p,
                );
            if i < n {
                assert(next[i] == outcomes[i]);
            }
        }
    }
}

/// The totals over the first `j` outcomes are at most those over all of
/// them, and so is the count of successes.
pub proof fn lemma_totals_prefix(outcomes: Seq<FetchOutcome>, j: int)
    requires
        0 <= j <= outcomes.len(),
    ensures
        successes(outcomes.take(j)) <= j,
        forall|p: u64| #[trigger]
            total_bid_at(outcomes.take(j), p) <= total_bid_at(outcomes, p),
        forall|p: u64| #[trigger]
            total_ask_at(outcomes.take(j), p) <= total_ask_at(outcomes, p),
    decreases outcomes.len(),
{
    if j < outcomes.len() {
        let d = outcomes.drop_last();
        assert(d.take(j) =~= outcomes.take(j));
        lemma_totals_prefix(d, j);
        assert forall|p: u64| #[trigger]
            total_bid_at(outcomes.take(j), p) <= total_bid_at(outcomes, p) by {
            assert(total_bid_at(d.take(j), p) <= total_bid_at(d, p));
        }
        assert forall|p: u64| #[trigger]
            total_ask_at(outcomes.take(j), p) <= total_ask_at(outcomes, p) by {
            assert(total_ask_at(d.take(j), p) <= total_ask_at(d, p));
        }
    } else {
        assert(outcomes.take(j) =~= outcomes);
        lemma_successes_bound(outcomes);
    }
}

proof fn lemma_successes_bound(outcomes: Seq<FetchOutcome>)
    ensures
        successes(outcomes) <= outcomes.len(),
    decreases outcomes.len(),
{
    if outcomes.len() > 0 {
        lemma_successes_bound(outcomes.drop_last());
    }
}

/// One aggregation for one product while the outcomes of its providers
/// come in: the first book delivered seeds the consolidated book, each
/// later one is merged into it, and failures leave it as it is.
pub struct OrderBookAggregator {
    product_id: Product,
    book: OrderBook,
    succeeded: usize,
}

impl OrderBookAggregator {
    pub closed spec fn spec_product_id(&self) -> Product {
        self.product_id
    }

    /// The consolidated book so far.
    pub closed spec fn spec_book(&self) -> OrderBook {
        self.book
    }

    /// How many providers have delivered a book so far.
    pub closed spec fn spec_succeeded(&self) -> nat {
        self.succeeded as nat
    }

    pub open spec fn wf(&self) -> bool {
        &&& self.spec_book().wf()
        &&& self.spec_succeeded() == 0 ==> self.spec_book().has_no_levels()
    }

    /// An aggregation for `product_id` that has seen no outcome yet.
    pub fn new(product_id: Product) -> (r: OrderBookAggregator)
        ensures
            r.wf(),
            r.spec_product_id() == product_id,
            r.spec_succeeded() == 0,
    {
        OrderBookAggregator { product_id, book: OrderBook::new(), succeeded: 0 }
    }

    /// The product that the providers are asked for.
    pub fn product_id(&self) -> (r: Product)
        ensures
            r == self.spec_product_id(),
    {
        self.product_id
    }

    /// How many providers have delivered a book so far.
    pub fn succeeded(&self) -> (r: usize)
        ensures
            r == self.spec_succeeded(),
    {
        self.succeeded
    }

    /// The consolidated book so far.
    pub fn book(&self) -> (r: &OrderBook)
        ensures
            *r == self.spec_book(),
    {
        &self.book
    }

    /// Takes in the outcome of one provider.
    pub fn record(&mut self, outcome: FetchOutcome)
        requires
            old(self).wf(),
            old(self).spec_succeeded() < usize::MAX,
            outcome is Book ==> outcome->Book_0.wf(),
            outcome is Book ==> forall|p: u64|
                #[trigger] old(self).spec_book().bid_at(p) + outcome->Book_0.bid_at(p)
                    <= u64::MAX,
            outcome is Book ==> forall|p: u64|
                #[trigger] old(self).spec_book().ask_at(p) + outcome->Book_0.ask_at(p)
                    <= u64::MAX,
        ensures
            final(self).wf(),
            final(self).spec_product_id() == old(self).spec_product_id(),
            match outcome {
                FetchOutcome::Book(b) => {
                    &&& final(self).spec_succeeded() == old(self).spec_succeeded() + 1
                    &&& final(self).spec_book().is_sum_of(old(self).spec_book(), b)
                    &&& old(self).spec_succeeded() == 0 ==> final(self).spec_book() == b
                },
                FetchOutcome::Failed => *final(self) == *old(self),
            },
    {
        match outcome {
            FetchOutcome::Book(b) => {
                if self.succeeded == 0 {
                    proof {
                        assert forall|p: u64| #[trigger] old(self).spec_book().bid_at(p) == 0 by {}
                        assert forall|p: u64| #[trigger] old(self).spec_book().ask_at(p) == 0 by {}
                    }
                    self.book = b;
                } else {
                    self.book.merge(&b);
                }
                self.succeeded = self.succeeded + 1;
            },
            FetchOutcome::Failed => {},
        }
    }

    /// Ends the aggregation: the consolidated book when at least one
    /// provider delivered, `AggregationFailed` when none did.
    pub fn finish(self) -> (r: Result<OrderBook, AggregatorError>)
        requires
            self.wf(),
        ensures
            match r {
                Ok(b) => self.spec_succeeded() > 0 && b == self.spec_book(),
                Err(e) => self.spec_succeeded() == 0 && e == AggregatorError::AggregationFailed,
            },
    {
        if self.succeeded == 0 {
            Err(AggregatorError::AggregationFailed)
        } else {
            Ok(self.book)
        }
    }
}

/// Consolidates the outcomes of all providers for `product_id`: fails with
/// `AggregationFailed` exactly when no provider delivered a book, and
/// otherwise returns a book whose quantity at each price, on each side, is
/// the sum over the books delivered; failed providers add nothing.
pub fn aggregate(product_id: Product, outcomes: Vec<FetchOutcome>) -> (r: Result<
    OrderBook,
    AggregatorError,
>)
    requires
        books_wf(outcomes@),
        totals_fit(outcomes@),
    ensures
        match r {
            Ok(b) => {
                &&& successes(outcomes@) > 0
                &&& b.wf()
                &&& forall|p: u64| #[trigger] b.bid_at(p) == total_bid_at(outcomes@, p)
                &&& forall|p: u64| #[trigger] b.ask_at(p) == total_ask_at(outcomes@, p)
                &&& forall|p: u64| #[trigger] has_level(b@.bids, p) == some_bid_at(outcomes@, p)
                &&& forall|p: u64| #[trigger] has_level(b@.asks, p) == some_ask_at(outcomes@, p)
            },
            Err(e) => successes(outcomes@) == 0 && e == AggregatorError::AggregationFailed,
        },
{
    let ghost all = outcomes@;
    let count = outcomes.len();
    let mut acc = OrderBookAggregator::new(product_id);
    let mut rest = outcomes;
    let ghost mut k: int = 0;
    proof {
        assert(all.take(0) =~= Seq::<FetchOutcome>::empty());
        assert(all.skip(0) =~= all);
    }
    while rest.len() > 0
        invariant
            books_wf(all),
            totals_fit(all),
            0 <= k <= all.len(),
            all.len() == count,
            rest@ == all.skip(k),
            acc.wf(),
            acc.spec_succeeded() == successes(all.take(k)),
            successes(all.take(k)) <= k,
            forall|p: u64| #[trigger] acc.spec_book().bid_at(p) == total_bid_at(all.take(k), p),
            forall|p: u64| #[trigger] acc.spec_book().ask_at(p) == total_ask_at(all.take(k), p),
            forall|p: u64|
                #[trigger] has_level(acc.spec_book()@.bids, p) == some_bid_at(all.take(k), p),
            forall|p: u64|
                #[trigger] has_level(acc.spec_book()@.asks, p) == some_ask_at(all.take(k), p),
        decreases rest@.len(),
    {
        let outcome = rest.remove(0);
        proof {
            assert(outcome == all[k]);
            assert(rest@ =~= all.skip(k + 1));
            lemma_outcomes_push(all.take(k), outcome);
            assert(all.take(k + 1) =~= all.take(k).push(outcome));
            lemma_totals_prefix(all, k + 1);
            if outcome is Book {
                assert(outcome->Book_0.wf());
                assert forall|p: u64| #[trigger]
                    acc.spec_book().bid_at(p) + outcome->Book_0.bid_at(p) <= u64::MAX by {
                    assert(total_bid_at(all.take(k + 1), p) <= total_bid_at(all, p));
                }
                assert forall|p: u64| #[trigger]
                    acc.spec_book().ask_at(p) + outcome->Book_0.ask_at(p) <= u64::MAX by {
                    assert(total_ask_at(all.take(k + 1), p) <= total_ask_at(all, p));
                }
            }
        }
        acc.record(outcome);
        proof {
            k = k + 1;
        }
    }
    proof {
        assert(all.take(k) =~= all);
    }
    acc.finish()
}

} // verus!
