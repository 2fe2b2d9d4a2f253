use vstd::prelude::*;

use crate::side::Level;

verus! {

/// Quantity units per whole unit of the base asset.
pub const UNITS_PER_COIN: u64 = 100_000_000;

/// The part of a market order that is filled at one level: the level's
/// price and the quantity taken there.
#[derive(Clone, Copy, Debug, PartialEq, Eq, Structural)]
pub struct OrderDetails {
    pub price: u64,
    pub quantity: u64,
}

/// What an order for `wanted` units takes from `levels`, met in sequence
/// order: at each level the lesser of what is still wanted and what the
/// level holds, until nothing more is wanted or the levels run out.
pub open spec fn fills(levels: Seq<Level>, wanted: nat) -> Seq<OrderDetails>
    decreases levels.len(),
{
    if wanted == 0 || levels.len() == 0 {
        Seq::empty()
    } else {
        let take = if wanted <= levels[0].quantity {
            wanted
        } else {
            levels[0].quantity as nat
        };
        seq![OrderDetails { price: levels[0].price, quantity: take as u64 }] + fills(
            levels.drop_first(),
            (wanted - take) as nat,
        )
    }
}

/// The total quantity of some fills.
pub open spec fn filled(f: Seq<OrderDetails>) -> nat
    decreases f.len(),
{
    if f.len() == 0 {
        0
    } else {
        f[0].quantity as nat + filled(f.drop_first())
    }
}

/// The sum of price times quantity over some fills, in units of 10^-8 cents.
pub open spec fn fill_cost(f: Seq<OrderDetails>) -> nat
    decreases f.len(),
{
    if f.len() == 0 {
        0
    } else {
        (f[0].price as nat) * (f[0].quantity as nat) + fill_cost(f.drop_first())
    }
}

/// All the quantity that a side holds.
pub open spec fn liquidity(levels: Seq<Level>) -> nat
    decreases levels.len(),
{
    if levels.len() == 0 {
        0
    } else {
        liquidity(levels.drop_last()) + levels.last().quantity as nat
    }
}

/// The levels of a side from the highest price down.
pub open spec fn highest_first(levels: Seq<Level>) -> Seq<Level> {
    Seq::new(levels.len(), |i: int| levels[levels.len() - 1 - i])
}

/// An amount in units of 10^-8 cents rounded to whole cents, halves away
/// from zero.
pub open spec fn round_to_cents(raw: nat) -> nat {
    (raw + (UNITS_PER_COIN / 2) as nat) / (UNITS_PER_COIN as nat)
}

/// Walking from the front, the liquidity is the first level plus the rest.
pub proof fn lemma_liquidity_front(levels: Seq<Level>)
    requires
        levels.len() > 0,
    ensures
        liquidity(levels) == levels[0].quantity + liquidity(levels.drop_first()),
    decreases levels.len(),
{
    if levels.len() > 1 {
        let d = levels.drop_last();
        let t = levels.drop_first();
        lemma_liquidity_front(d);
        assert(d.drop_first() =~= t.drop_last());
        assert(t.last() == levels.last());
        assert(d[0] == levels[0]);
        assert(liquidity(t) == liquidity(t.drop_last()) + t.last().quantity as nat);
        assert(liquidity(levels) == liquidity(d) + levels.last().quantity as nat);
    } else {
        assert(levels.drop_last().len() == 0);
        assert(levels.drop_first().len() == 0);
        assert(liquidity(levels.drop_last()) == 0);
        assert(liquidity(levels.drop_first()) == 0);
    }
}

/// Reading a side from the highest price down leaves its liquidity as it is.
pub proof fn lemma_liquidity_highest_first(levels: Seq<Level>)
    ensures
        liquidity(highest_first(levels)) == liquidity(levels),
    decreases levels.len(),
{
    let h = highest_first(levels);
    if levels.len() > 0 {
        lemma_liquidity_front(h);
        lemma_liquidity_highest_first(levels.drop_last());
        assert(h.drop_first() =~= highest_first(levels.drop_last()));
    }
}

/// An order fills what it wants, or all the liquidity if that is less.
pub proof fn lemma_filled_fills(levels: Seq<Level>, wanted: nat)
    ensures
        filled(fills(levels, wanted)) == if wanted <= liquidity(levels) {
            wanted
        } else {
            liquidity(levels)
        },
    decreases levels.len(),
{
    if levels.len() > 0 {
        lemma_liquidity_front(levels);
        if wanted > 0 {
            let take = if wanted <= levels[0].quantity {
                wanted
            } else {
                levels[0].quantity as nat
            };
            let rest = fills(levels.drop_first(), (wanted - take) as nat);
            let f = seq![OrderDetails { price: levels[0].price, quantity: take as u64 }] + rest;
            assert(f.drop_first() =~= rest);
            lemma_filled_fills(levels.drop_first(), (wanted - take) as nat);
        }
    }
}

/// Meets an order for `wanted` units against `levels`, from the highest
/// price down when `highest` is set and from the lowest up otherwise, and
/// returns what was filled and what it cost in units of 10^-8 cents.
pub(crate) fn walk(levels: &Vec<Level>, highest: bool, wanted: u64) -> (r: (u64, u128))
    ensures
        ({
            let order = if highest {
                highest_first(levels@)
            } else {
                levels@
            };
            &&& r.0 as nat == filled(fills(order, wanted as nat))
            &&& r.1 as nat == fill_cost(fills(order, wanted as nat))
            &&& r.1 <= (u64::MAX as nat) * (u64::MAX as nat)
        }),
{
    let n = levels.len();
    let ghost order = if highest {
        highest_first(levels@)
    } else {
        levels@
    };
    let mut remaining: u64 = wanted;
    let mut cost: u128 = 0;
    let mut k: usize = 0;
    assert(order.skip(0) =~= order);
    while k < n && remaining > 0
        invariant
            n == levels@.len(),
            order.len() == n,
            order == if highest {
                highest_first(levels@)
            } else {
                levels@
            },
            k <= n,
            remaining <= wanted,
            filled(fills(order, wanted as nat)) == (wanted - remaining) + filled(
                fills(order.skip(k as int), remaining as nat),
            ),
            fill_cost(fills(order, wanted as nat)) == cost + fill_cost(
                fills(order.skip(k as int), remaining as nat),
            ),
            cost <= (u64::MAX as nat) * ((wanted - remaining) as nat),
        decreases n - k,
    {
        let lv = if highest {
            levels[n - 1 - k]
        } else {
            levels[k]
        };
        let take = if remaining <= lv.quantity {
            remaining
        } else {
            lv.quantity
        };
        proof {
            let rest = order.skip(k as int);
            assert(rest[0] == lv);
            assert(rest.drop_first() =~= order.skip(k + 1));
            let tail = fills(order.skip(k + 1), (remaining - take) as nat);
            let fd = OrderDetails { price: lv.price, quantity: take };
            assert(fills(rest, remaining as nat) == seq![fd] + tail);
            assert((seq![fd] + tail)[0] == fd);
            assert((seq![fd] + tail).drop_first() =~= tail);
            let spent = (wanted - remaining) as nat;
            assert((lv.price as nat) * (take as nat) <= (u64::MAX as nat) * (take as nat))
                by (nonlinear_arith)
                requires
                    lv.price <= u64::MAX,
            ;
            assert((u64::MAX as nat) * spent + (u64::MAX as nat) * (take as nat) == (
            u64::MAX as nat) * (spent + take)) by (nonlinear_arith);
            assert((u64::MAX as nat) * (spent + take) <= (u64::MAX as nat) * (u64::MAX as nat))
                by (nonlinear_arith)
                requires
                    spent + take <= u64::MAX,
            ;
        }
        cost = cost + (lv.price as u128) * (take as u128);
        remaining = remaining - take;
        k = k + 1;
    }
    proof {
        if remaining > 0 {
            assert(order.skip(k as int).len() == 0);
        }
        let spent = (wanted - remaining) as nat;
        let m = u64::MAX as nat;
        assert(spent <= m);
        assert(m * spent <= m * m) by (nonlinear_arith)
            requires
                spent <= m,
        ;
    }
    (wanted - remaining, cost)
}

/// The fills of an order follow the levels one by one: the i-th fill is at
/// the i-th level met.
pub proof fn lemma_fills_follow_levels(levels: Seq<Level>, wanted: nat)
    ensures
        fills(levels, wanted).len() <= levels.len(),
        forall|i: int|
            0 <= i < fills(levels, wanted).len() ==> #[trigger] fills(levels, wanted)[i].price
                == levels[i].price,
    decreases levels.len(),
{
    if wanted > 0 && levels.len() > 0 {
        let take = if wanted <= levels[0].quantity {
            wanted
        } else {
            levels[0].quantity as nat
        };
        let rest = fills(levels.drop_first(), (wanted - take) as nat);
        lemma_fills_follow_levels(levels.drop_first(), (wanted - take) as nat);
        let f = fills(levels, wanted);
        assert forall|i: int| 0 <= i < f.len() implies #[trigger] f[i].price == levels[i].price by {
            if i > 0 {
                assert(f[i] == rest[i - 1]);
                assert(levels.drop_first()[i - 1] == levels[i]);
            }
        }
    }
}

} // verus!
