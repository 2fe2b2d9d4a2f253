use vstd::prelude::*;

verus! {

/// One price point of one side of a book: a price in cents and the
/// cumulative quantity offered there, in units of 10^-8.
#[derive(Clone, Copy, Debug, PartialEq, Eq, Structural)]
pub struct Level {
    pub price: u64,
    pub quantity: u64,
}

/// Prices strictly ascending, hence each price at most once.
pub open spec fn ascending(levels: Seq<Level>) -> bool {
    forall|i: int, j: int| 0 <= i < j < levels.len() ==> levels[i].price < levels[j].price
}

/// Whether a side has a level at `price`.
pub open spec fn has_level(levels: Seq<Level>, price: u64) -> bool {
    exists|i: int| 0 <= i < levels.len() && levels[i].price == price
}

/// The quantity that a side offers at `price`: zero where it has no level.
pub open spec fn quantity_at(levels: Seq<Level>, price: u64) -> nat {
    if has_level(levels, price) {
        levels[choose|i: int| 0 <= i < levels.len() && levels[i].price == price].quantity as nat
    } else {
        0
    }
}

/// On an ascending side the quantity at a level's price is that level's.
pub proof fn lemma_quantity_at_index(levels: Seq<Level>, i: int)
    requires
        ascending(levels),
        0 <= i < levels.len(),
    ensures
        has_level(levels, levels[i].price),
        quantity_at(levels, levels[i].price) == levels[i].quantity,
{
    let p = levels[i].price;
    assert(has_level(levels, p));
    let j = choose|j: int| 0 <= j < levels.len() && levels[j].price == p;
    assert(j == i);
}

/// Appending a level above every price of an ascending side adds exactly
/// that level.
pub proof fn lemma_push_level(s: Seq<Level>, lv: Level)
    requires
        ascending(s.push(lv)),
    ensures
        forall|p: u64| #[trigger] has_level(s.push(lv), p) == (has_level(s, p) || p == lv.price),
        forall|p: u64| #[trigger]
            quantity_at(s.push(lv), p) == quantity_at(s, p) + if p == lv.price {
                lv.quantity as nat
            } else {
                0
            },
{
    let t = s.push(lv);
    let n = s.len() as int;
    assert forall|j: int| 0 <= j < n implies #[trigger] s[j] == t[j] && t[j].price < lv.price by {
        assert(t[j] == s[j]);
        assert(t[n] == lv);
        assert(t[j].price < t[n].price);
    }
    assert(ascending(s)) by {
        assert forall|a: int, b: int| 0 <= a < b < s.len() implies s[a].price < s[b].price by {
            assert(t[a] == s[a] && t[b] == s[b]);
        }
    }
    assert forall|p: u64| #[trigger] has_level(t, p) == (has_level(s, p) || p == lv.price) by {
        if has_level(s, p) {
            let j = choose|j: int| 0 <= j < s.len() && s[j].price == p;
            assert(t[j].price == p);
        }
        if p == lv.price {
            assert(t[n].price == p);
        }
        if has_level(t, p) && p != lv.price {
            let j = choose|j: int| 0 <= j < t.len() && t[j].price == p;
            assert(s[j].price == p);
        }
    }
    assert forall|p: u64| #[trigger]
        quantity_at(t, p) == quantity_at(s, p) + if p == lv.price {
            lv.quantity as nat
        } else {
            0
        } by {
        lemma_quantity_at_index(t, n);
        if p == lv.price {
            assert(!has_level(s, p));
        } else if has_level(s, p) {
            let j = choose|j: int| 0 <= j < s.len() && s[j].price == p;
            lemma_quantity_at_index(s, j);
            lemma_quantity_at_index(t, j);
        }
    }
}

/// Adds every level of the ascending side `src` into the ascending side
/// `levels`.
pub(crate) fn merge_side(levels: &mut Vec<Level>, src: &Vec<Level>)
    requires
        ascending(old(levels)@),
        ascending(src@),
        forall|p: u64| #[trigger] quantity_at(old(levels)@, p) + quantity_at(src@, p) <= u64::MAX,
    ensures
        ascending(final(levels)@),
        forall|p: u64|
            #![trigger has_level(final(levels)@, p)]
            has_level(final(levels)@, p) == (has_level(old(levels)@, p) || has_level(src@, p)),
        forall|p: u64| #[trigger]
            quantity_at(final(levels)@, p) == quantity_at(old(levels)@, p) + quantity_at(src@, p),
{
    let ghost s0 = levels@;
    let mut k: usize = 0;
    assert(src@.take(0) =~= Seq::<Level>::empty());
    while k < src.len()
        invariant
            k <= src@.len(),
            ascending(src@),
            ascending(levels@),
            forall|p: u64| #[trigger] quantity_at(s0, p) + quantity_at(src@, p) <= u64::MAX,
            forall|p: u64|
                #![trigger has_level(levels@, p)]
                has_level(levels@, p) == (has_level(s0, p) || has_level(src@.take(k as int), p)),
            forall|p: u64| #[trigger]
                quantity_at(levels@, p) == quantity_at(s0, p) + quantity_at(
                    src@.take(k as int),
                    p,
                ),
        decreases src@.len() - k,
    {
        let lv = src[k];
        let ghost pre = src@.take(k as int);
        let ghost next = src@.take(k + 1);
        assert(next =~= pre.push(lv));
        assert(ascending(next));
        proof {
            lemma_push_level(pre, lv);
            lemma_quantity_at_index(src@, k as int);
        }
        add_to_side(levels, lv.price, lv.quantity);
        k = k + 1;
    }
    assert(src@.take(src@.len() as int) =~= src@);
}

/// The quantity that an ascending side offers at `price`.
pub(crate) fn side_quantity(levels: &Vec<Level>, price: u64) -> (r: u64)
    requires
        ascending(levels@),
    ensures
        r == quantity_at(levels@, price),
{
    let mut i: usize = 0;
    while i < levels.len()
        invariant
            ascending(levels@),
            i <= levels@.len(),
            forall|j: int| 0 <= j < i ==> levels@[j].price != price,
        decreases levels@.len() - i,
    {
        if levels[i].price == price {
            proof {
                lemma_quantity_at_index(levels@, i as int);
            }
            return levels[i].quantity;
        }
        i = i + 1;
    }
    0
}

/// Adds `quantity` at `price` on an ascending side, keeping it ascending.
pub(crate) fn add_to_side(levels: &mut Vec<Level>, price: u64, quantity: u64)
    requires
        ascending(old(levels)@),
        quantity_at(old(levels)@, price) + quantity <= u64::MAX,
    ensures
        ascending(final(levels)@),
        forall|p: u64|
            #![trigger has_level(final(levels)@, p)]
            has_level(final(levels)@, p) == (has_level(old(levels)@, p) || p == price),
        forall|p: u64|
            #![trigger quantity_at(final(levels)@, p)]
            quantity_at(final(levels)@, p) == quantity_at(old(levels)@, p) + if p == price {
                quantity as nat
            } else {
                0
            },
{
    let ghost s = levels@;
    let mut i: usize = 0;
    while i < levels.len() && levels[i].price < price
        invariant
            levels@ == s,
            i <= s.len(),
            forall|j: int| 0 <= j < i ==> s[j].price < price,
        decreases s.len() - i,
    {
        i = i + 1;
    }
    if i < levels.len() && levels[i].price == price {
        let old_level = levels[i];
        proof {
            lemma_quantity_at_index(s, i as int);
        }
        levels.set(i, Level { price, quantity: old_level.quantity + quantity });
        let ghost t = levels@;
        assert(t == s.update(i as int, Level { price, quantity: (old_level.quantity + quantity) as u64 }));
        assert forall|p: u64| #[trigger] has_level(t, p) == (has_level(s, p) || p == price) by {
            if has_level(s, p) {
                let j = choose|j: int| 0 <= j < s.len() && s[j].price == p;
                assert(t[j].price == p);
            }
            if has_level(t, p) {
                let j = choose|j: int| 0 <= j < t.len() && t[j].price == p;
                assert(s[j].price == p);
            }
        }
        assert forall|p: u64| #[trigger]
            quantity_at(t, p) == quantity_at(s, p) + if p == price {
                quantity as nat
            } else {
                0
            } by {
            lemma_quantity_at_index(t, i as int);
            if p != price && has_level(s, p) {
                let j = choose|j: int| 0 <= j < s.len() && s[j].price == p;
                lemma_quantity_at_index(s, j);
                lemma_quantity_at_index(t, j);
            }
        }
    } else {
        levels.insert(i, Level { price, quantity });
        let ghost t = levels@;
        let ghost lv = Level { price, quantity };
        assert(t == s.insert(i as int, lv));
        assert(ascending(t)) by {
            assert forall|a: int, b: int| 0 <= a < b < t.len() implies t[a].price < t[b].price by {
                if b < i {
                } else if b == i {
                } else if a < i {
                    assert(t[b] == s[b - 1]);
                } else if a == i {
                    assert(t[b] == s[b - 1]);
                    assert(s[i as int].price >= price);
                } else {
                    assert(t[a] == s[a - 1]);
                    assert(t[b] == s[b - 1]);
                }
            }
        }
        assert(!has_level(s, price)) by {
            if has_level(s, price) {
                let j = choose|j: int| 0 <= j < s.len() && s[j].price == price;
                if j >= i {
                    assert(s[i as int].price <= s[j].price);
                }
            }
        }
        assert forall|p: u64| #[trigger] has_level(t, p) == (has_level(s, p) || p == price) by {
            if has_level(s, p) {
                let j = choose|j: int| 0 <= j < s.len() && s[j].price == p;
                if j < i {
                    assert(t[j].price == p);
                } else {
                    assert(t[j + 1].price == p);
                }
            }
            if p == price {
                assert(t[i as int].price == p);
            }
            if has_level(t, p) && p != price {
                let j = choose|j: int| 0 <= j < t.len() && t[j].price == p;
                if j < i {
                    assert(s[j].price == p);
                } else {
                    assert(s[j - 1].price == p);
                }
            }
        }
        assert forall|p: u64| #[trigger]
            quantity_at(t, p) == quantity_at(s, p) + if p == price {
                quantity as nat
            } else {
                0
            } by {
            lemma_quantity_at_index(t, i as int);
            if p != price && has_level(s, p) {
                let j = choose|j: int| 0 <= j < s.len() && s[j].price == p;
                lemma_quantity_at_index(s, j);
                if j < i {
                    lemma_quantity_at_index(t, j);
                } else {
                    lemma_quantity_at_index(t, j + 1);
                }
            }
        }
    }
}

/// An ascending side is determined by where it has levels and what they
/// hold.
pub proof fn lemma_side_determined(s: Seq<Level>, t: Seq<Level>)
    requires
        ascending(s),
        ascending(t),
        forall|p: u64|
            #![trigger has_level(s, p)]
            #![trigger has_level(t, p)]
            has_level(s, p) == has_level(t, p),
        forall|p: u64|
            #![trigger quantity_at(s, p)]
            #![trigger quantity_at(t, p)]
            quantity_at(s, p) == quantity_at(t, p),
    ensures
        s == t,
    decreases s.len() + t.len(),
{
    if s.len() == 0 || t.len() == 0 {
        if t.len() > 0 {
            assert(has_level(t, t[0].price));
        }
        if s.len() > 0 {
            assert(has_level(s, s[0].price));
        }
        assert(s =~= t);
    } else {
        let ns = s.len() - 1;
        let nt = t.len() - 1;
        let ps = s[ns].price;
        let pt = t[nt].price;
        assert(has_level(s, ps));
        assert(has_level(t, pt));
        let j = choose|j: int| 0 <= j < t.len() && t[j].price == ps;
        let i = choose|i: int| 0 <= i < s.len() && s[i].price == pt;
        assert(ps == pt);
        lemma_quantity_at_index(s, ns);
        lemma_quantity_at_index(t, nt);
        let s2 = s.drop_last();
        let t2 = t.drop_last();
        lemma_drop_last_level(s);
        lemma_drop_last_level(t);
        lemma_side_determined(s2, t2);
        assert(s =~= s2.push(s[ns]));
        assert(t =~= t2.push(t[nt]));
    }
}

/// Dropping the highest level of an ascending side removes its price and
/// nothing else.
proof fn lemma_drop_last_level(s: Seq<Level>)
    requires
        ascending(s),
        s.len() > 0,
    ensures
        ascending(s.drop_last()),
        forall|p: u64| #[trigger]
            has_level(s.drop_last(), p) == (has_level(s, p) && p != s.last().price),
        forall|p: u64| #[trigger]
            quantity_at(s.drop_last(), p) == if p == s.last().price {
                0
            } else {
                quantity_at(s, p)
            },
{
    let d = s.drop_last();
    assert(s =~= d.push(s.last()));
    lemma_push_level(d, s.last());
}

} // verus!
