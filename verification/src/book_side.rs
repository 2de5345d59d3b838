//! One side of a book: its price levels.

use crate::ladder::{
    best, depth, ladder, lemma_best_is, lemma_increasing_is_best_first, lemma_ladder_is,
    lemma_sum_of_totals_grows, reachable, runs_best_first, sum_of_totals,
};
use crate::order::{Order, Price, Quantity, Side};
use crate::price_level::{Level, PriceLevel};
use std::collections::BTreeMap;
use vstd::prelude::*;
use vstd::std_specs::btree::increasing_seq;

verus! {

/// The price levels of one side of a book.
pub struct BookSide {
    pub(crate) levels: BTreeMap<Price, PriceLevel>,
}

impl View for BookSide {
    type V = Map<Price, Level>;

    closed spec fn view(&self) -> Map<Price, Level> {
        self.levels@.map_values(|level: PriceLevel| level@)
    }
}

/// The level at `price`, or an empty one where there is none.
pub open spec fn level_at(levels: Map<Price, Level>, price: Price) -> Level {
    if levels.contains_key(price) {
        levels[price]
    } else {
        Level::empty(price)
    }
}

/// The orders that rest at a price, if any.
pub open spec fn queue_at(levels: Map<Price, Level>, price: Price) -> Seq<Order> {
    if levels.contains_key(price) {
        levels[price].orders
    } else {
        Seq::empty()
    }
}

/// Levels without the time stamps of their orders.
pub open spec fn unstamped_levels(levels: Map<Price, Level>) -> Map<Price, Level> {
    levels.map_values(|level: Level| level.unstamped())
}

impl BookSide {
    /// A side without levels.
    pub fn new() -> (side: Self)
        ensures
            side@ == Map::<Price, Level>::empty(),
    {
        let side = Self { levels: BTreeMap::new() };
        assert(side@ =~= Map::<Price, Level>::empty());
        side
    }

    /// The prices of all levels, the lowest one first.
    pub(crate) fn prices(&self) -> (prices: Vec<Price>)
        ensures
            prices@ == ladder(self@.dom(), Side::Ask),
            runs_best_first(prices@, Side::Ask),
            forall|price: Price| self@.contains_key(price) <==> prices@.contains(price),
            self@.dom().finite(),
    {
        let mut prices: Vec<Price> = Vec::new();
        for entry in iter: self.levels.iter()
            invariant
                increasing_seq(iter.seq().map_values(|kv: (&Price, &PriceLevel)| *kv.0)),
                forall|i: int|
                    0 <= i < iter.seq().len() ==> self.levels@.contains_key(
                        *(#[trigger] iter.seq()[i]).0,
                    ),
                forall|key: Price| #[trigger]
                    self.levels@.contains_key(key) ==> iter.seq().contains(
                        (&key, &self.levels@[key]),
                    ),
                prices@.len() == iter.index(),
                forall|i: int| 0 <= i < iter.index() ==> prices@[i] == *iter.seq()[i].0,
                runs_best_first(prices@, Side::Ask),
                iter.index() == iter.seq().len() ==> forall|key: Price| #[trigger]
                    self.levels@.contains_key(key) ==> prices@.contains(key),
        {
            let ghost before = prices@;
            prices.push(*entry.0);
            proof {
                let keys = iter.seq().map_values(|kv: (&Price, &PriceLevel)| *kv.0);
                lemma_increasing_is_best_first(keys);
                assert forall|i: int| 0 <= i < before.len() implies before[i] < *entry.0 by {
                    assert(Side::Ask.prefers(keys[i], keys[before.len() as int]));
                }
                assert forall|key: Price|
                    prices@.len() == iter.seq().len()
                        && #[trigger] self.levels@.contains_key(key) implies prices@.contains(
                    key,
                ) by {
                    let i = iter.seq().index_of((&key, &self.levels@[key]));
                    assert(prices@[i] == key);
                }
            }
        }
        proof {
            assert(self@.dom() =~= self.levels@.dom());
            lemma_ladder_is(prices@, self@.dom(), Side::Ask);
        }
        prices
    }

    /// The best price: the highest one of bids, the lowest one of asks.
    pub fn best_price(&self, side: Side) -> (r: Option<Price>)
        ensures
            r == best(self@.dom(), side),
            r is None <==> self@.dom() == Set::<Price>::empty(),
            r matches Some(price) ==> self@.contains_key(price) && forall|other: Price| #[trigger]
                self@.contains_key(other) ==> (side is Bid ==> other <= price) && (side is Ask
                    ==> price <= other),
    {
        let prices = self.prices();
        if prices.len() == 0 {
            assert forall|price: Price| !self@.contains_key(price) by {
                assert(!prices@.contains(price));
            }
            assert(self@.dom() =~= Set::<Price>::empty());
            return None;
        }
        let price: Price = match side {
            Side::Bid => prices[prices.len() - 1],
            Side::Ask => prices[0],
        };
        proof {
            assert(prices@.contains(price));
            assert forall|other: Price| self@.contains_key(other) implies !side.prefers(
                other,
                price,
            ) by {
                assert(prices@.contains(other));
                let i = prices@.index_of(other);
                assert(prices@[i] == other);
                assert(0 < i ==> Side::Ask.prefers(prices@[0], prices@[i]));
                assert(i < prices@.len() - 1 ==> Side::Ask.prefers(
                    prices@[i],
                    prices@[prices@.len() - 1],
                ));
            }
            lemma_best_is(self@.dom(), side, price);
        }
        Some(price)
    }

    /// The prices of this side that an incoming order limited to `limit`
    /// accepts, the best one first. `side` says which side this is.
    pub(crate) fn reachable_prices(&self, side: Side, limit: Option<Price>) -> (reached: Vec<Price>)
        ensures
            reached@ == ladder(reachable(self@.dom(), side, limit), side),
    {
        let prices = self.prices();
        let taker = side.opposite();
        let mut reached: Vec<Price> = Vec::new();
        let mut i: usize = 0;
        let ghost wanted = reachable(self@.dom(), side, limit);
        while i < prices.len()
            invariant
                i <= prices@.len(),
                taker == side.other(),
                wanted == reachable(self@.dom(), side, limit),
                runs_best_first(prices@, Side::Ask),
                forall|price: Price| self@.contains_key(price) <==> prices@.contains(price),
                runs_best_first(reached@, side),
                forall|k: int|
                    0 <= k < reached@.len() ==> prices@.contains(#[trigger] reached@[k])
                        && wanted.contains(reached@[k]),
                match side {
                    Side::Ask => {
                        &&& forall|k: int, l: int|
                            0 <= k < reached@.len() && i <= l < prices@.len() ==> reached@[k]
                                < prices@[l]
                        &&& forall|l: int|
                            0 <= l < i && wanted.contains(prices@[l]) ==> reached@.contains(
                                #[trigger] prices@[l],
                            )
                    },
                    Side::Bid => {
                        &&& forall|k: int, l: int|
                            0 <= k < reached@.len() && 0 <= l < prices@.len() - i ==> reached@[k]
                                > prices@[l]
                        &&& forall|l: int|
                            prices@.len() - i <= l < prices@.len() && wanted.contains(prices@[l])
                                ==> reached@.contains(#[trigger] prices@[l])
                    },
                },
            decreases prices@.len() - i,
        {
            let at: usize = match side {
                Side::Bid => prices.len() - 1 - i,
                Side::Ask => i,
            };
            let price: Price = prices[at];
            let accepted = match limit {
                Some(limit) => taker.reaches(limit, price),
                None => true,
            };
            let ghost before = reached@;
            assert(prices@.contains(price));
            if accepted {
                reached.push(price);
                assert(reached@[before.len() as int] == price);
                assert forall|p: Price| before.contains(p) implies reached@.contains(p) by {
                    let k = before.index_of(p);
                    assert(reached@[k] == p);
                }
            }
            proof {
                assert forall|l: int| at < l < prices@.len() implies price < prices@[l] by {
                    assert(Side::Ask.prefers(prices@[at as int], prices@[l]));
                }
                assert forall|l: int| 0 <= l < at implies prices@[l] < price by {
                    assert(Side::Ask.prefers(prices@[l], prices@[at as int]));
                }
            }
            i += 1;
        }
        proof {
            assert forall|price: Price| wanted.contains(price) <==> reached@.contains(price) by {
                if wanted.contains(price) {
                    assert(self@.contains_key(price));
                    assert(prices@.contains(price));
                    let l = prices@.index_of(price);
                    assert(prices@[l] == price);
                }
                if reached@.contains(price) {
                    let k = reached@.index_of(price);
                    assert(wanted.contains(reached@[k]));
                }
            }
            lemma_ladder_is(reached@, wanted, side);
        }
        reached
    }

    /// The total quantities kept for the levels of this side, added up, if the
    /// sum is a quantity.
    pub(crate) fn checked_total_quantity(&self) -> (r: Option<Quantity>)
        ensures
            match r {
                Some(total) => total == depth(self@),
                None => depth(self@) > u64::MAX,
            },
    {
        let prices = self.prices();
        let mut total: u64 = 0;
        let mut i: usize = 0;
        while i < prices.len()
            invariant
                i <= prices@.len(),
                prices@ == ladder(self@.dom(), Side::Ask),
                forall|price: Price| self@.contains_key(price) <==> prices@.contains(price),
                total == sum_of_totals(self@, prices@.take(i as int)),
            decreases prices@.len() - i,
        {
            proof {
                assert(prices@.contains(prices@[i as int]));
                assert(prices@.take(i + 1).drop_last() =~= prices@.take(i as int));
                lemma_sum_of_totals_grows(self@, prices@, i + 1);
            }
            if let Some(level) = self.levels.get(&prices[i]) {
                match total.checked_add(level.get_total_quantity()) {
                    Some(sum) => total = sum,
                    None => return None,
                }
            }
            i += 1;
        }
        assert(prices@.take(i as int) =~= prices@);
        Some(total)
    }

    /// Puts an order at the end of the level at its price, which is created
    /// where it does not exist.
    pub fn insert(&mut self, order: Order)
        ensures
            final(self)@ == old(self)@.insert(
                order.price,
                level_at(old(self)@, order.price).pushed(order),
            ),
    {
        let _level = self.get_or_create_level(order.price);
        if let Some(mut level) = self.take_level(order.price) {
            level.push_order(order);
            self.put_level(order.price, level);
        }
        assert(self@ =~= old(self)@.insert(
            order.price,
            level_at(old(self)@, order.price).pushed(order),
        ));
    }

    /// Removes the level at `price` if nothing rests on it.
    pub fn remove_level_if_empty(&mut self, price: Price)
        ensures
            final(self)@ == if old(self)@.contains_key(price) && old(self)@[price].orders.len()
                == 0 {
                old(self)@.remove(price)
            } else {
                old(self)@
            },
    {
        let is_empty = match self.levels.get(&price) {
            Some(level) => level.is_empty(),
            None => false,
        };
        if is_empty {
            self.levels.remove(&price);
            assert(self@ =~= old(self)@.remove(price));
        }
    }

    /// The level at `price`, which is created where it does not exist. It stays
    /// on this side.
    fn get_or_create_level(&mut self, price: Price) -> (level: &PriceLevel)
        ensures
            level@ == level_at(old(self)@, price),
            final(self)@ == old(self)@.insert(price, level_at(old(self)@, price)),
    {
        if !self.levels.contains_key(&price) {
            self.put_level(price, PriceLevel::new(price));
        }
        assert(self@ =~= old(self)@.insert(price, level_at(old(self)@, price)));
        assert(self@.contains_key(price));
        assert(self.levels@.contains_key(price));
        assert(self@[price] == self.levels@[price]@);
        self.levels.get(&price).unwrap()
    }

    /// Takes the level at `price` off this side.
    pub(crate) fn take_level(&mut self, price: Price) -> (level: Option<PriceLevel>)
        ensures
            final(self)@ == old(self)@.remove(price),
            match level {
                Some(level) => old(self)@.contains_key(price) && level@ == old(self)@[price],
                None => !old(self)@.contains_key(price),
            },
    {
        let level = self.levels.remove(&price);
        assert(self@ =~= old(self)@.remove(price));
        level
    }

    /// Puts a level at `price`.
    pub(crate) fn put_level(&mut self, price: Price, level: PriceLevel)
        ensures
            final(self)@ == old(self)@.insert(price, level@),
    {
        self.levels.insert(price, level);
        assert(self@ =~= old(self)@.insert(price, level@));
    }
}

} // verus!
