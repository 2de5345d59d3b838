//! Quantities, added up over maps and queues.

use crate::ladder::{depth, ladder, lemma_ladder_holds, sum_of_totals};
use crate::order::Order;
use crate::price_level::{queue_quantity, Level};
use crate::types::{OrderId, Price, Side};
use vstd::prelude::*;

verus! {

/// What `size` makes of the values of a map, added up.
pub open spec fn total<K, V>(map: Map<K, V>, size: spec_fn(V) -> nat) -> nat
    decreases map.dom().len(),
{
    if map.dom().finite() && map.dom().len() > 0 {
        let key = map.dom().choose();
        size(map[key]) + total(map.remove(key), size)
    } else {
        0
    }
}

/// Every key counts with the size of its value.
pub proof fn lemma_total_remove<K, V>(map: Map<K, V>, size: spec_fn(V) -> nat, key: K)
    requires
        map.dom().finite(),
        map.contains_key(key),
    ensures
        total(map, size) == size(map[key]) + total(map.remove(key), size),
    decreases map.dom().len(),
{
    assert(map.dom().contains(key));
    assert(map.dom().len() > 0) by {
        if map.dom().len() == 0 {
            assert(map.dom() =~= Set::empty());
        }
    }
    let first = map.dom().choose();
    assert(map.dom().contains(first));
    if first != key {
        lemma_total_remove(map.remove(first), size, key);
        lemma_total_remove(map.remove(key), size, first);
        assert(map.remove(first).remove(key) =~= map.remove(key).remove(first));
    }
}

/// A new value for a key counts in the place of the old one.
pub proof fn lemma_total_insert<K, V>(map: Map<K, V>, size: spec_fn(V) -> nat, key: K, value: V)
    requires
        map.dom().finite(),
    ensures
        total(map.insert(key, value), size) == size(value) + total(map.remove(key), size),
{
    lemma_total_remove(map.insert(key, value), size, key);
    assert(map.insert(key, value).remove(key) =~= map.remove(key));
}

/// The quantity that rests on some levels.
pub open spec fn resting_quantity(levels: Map<Price, Level>) -> nat {
    total(levels, |level: Level| queue_quantity(level.orders))
}

/// Maps whose values have the same sizes have the same total.
pub proof fn lemma_total_same<K, V, W>(
    one: Map<K, V>,
    other: Map<K, W>,
    size: spec_fn(V) -> nat,
    measure: spec_fn(W) -> nat,
)
    requires
        one.dom() == other.dom(),
        one.dom().finite(),
        forall|key: K| #[trigger] one.contains_key(key) ==> size(one[key]) == measure(other[key]),
    ensures
        total(one, size) == total(other, measure),
    decreases one.dom().len(),
{
    if one.dom().len() > 0 {
        let key = one.dom().choose();
        assert(one.contains_key(key));
        assert(one.remove(key).dom() =~= other.remove(key).dom());
        assert forall|k: K| #[trigger] one.remove(key).contains_key(k) implies size(
            one.remove(key)[k],
        ) == measure(other.remove(key)[k]) by {
            assert(one.contains_key(k));
        }
        lemma_total_same(one.remove(key), other.remove(key), size, measure);
    }
}

/// A map of which at most one value has a size has that size.
pub proof fn lemma_total_of_one<K, V>(map: Map<K, V>, size: spec_fn(V) -> nat, key: K)
    requires
        map.dom().finite(),
        forall|k: K| #[trigger] map.contains_key(k) && k != key ==> size(map[k]) == 0,
    ensures
        total(map, size) == if map.contains_key(key) {
            size(map[key])
        } else {
            0
        },
    decreases map.dom().len(),
{
    if map.dom().len() > 0 {
        let first = map.dom().choose();
        assert(map.contains_key(first));
        lemma_total_of_one(map.remove(first), size, key);
    } else {
        assert(map.dom() =~= Set::empty());
    }
}

/// The remaining quantities of those orders of a queue that have one of some
/// ids, added up.
pub open spec fn queue_quantity_of(orders: Seq<Order>, ids: Set<OrderId>) -> nat
    decreases orders.len(),
{
    if orders.len() == 0 {
        0
    } else {
        queue_quantity_of(orders.drop_first(), ids) + if ids.contains(orders[0].order_id) {
            orders[0].remaining_quantity as nat
        } else {
            0
        }
    }
}

/// The quantity that orders with one of some ids have resting on some levels.
pub open spec fn resting_quantity_of(levels: Map<Price, Level>, ids: Set<OrderId>) -> nat {
    total(levels, |level: Level| queue_quantity_of(level.orders, ids))
}

/// The quantity of a queue grows by that of the order that joins it.
pub proof fn lemma_queue_quantity_of_push(orders: Seq<Order>, ids: Set<OrderId>, order: Order)
    ensures
        queue_quantity_of(orders.push(order), ids) == queue_quantity_of(orders, ids)
            + queue_quantity_of(seq![order], ids),
    decreases orders.len(),
{
    let pushed = orders.push(order);
    assert(seq![order].drop_first() =~= Seq::empty());
    assert(queue_quantity_of(Seq::empty(), ids) == 0);
    if orders.len() == 0 {
        assert(pushed =~= seq![order]);
    } else {
        assert(pushed.drop_first() =~= orders.drop_first().push(order));
        lemma_queue_quantity_of_push(orders.drop_first(), ids, order);
    }
}

/// The quantity of a queue shrinks by that of the order that leaves it.
pub proof fn lemma_queue_quantity_of_remove(orders: Seq<Order>, ids: Set<OrderId>, i: int)
    requires
        0 <= i < orders.len(),
    ensures
        queue_quantity_of(orders, ids) == queue_quantity_of(orders.remove(i), ids)
            + queue_quantity_of(seq![orders[i]], ids),
    decreases orders.len(),
{
    assert(seq![orders[i]].drop_first() =~= Seq::empty());
    assert(queue_quantity_of(Seq::empty(), ids) == 0);
    if i == 0 {
        assert(orders.remove(0) =~= orders.drop_first());
    } else {
        assert(orders.remove(i).drop_first() =~= orders.drop_first().remove(i - 1));
        lemma_queue_quantity_of_remove(orders.drop_first(), ids, i - 1);
    }
}

/// With all ids, everything counts.
pub proof fn lemma_queue_quantity_of_all(orders: Seq<Order>)
    ensures
        queue_quantity_of(orders, Set::full()) == queue_quantity(orders),
    decreases orders.len(),
{
    if orders.len() > 0 {
        lemma_queue_quantity_of_all(orders.drop_first());
    }
}

/// With all ids, everything counts.
pub proof fn lemma_resting_quantity_of_all(levels: Map<Price, Level>)
    requires
        levels.dom().finite(),
    ensures
        resting_quantity_of(levels, Set::full()) == resting_quantity(levels),
{
    let size = |level: Level| queue_quantity_of(level.orders, Set::full());
    let measure = |level: Level| queue_quantity(level.orders);
    assert forall|price: Price| #[trigger] levels.contains_key(price) implies size(levels[price])
        == measure(levels[price]) by {
        lemma_queue_quantity_of_all(levels[price].orders);
    }
    lemma_total_same(levels, levels, size, measure);
}

/// Orders with other ids do not count.
pub proof fn lemma_queue_quantity_of_none(orders: Seq<Order>, ids: Set<OrderId>)
    requires
        forall|i: int| 0 <= i < orders.len() ==> !ids.contains((#[trigger] orders[i]).order_id),
    ensures
        queue_quantity_of(orders, ids) == 0,
    decreases orders.len(),
{
    if orders.len() > 0 {
        let rest = orders.drop_first();
        assert forall|i: int| 0 <= i < rest.len() implies !ids.contains(
            (#[trigger] rest[i]).order_id,
        ) by {
            assert(rest[i] == orders[i + 1]);
        }
        lemma_queue_quantity_of_none(rest, ids);
    }
}

/// What the levels keep as their totals adds up to what rests, if each of them
/// keeps what rests on it.
pub proof fn lemma_depth_is_resting_quantity(levels: Map<Price, Level>)
    requires
        levels.dom().finite(),
        forall|price: Price| #[trigger]
            levels.contains_key(price) ==> levels[price].total_quantity == queue_quantity(
                levels[price].orders,
            ),
    ensures
        depth(levels) == resting_quantity(levels),
{
    let prices = ladder(levels.dom(), Side::Ask);
    lemma_ladder_holds(levels.dom(), Side::Ask);
    assert forall|i: int, j: int| 0 <= i < j < prices.len() implies prices[i] != prices[j] by {
        assert(Side::Ask.prefers(prices[i], prices[j]));
    }
    let kept = |level: Level| level.total_quantity as nat;
    let measure = |level: Level| queue_quantity(level.orders);
    lemma_sum_is_total(levels, prices);
    lemma_total_same(levels, levels, kept, measure);
}

proof fn lemma_sum_is_total(levels: Map<Price, Level>, prices: Seq<Price>)
    requires
        levels.dom().finite(),
        forall|price: Price| #[trigger] levels.contains_key(price) <==> prices.contains(price),
        forall|i: int, j: int| 0 <= i < j < prices.len() ==> prices[i] != prices[j],
    ensures
        sum_of_totals(levels, prices) == total(levels, |level: Level| level.total_quantity as nat),
    decreases prices.len(),
{
    let kept = |level: Level| level.total_quantity as nat;
    if prices.len() == 0 {
        assert forall|price: Price| !levels.dom().contains(price) by {
            assert(levels.contains_key(price) <==> prices.contains(price));
        }
        assert(levels.dom() =~= Set::empty());
    } else {
        let last = prices.last();
        let fewer = prices.drop_last();
        let rest = levels.remove(last);
        assert(prices.contains(last));
        assert(levels.contains_key(last));
        assert forall|price: Price| #[trigger] rest.contains_key(price) <==> fewer.contains(
            price,
        ) by {
            if rest.contains_key(price) {
                assert(levels.contains_key(price));
                let i = prices.index_of(price);
                assert(fewer[i] == price);
            }
            if fewer.contains(price) {
                let i = fewer.index_of(price);
                assert(prices[i] == price);
                assert(prices.contains(price));
                assert(levels.contains_key(price));
            }
        }
        lemma_sum_is_total(rest, fewer);
        lemma_total_remove(levels, kept, last);
        lemma_sum_ignores(levels, fewer, last);
    }
}

proof fn lemma_sum_ignores(levels: Map<Price, Level>, prices: Seq<Price>, other: Price)
    requires
        forall|i: int| 0 <= i < prices.len() ==> prices[i] != other,
    ensures
        sum_of_totals(levels.remove(other), prices) == sum_of_totals(levels, prices),
    decreases prices.len(),
{
    if prices.len() > 0 {
        assert(prices.last() != other);
        lemma_sum_ignores(levels, prices.drop_last(), other);
    }
}

} // verus!
