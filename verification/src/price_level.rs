//! The orders that rest at one price.

use crate::order::{Order, OrderId, Price, Quantity};
use std::collections::VecDeque;
use vstd::prelude::*;

verus! {

/// All orders resting at one price, in the order in which they arrived.
#[derive(Debug)]
pub struct PriceLevel {
    pub price: Price,
    /// First in, first out.
    pub orders: VecDeque<Order>,
    /// Quantity kept for depth queries. It follows `push_order` and
    /// `remove_order`; whoever changes the queue by other means adjusts it.
    pub total_quantity: Quantity,
}

/// A price level as a mathematical value.
#[verifier::ext_equal]
pub struct Level {
    pub price: Price,
    pub orders: Seq<Order>,
    pub total_quantity: Quantity,
}

impl Level {
    /// A level at `price` on which nothing rests.
    pub open spec fn empty(price: Price) -> Level {
        Level { price, orders: Seq::empty(), total_quantity: 0 }
    }

    /// The level with one more order at the end of its queue.
    pub open spec fn pushed(self, order: Order) -> Level {
        Level {
            orders: self.orders.push(order),
            total_quantity: wrapped_sum(self.total_quantity, order.remaining_quantity),
            ..self
        }
    }

    /// The level without the order at position `i` of its queue.
    pub open spec fn removed(self, i: int) -> Level {
        Level {
            orders: self.orders.remove(i),
            total_quantity: wrapped_difference(
                self.total_quantity,
                self.orders[i].remaining_quantity,
            ),
            ..self
        }
    }

    /// Whether position `i` is the first one that holds order `order_id`.
    pub open spec fn first_at(self, order_id: OrderId, i: int) -> bool {
        &&& 0 <= i < self.orders.len()
        &&& self.orders[i].order_id == order_id
        &&& forall|j: int| 0 <= j < i ==> self.orders[j].order_id != order_id
    }

    /// The first position that holds order `order_id`.
    pub open spec fn place_of(self, order_id: OrderId) -> int {
        choose|i: int| self.first_at(order_id, i)
    }

    /// The level without the time stamps of its orders.
    pub open spec fn unstamped(self) -> Level {
        Level { orders: self.orders.map_values(|order: Order| order.unstamped()), ..self }
    }

    /// Whether order `order_id` rests on this level.
    pub open spec fn holds(self, order_id: OrderId) -> bool {
        exists|i: int| 0 <= i < self.orders.len() && self.orders[i].order_id == order_id
    }
}

/// Addition of quantities, wrapping around at the end of their range.
pub open spec fn wrapped_sum(a: Quantity, b: Quantity) -> Quantity {
    if a + b > u64::MAX {
        (a + b - 0x1_0000_0000_0000_0000) as u64
    } else {
        (a + b) as u64
    }
}

/// Subtraction of quantities, wrapping around at the end of their range.
pub open spec fn wrapped_difference(a: Quantity, b: Quantity) -> Quantity {
    if a < b {
        (a - b + 0x1_0000_0000_0000_0000) as u64
    } else {
        (a - b) as u64
    }
}

impl View for PriceLevel {
    type V = Level;

    open spec fn view(&self) -> Level {
        Level {
            price: self.price,
            orders: self.orders@,
            total_quantity: self.total_quantity,
        }
    }
}

impl PriceLevel {
    /// A level at `price` on which nothing rests.
    pub fn new(price: Price) -> (level: Self)
        ensures
            level@ == Level::empty(price),
    {
        Self { price, orders: VecDeque::new(), total_quantity: 0 }
    }

    /// Puts an order at the end of the queue.
    pub fn push_order(&mut self, order: Order)
        ensures
            final(self)@ == old(self)@.pushed(order),
    {
        let quantity: u64 = order.get_remaining_quantity();
        self.orders.push_back(order);
        self.total_quantity = self.total_quantity.wrapping_add(quantity);
    }

    /// Takes the order at the front of the queue. The total quantity stays as
    /// it is.
    pub fn pop_front(&mut self) -> (order: Option<Order>)
        ensures
            match order {
                Some(order) => {
                    &&& old(self)@.orders.len() > 0
                    &&& order == old(self)@.orders[0]
                    &&& final(self)@ == (Level {
                        orders: old(self)@.orders.drop_first(),
                        ..old(self)@
                    })
                },
                None => old(self)@.orders.len() == 0 && final(self)@ == old(self)@,
            },
    {
        let order = self.orders.pop_front();
        order
    }

    /// Takes the order `order_id` out of the queue, wherever it stands, and
    /// returns it with its remaining quantity.
    pub fn remove_order(&mut self, order_id: OrderId) -> (removed: Option<(Order, Quantity)>)
        ensures
            match removed {
                Some((order, quantity)) => exists|i: int|
                    {
                        &&& #[trigger] old(self)@.first_at(order_id, i)
                        &&& order == old(self)@.orders[i]
                        &&& quantity == order.remaining_quantity
                        &&& final(self)@ == old(self)@.removed(i)
                    },
                None => !old(self)@.holds(order_id) && final(self)@ == old(self)@,
            },
    {
        let mut i: usize = 0;
        while i < self.orders.len()
            invariant
                *self == *old(self),
                i <= self.orders@.len(),
                forall|j: int| 0 <= j < i ==> self.orders@[j].order_id != order_id,
            decreases self.orders@.len() - i,
        {
            if self.orders[i].order_id == order_id {
                assert(old(self)@.first_at(order_id, i as int));
                if let Some(order) = self.orders.remove(i) {
                    let quantity: u64 = order.get_remaining_quantity();
                    self.total_quantity = self.total_quantity.wrapping_sub(quantity);
                    return Some((order, quantity));
                }
                return None;
            }
            i += 1;
        }
        None
    }

    /// The total quantity kept for this level.
    pub fn get_total_quantity(&self) -> (r: Quantity)
        ensures
            r == self@.total_quantity,
    {
        self.total_quantity
    }

    /// Whether nothing rests on this level.
    pub fn is_empty(&self) -> (r: bool)
        ensures
            r == (self@.orders.len() == 0),
    {
        self.orders.len() == 0
    }
}

/// No two positions are the first one that holds an order, and where an order
/// rests there is one.
pub proof fn lemma_place_is_one(level: Level, order_id: OrderId)
    ensures
        forall|i: int| #[trigger] level.first_at(order_id, i) ==> i == level.place_of(order_id),
        level.holds(order_id) ==> level.first_at(order_id, level.place_of(order_id)),
{
    assert forall|i: int| #[trigger] level.first_at(order_id, i) implies i == level.place_of(
        order_id,
    ) by {
        let place = level.place_of(order_id);
        assert(level.first_at(order_id, place));
        if place < i {
            assert(level.orders[place].order_id != order_id);
        }
        if i < place {
            assert(level.orders[i].order_id != order_id);
        }
    }
    if level.holds(order_id) {
        let i = choose|i: int|
            0 <= i < level.orders.len() && level.orders[i].order_id == order_id;
        lemma_first_exists(level, order_id, i);
    }
}

proof fn lemma_first_exists(level: Level, order_id: OrderId, i: int)
    requires
        0 <= i < level.orders.len(),
        level.orders[i].order_id == order_id,
    ensures
        exists|j: int| level.first_at(order_id, j),
    decreases i,
{
    if !level.first_at(order_id, i) {
        let j = choose|j: int| 0 <= j < i && level.orders[j].order_id == order_id;
        lemma_first_exists(level, order_id, j);
    }
}

/// The remaining quantities of a queue, added up.
pub open spec fn queue_quantity(orders: Seq<Order>) -> nat
    decreases orders.len(),
{
    if orders.len() == 0 {
        0
    } else {
        orders[0].remaining_quantity as nat + queue_quantity(orders.drop_first())
    }
}

/// The quantity of a queue grows by that of the order that joins it.
pub proof fn lemma_queue_quantity_push(orders: Seq<Order>, order: Order)
    ensures
        queue_quantity(orders.push(order)) == queue_quantity(orders) + order.remaining_quantity,
    decreases orders.len(),
{
    let pushed = orders.push(order);
    if orders.len() == 0 {
        assert(pushed.drop_first() =~= orders);
    } else {
        assert(pushed.drop_first() =~= orders.drop_first().push(order));
        lemma_queue_quantity_push(orders.drop_first(), order);
    }
}

/// The quantity of a queue shrinks by that of the order that leaves it.
pub proof fn lemma_queue_quantity_remove(orders: Seq<Order>, i: int)
    requires
        0 <= i < orders.len(),
    ensures
        queue_quantity(orders) == queue_quantity(orders.remove(i)) + orders[i].remaining_quantity,
    decreases orders.len(),
{
    if i == 0 {
        assert(orders.remove(0) =~= orders.drop_first());
    } else {
        assert(orders.remove(i).drop_first() =~= orders.drop_first().remove(i - 1));
        lemma_queue_quantity_remove(orders.drop_first(), i - 1);
    }
}

/// Law: taking the newest order out again undoes its arrival.
pub proof fn law_remove_undoes_push(level: Level, order: Order)
    requires
        !level.holds(order.order_id),
    ensures
        level.pushed(order).first_at(order.order_id, level.orders.len() as int),
        level.pushed(order).orders[level.orders.len() as int] == order,
        level.pushed(order).removed(level.orders.len() as int) == level,
{
    assert(level.pushed(order).orders.remove(level.orders.len() as int) =~= level.orders);
}

/// Law: orders leave a level in the order in which they arrived. An arrival
/// does not change who is at the front of a queue in which someone waits.
pub proof fn law_first_in_first_out(level: Level, order: Order)
    ensures
        level.orders.len() > 0 ==> level.pushed(order).orders[0] == level.orders[0],
        level.orders.len() > 0 ==> level.pushed(order).orders.drop_first()
            == level.orders.drop_first().push(order),
        level.orders.len() == 0 ==> level.pushed(order).orders[0] == order,
{
    if level.orders.len() > 0 {
        assert(level.pushed(order).orders.drop_first() =~= level.orders.drop_first().push(order));
    }
}

/// Law: an order that joins a level stands behind all others, who keep their
/// places, and the kept total grows by what is left of it, around the end of the
/// range.
pub proof fn law_newcomer_stands_last(level: Level, order: Order)
    ensures
        level.pushed(order).price == level.price,
        level.pushed(order).orders.len() == level.orders.len() + 1,
        level.pushed(order).orders[level.orders.len() as int] == order,
        forall|i: int|
            0 <= i < level.orders.len() ==> #[trigger] level.pushed(order).orders[i]
                == level.orders[i],
        (level.pushed(order).total_quantity - level.total_quantity - order.remaining_quantity)
            % 0x1_0000_0000_0000_0000 == 0,
        forall|price: Price| (#[trigger] Level::empty(price)).orders.len() == 0 && Level::empty(
            price,
        ).price == price && Level::empty(price).total_quantity == 0,
{
}

/// Law: an order that is taken out of a level is the first one with its id.
/// Those ahead keep their places and those behind move up by one, and the kept
/// total shrinks by what was left of it, around the end of the range.
pub proof fn law_others_close_ranks(level: Level, order_id: OrderId, i: int)
    requires
        level.first_at(order_id, i),
    ensures
        0 <= i < level.orders.len(),
        level.orders[i].order_id == order_id,
        forall|k: int| 0 <= k < i ==> (#[trigger] level.orders[k]).order_id != order_id,
        level.removed(i).price == level.price,
        level.removed(i).orders.len() == level.orders.len() - 1,
        forall|k: int|
            0 <= k < i ==> #[trigger] level.removed(i).orders[k] == level.orders[k],
        forall|k: int|
            i < k < level.orders.len() ==> #[trigger] level.orders[k] == level.removed(
                i,
            ).orders[k - 1],
        (level.total_quantity - level.removed(i).total_quantity
            - level.orders[i].remaining_quantity) % 0x1_0000_0000_0000_0000 == 0,
        forall|id: OrderId| #[trigger]
            level.holds(id) <==> exists|k: int|
                0 <= k < level.orders.len() && (#[trigger] level.orders[k]).order_id == id,
{
}

} // verus!
