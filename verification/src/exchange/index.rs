//! Where each order of the exchange book went, by order id.

use crate::types::{OrderId, OrderStatus, Price, Side};
use dashmap::DashMap;
use vstd::prelude::*;

verus! {

/// The side and the price an order was placed at, and what became of it.
pub type Entry = (Side, Price, OrderStatus);

/// [`dashmap::DashMap`], a hash map.
#[verifier::external_type_specification]
#[verifier::external_body]
#[verifier::reject_recursive_types(K)]
#[verifier::reject_recursive_types(V)]
#[verifier::reject_recursive_types(S)]
pub struct ExDashMap<K, V, S>(DashMap<K, V, S>);

/// The entries that an index holds.
pub uninterp spec fn entries(index: DashMap<OrderId, Entry>) -> Map<OrderId, Entry>;

/// [`DashMap::new`]: the map it returns is empty.
#[verifier::external_body]
pub(crate) fn new_index() -> (index: DashMap<OrderId, Entry>)
    ensures
        entries(index).is_empty(),
{
    DashMap::new()
}

/// [`DashMap::insert`]: afterwards the id leads to the entry, and no other id
/// leads elsewhere than before. The exclusive reference rules out that a guard
/// into the map is held meanwhile, on which the call could wait forever.
#[verifier::external_body]
pub(crate) fn record(index: &mut DashMap<OrderId, Entry>, order_id: OrderId, entry: Entry)
    ensures
        entries(*final(index)) == entries(*old(index)).insert(order_id, entry),
{
    index.insert(order_id, entry);
}

/// [`DashMap::get`]: the entry that the id leads to, if there is one. The guard
/// that the call returns is dropped here.
#[verifier::external_body]
pub(crate) fn look_up(index: &DashMap<OrderId, Entry>, order_id: OrderId) -> (entry: Option<Entry>)
    ensures
        entry == if entries(*index).contains_key(order_id) {
            Some(entries(*index)[order_id])
        } else {
            None
        },
{
    match index.get(&order_id) {
        Some(guard) => Some(*guard.value()),
        None => None,
    }
}

/// [`DashMap::remove`]: afterwards the id leads nowhere, and no other id leads
/// elsewhere than before.
#[verifier::external_body]
pub(crate) fn forget(index: &mut DashMap<OrderId, Entry>, order_id: OrderId)
    ensures
        entries(*final(index)) == entries(*old(index)).remove(order_id),
{
    index.remove(&order_id);
}

} // verus!
