//! The channel on which the exchange book reports its trades.

use crate::events::Trade;
use crate::types::{OrderId, Price, Quantity};
use crossbeam_channel::Sender;
use vstd::prelude::*;

verus! {

/// [`crossbeam_channel::Sender`], the sending side of a channel.
#[verifier::external_type_specification]
#[verifier::external_body]
#[verifier::reject_recursive_types(T)]
pub struct ExSender<T>(Sender<T>);

/// The trades that were handed to a sender, in the order in which they were
/// handed over.
pub uninterp spec fn tape(sender: Sender<Trade>) -> Seq<Trade>;

/// How many messages the channel of a sender holds at most. A channel without
/// a bound has none.
pub uninterp spec fn bound(sender: Sender<Trade>) -> Option<usize>;

/// [`Sender::capacity`]: the bound of the channel, if it has one.
#[verifier::external_body]
pub(crate) fn capacity_of(sender: &Sender<Trade>) -> (r: Option<usize>)
    ensures
        r == bound(*sender),
{
    sender.capacity()
}

/// [`Sender::send`]: one more trade is handed over. On a channel with a bound
/// the call could wait forever for room, so the channel must have none. Whether
/// a receiver gets the trade is not stated; one that nobody can receive any
/// more is dropped.
#[verifier::external_body]
pub(crate) fn report(sender: &mut Sender<Trade>, trade: Trade)
    requires
        bound(*old(sender)) is None,
    ensures
        tape(*final(sender)) == tape(*old(sender)).push(trade),
        bound(*final(sender)) == bound(*old(sender)),
{
    let _ = sender.send(trade);
}

/// A trade without its time stamp.
pub struct Fill {
    pub taker_order_id: OrderId,
    pub maker_order_id: OrderId,
    pub price: Price,
    pub quantity: Quantity,
}

impl Fill {
    /// The trade that took place when the clock read `reading`.
    pub fn at(self, reading: u64) -> (trade: Trade)
        ensures
            trade.fill() == self,
            trade.timestamp == reading,
    {
        Trade {
            taker_order_id: self.taker_order_id,
            maker_order_id: self.maker_order_id,
            price: self.price,
            quantity: self.quantity,
            timestamp: reading,
        }
    }
}

impl Trade {
    /// The trade without its time stamp.
    pub open spec fn fill(self) -> Fill {
        Fill {
            taker_order_id: self.taker_order_id,
            maker_order_id: self.maker_order_id,
            price: self.price,
            quantity: self.quantity,
        }
    }
}

/// The time stamp of a trade that takes place at `timestamp`: orders are
/// stamped in nanoseconds, trades in milliseconds.
pub open spec fn trade_stamp(timestamp: u64) -> u64 {
    timestamp / 1_000_000
}

/// Whether `after` is `before`, followed by one trade for each of the fills. If
/// `stamp` is given, each of them bears it.
pub open spec fn reports(
    before: Seq<Trade>,
    after: Seq<Trade>,
    fills: Seq<Fill>,
    stamp: Option<u64>,
) -> bool {
    &&& after.len() == before.len() + fills.len()
    &&& after.take(before.len() as int) == before
    &&& forall|i: int|
        0 <= i < fills.len() ==> {
            &&& (#[trigger] after[before.len() + i]).fill() == fills[i]
            &&& stamp is Some ==> after[before.len() + i].timestamp == stamp->0
        }
}

} // verus!
