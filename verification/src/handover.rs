//! Queues between the two halves of a connection, made of `concurrent_queue::ConcurrentQueue`.
//!
//! What the contracts of the functions here claim of that crate is taken from its source and is
//! not proved.
use bytes::Bytes;
use concurrent_queue::ConcurrentQueue;
use vstd::prelude::*;

use crate::packet::connected::ack::AckOrNack;
use crate::packet::connected::body::PlainBody;
use crate::packet::unconnected;

verus! {

/// What one half of a connection hands over to the other.
#[derive(Debug)]
pub enum Handover {
    /// An ACK that arrived, and when.
    Ack { records: AckOrNack, received_at: u64 },
    /// A NACK that arrived.
    Nack(AckOrNack),
    /// A packet to send.
    Unconnected(unconnected::Packet<Bytes>),
    /// A body to send in a frame.
    Body(PlainBody),
}

/// `concurrent_queue::ConcurrentQueue`: a queue with or without a limit, that can be closed.
#[verifier::external_type_specification]
#[verifier::external_body]
#[verifier::reject_recursive_types(T)]
pub struct ExConcurrentQueue<T>(concurrent_queue::ConcurrentQueue<T>);

/// The items of a queue, the oldest first.
pub uninterp spec fn queue_items(q: ConcurrentQueue<Handover>) -> Seq<Handover>;

/// How many items a queue holds at most; `None` where there is no limit.
pub uninterp spec fn queue_limit(q: ConcurrentQueue<Handover>) -> Option<nat>;

/// A queue takes items: it was not closed.
pub uninterp spec fn queue_open(q: ConcurrentQueue<Handover>) -> bool;

/// The items of a queue that takes at most `limit` of them, once `x` was forced into it: the
/// oldest gives way where there is no room.
pub open spec fn forced(items: Seq<Handover>, limit: nat, x: Handover) -> Seq<Handover> {
    if items.len() < limit {
        items.push(x)
    } else {
        items.skip(1).push(x)
    }
}

/// `ConcurrentQueue::bounded`: an open queue without items that holds at most `cap` of them. It
/// panics where `cap` is 0, and reserves room for all items.
#[verifier::external_body]
pub(crate) fn queue_bounded(cap: usize) -> (r: ConcurrentQueue<Handover>)
    requires
        0 < cap <= u16::MAX,
    ensures
        queue_items(r) == Seq::<Handover>::empty(),
        queue_limit(r) == Some(cap as nat),
        queue_open(r),
{
    ConcurrentQueue::bounded(cap)
}

/// `ConcurrentQueue::unbounded`: an open queue without items and without a limit.
#[verifier::external_body]
pub(crate) fn queue_unbounded() -> (r: ConcurrentQueue<Handover>)
    ensures
        queue_items(r) == Seq::<Handover>::empty(),
        queue_limit(r) == None::<nat>,
        queue_open(r),
{
    ConcurrentQueue::unbounded()
}

/// `ConcurrentQueue::force_push` on an open queue with a limit: appends an item. Where there is no
/// room, the oldest item gives way and is handed back.
#[verifier::external_body]
pub(crate) fn queue_force_push(q: &mut ConcurrentQueue<Handover>, x: Handover) -> (r: Option<
    Handover,
>)
    requires
        queue_open(*old(q)),
        queue_limit(*old(q)) is Some,
        queue_items(*old(q)).len() <= queue_limit(*old(q))->Some_0,
        queue_limit(*old(q))->Some_0 > 0,
    ensures
        queue_items(*final(q)) == forced(
            queue_items(*old(q)),
            queue_limit(*old(q))->Some_0,
            x,
        ),
        r == (if queue_items(*old(q)).len() < queue_limit(*old(q))->Some_0 {
            None
        } else {
            Some(queue_items(*old(q))[0])
        }),
        queue_limit(*final(q)) == queue_limit(*old(q)),
        queue_open(*final(q)),
{
    q.force_push(x).unwrap()
}

/// `ConcurrentQueue::push` on an open queue without a limit: appends an item.
#[verifier::external_body]
pub(crate) fn queue_push(q: &mut ConcurrentQueue<Handover>, x: Handover)
    requires
        queue_open(*old(q)),
        queue_limit(*old(q)) is None,
    ensures
        queue_items(*final(q)) == queue_items(*old(q)).push(x),
        queue_limit(*final(q)) == queue_limit(*old(q)),
        queue_open(*final(q)),
{
    q.push(x).unwrap()
}

/// `ConcurrentQueue::pop`: takes the oldest item off, where there is one.
#[verifier::external_body]
pub(crate) fn queue_pop(q: &mut ConcurrentQueue<Handover>) -> (r: Option<Handover>)
    ensures
        match r {
            Some(x) => queue_items(*old(q)).len() > 0 && x == queue_items(*old(q))[0]
                && queue_items(*final(q)) == queue_items(*old(q)).skip(1),
            None => queue_items(*old(q)).len() == 0 && queue_items(*final(q)) == queue_items(
                *old(q),
            ),
        },
        queue_limit(*final(q)) == queue_limit(*old(q)),
        queue_open(*final(q)) == queue_open(*old(q)),
{
    q.pop().ok()
}

/// `ConcurrentQueue::is_empty`: whether there is no item.
#[verifier::external_body]
pub(crate) fn queue_is_empty(q: &ConcurrentQueue<Handover>) -> (r: bool)
    ensures
        r == (queue_items(*q).len() == 0),
{
    q.is_empty()
}

/// What is forced into a queue with a limit is in it, as the last item; nothing else gives way but
/// the oldest item, and that only where there is no room.
pub proof fn lemma_forced(items: Seq<Handover>, limit: nat, x: Handover)
    requires
        0 < limit,
        items.len() <= limit,
    ensures
        ({
            let after = forced(items, limit, x);
            &&& after.last() == x
            &&& after.len() <= limit
            &&& items.len() < limit ==> after.drop_last() == items
            &&& items.len() == limit ==> after.drop_last() == items.drop_first()
        }),
{
    let after = forced(items, limit, x);
    if items.len() < limit {
        assert(after.drop_last() =~= items);
    } else {
        assert(after.drop_last() =~= items.drop_first());
    }
}

} // verus!
