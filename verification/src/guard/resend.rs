//! The frame sets that were sent and not acknowledged yet. All times are in nanoseconds.
use std::collections::BTreeMap;

use bytes::Bytes;
use vstd::prelude::*;
use vstd::std_specs::btree::increasing_seq;
use vstd::std_specs::cmp::OrdSpec;
use vstd::std_specs::iter::IteratorSpec;

use crate::estimator::RFC6298Impl;
use crate::guard::send_buffer::{raised, with_penalty, writable, PenaltyFrame, SendBuffer, Waiting};
use crate::packet::connected::ack::{records_expand, records_wf, AckOrNack, Record};
use crate::packet::connected::frame::Frame;
use crate::sorted_queue::{insert_all, lemma_insert_all, sorted};
use crate::uint24::{u24, U24_RANGE};

verus! {

/// The longest time without a scan for frame sets that are overdue: 3 seconds. It keeps a network
/// that recovers from a high delay from being scanned too late.
pub const MAX_SKIP_SCAN_RTO: u128 = 3_000_000_000;

/// A frame set that was sent.
#[derive(Debug)]
pub struct ResendEntry {
    pub penalty: u8,
    pub frames: Vec<Frame<Bytes>>,
    pub send_at: u64,
    /// When it is sent again, if it is not acknowledged before.
    pub expired_at: u128,
}

/// The frame sets that were sent and not acknowledged yet, by their numbers.
#[derive(Debug)]
pub struct ResendMap {
    pub map: BTreeMap<u32, ResendEntry>,
    /// Until when no frame set is overdue.
    pub last_record_expired_at: u128,
    pub estimator: RFC6298Impl,
}

/// How long the way took, or 0 where the clock says that it took less.
pub open spec fn elapsed(from: u64, to: u64) -> u64 {
    if from <= to {
        (to - from) as u64
    } else {
        0
    }
}

/// What is left of the frame sets, and the estimate of the round trip time, once the numbers
/// `nums` were acknowledged at `at`, one after the other. A number that is not there says
/// nothing.
pub open spec fn acked(
    m: Map<u32, ResendEntry>,
    e: RFC6298Impl,
    nums: Seq<u24>,
    at: u64,
) -> (Map<u32, ResendEntry>, RFC6298Impl)
    decreases nums.len(),
{
    if nums.len() == 0 {
        (m, e)
    } else {
        let (m, e) = acked(m, e, nums.drop_last(), at);
        let n = nums.last().0;
        if m.contains_key(n) {
            (m.remove(n), e.updated(elapsed(m[n].send_at, at)))
        } else {
            (m, e)
        }
    }
}

/// What is left of the frame sets, and what waits to be sent again, once the numbers `nums` were
/// asked for, one after the other.
pub open spec fn asked_again(
    m: Map<u32, ResendEntry>,
    queue: Seq<PenaltyFrame>,
    nums: Seq<u24>,
) -> (Map<u32, ResendEntry>, Seq<PenaltyFrame>)
    decreases nums.len(),
{
    if nums.len() == 0 {
        (m, queue)
    } else {
        let (m, queue) = asked_again(m, queue, nums.drop_last());
        let n = nums.last().0;
        if m.contains_key(n) {
            (
                m.remove(n),
                insert_all(queue, with_penalty(m[n].frames@, raised(m[n].penalty))),
            )
        } else {
            (m, queue)
        }
    }
}

/// The numbers below `bound` of the frame sets that are overdue, in order.
pub open spec fn overdue(m: Map<u32, ResendEntry>, now: u64, bound: nat) -> Seq<u24>
    decreases bound,
{
    if bound == 0 {
        Seq::empty()
    } else {
        let before = overdue(m, now, (bound - 1) as nat);
        let n = (bound - 1) as u32;
        if m.contains_key(n) && m[n].expired_at <= now {
            before.push(u24(n))
        } else {
            before
        }
    }
}

/// `t` is the first time at which a scan finds something: when the first of the frame sets is
/// overdue, or at `latest`.
pub open spec fn is_next_scan(m: Map<u32, ResendEntry>, latest: int, t: int) -> bool {
    &&& t <= latest
    &&& forall|n: u32| #[trigger] m.contains_key(n) ==> t <= m[n].expired_at
    &&& t == latest || exists|n: u32| #[trigger] m.contains_key(n) && t == m[n].expired_at
}

/// What is sent again, and when.
pub ghost struct Resending {
    /// The frame sets that were sent and not acknowledged yet.
    pub map: Map<u32, ResendEntry>,
    /// The frames that wait to be sent again.
    pub queue: Seq<PenaltyFrame>,
    pub estimator: RFC6298Impl,
    /// Until when no frame set is overdue.
    pub next_scan: u128,
}

/// A scan at `now` for frame sets that are overdue. Nothing is scanned before something can be.
/// What is overdue waits to be sent again. Where a frame set was lost, the estimate starts anew.
pub open spec fn scanned(before: Resending, after: Resending, now: u64) -> bool {
    if before.map.dom() == Set::<u32>::empty() || now < before.next_scan {
        after == before
    } else {
        let lost = overdue(before.map, now, U24_RANGE as nat);
        let rto = before.estimator.spec_rto();
        let wait = if rto < MAX_SKIP_SCAN_RTO {
            rto
        } else {
            MAX_SKIP_SCAN_RTO as int
        };
        &&& (after.map, after.queue) == asked_again(before.map, before.queue, lost)
        &&& after.estimator == (if lost.len() > 0 {
            RFC6298Impl { smoothed: None, ..before.estimator }
        } else {
            before.estimator
        })
        &&& is_next_scan(after.map, now + wait, after.next_scan as int)
        &&& now < after.next_scan
    }
}

/// The numbers of the frame sets, in order.
fn numbers_of(m: &BTreeMap<u32, ResendEntry>) -> (r: Vec<u32>)
    ensures
        forall|i: int, j: int| 0 <= i < j < r@.len() ==> r@[i] < r@[j],
        forall|i: int| 0 <= i < r@.len() ==> m@.contains_key(#[trigger] r@[i]),
        forall|n: u32| #[trigger] m@.contains_key(n) ==> r@.contains(n),
{
    let mut r: Vec<u32> = Vec::new();
    let entries = m.iter();
    let ghost v = entries.remaining();
    let ghost keys = v.map_values(|kv: (&u32, &ResendEntry)| *kv.0);
    proof {
        lemma_increasing(keys);
    }
    for entry in iter: entries
        invariant
            iter.seq() == v,
            keys == v.map_values(|kv: (&u32, &ResendEntry)| *kv.0),
            r@ == keys.take(iter.index()),
    {
        r.push(*entry.0);
        assert(r@ =~= keys.take(iter.index() + 1));
    }
    assert(r@ =~= keys);
    proof {
        assert forall|i: int| 0 <= i < r@.len() implies m@.contains_key(#[trigger] r@[i]) by {
            assert(m@.contains_key(*v[i].0));
        }
        assert forall|n: u32| #[trigger] m@.contains_key(n) implies r@.contains(n) by {
            assert(v.contains((&n, &m@[n])));
            let i = choose|i: int| 0 <= i < v.len() && v[i] == (&n, &m@[n]);
            assert(r@[i] == n);
        }
    }
    r
}

impl ResendMap {
    /// The numbers fit in 24 bits, and the frames can be written.
    pub open spec fn wf(self) -> bool {
        forall|n: u32| #[trigger]
            self.map@.contains_key(n) ==> n < U24_RANGE && writable(self.map@[n].frames@)
    }

    /// What is sent again, and when, where `queue` waits to be.
    pub open spec fn resending(self, queue: Seq<PenaltyFrame>) -> Resending {
        Resending {
            map: self.map@,
            queue,
            estimator: self.estimator,
            next_scan: self.last_record_expired_at,
        }
    }

    /// A map without frame sets, made at `now`.
    pub fn new(now: u64) -> (r: ResendMap)
        ensures
            r.wf(),
            r.map@ == Map::<u32, ResendEntry>::empty(),
            r.last_record_expired_at == now,
            r.estimator == (RFC6298Impl {
                latest: crate::estimator::INITIAL_RTT,
                smoothed: None,
                var: 0,
            }),
    {
        ResendMap {
            map: BTreeMap::new(),
            last_record_expired_at: now as u128,
            estimator: RFC6298Impl::new(),
        }
    }

    /// Keeps a frame set that is sent at `now`. The greater its penalty, the longer one waits for
    /// it to be acknowledged.
    pub fn record(&mut self, seq_num: u24, penalty: u8, frames: Vec<Frame<Bytes>>, now: u64)
        requires
            old(self).wf(),
            seq_num.wf(),
            writable(frames@),
        ensures
            final(self).wf(),
            final(self).estimator == old(self).estimator,
            final(self).last_record_expired_at == old(self).last_record_expired_at,
            final(self).map@ == old(self).map@.insert(seq_num.0, final(self).map@[seq_num.0]),
            final(self).map@[seq_num.0].penalty == penalty,
            final(self).map@[seq_num.0].frames == frames,
            final(self).map@[seq_num.0].send_at == now,
            final(self).map@[seq_num.0].expired_at == now + old(self).estimator.spec_rto() * (1
                + penalty),
    {
        let rto: u128 = self.estimator.rto();
        assert(rto * penalty <= (5 * u64::MAX) * 255) by (nonlinear_arith)
            requires
                rto <= 5 * u64::MAX,
                penalty <= 255,
        ;
        assert(rto * (1 + penalty) == rto + rto * penalty) by (nonlinear_arith);
        let expired_at: u128 = now as u128 + rto + rto * penalty as u128;
        self.map.insert(seq_num.0, ResendEntry { penalty, frames, send_at: now, expired_at });
    }

    /// One number was acknowledged.
    fn ack_one(&mut self, n: u32, received_at: u64)
        requires
            old(self).wf(),
        ensures
            final(self).wf(),
            final(self).last_record_expired_at == old(self).last_record_expired_at,
            old(self).map@.contains_key(n) ==> final(self).map@ == old(self).map@.remove(n)
                && final(self).estimator == old(self).estimator.updated(
                elapsed(old(self).map@[n].send_at, received_at),
            ),
            !old(self).map@.contains_key(n) ==> *final(self) == *old(self),
    {
        if !self.map.contains_key(&n) {
            return ;
        }
        if let Some(entry) = self.map.remove(&n) {
            let rtt: u64 = if entry.send_at <= received_at {
                received_at - entry.send_at
            } else {
                0
            };
            self.estimator.update(rtt);
        }
    }

    /// An ACK arrived: what it covers is not sent again, and the time that it took counts for the
    /// estimate.
    pub fn on_ack(&mut self, ack: AckOrNack, received_at: u64)
        requires
            old(self).wf(),
            ack.wf(),
        ensures
            final(self).wf(),
            final(self).last_record_expired_at == old(self).last_record_expired_at,
            (final(self).map@, final(self).estimator) == acked(
                old(self).map@,
                old(self).estimator,
                records_expand(ack.records@),
                received_at,
            ),
    {
        let ghost rs = ack.records@;
        let ghost m = self.map@;
        let ghost e = self.estimator;
        let mut i: usize = 0;
        assert(rs.take(0) =~= Seq::empty());
        while i < ack.records.len()
            invariant
                i <= rs.len(),
                rs == ack.records@,
                records_wf(rs),
                self.wf(),
                self.last_record_expired_at == old(self).last_record_expired_at,
                (self.map@, self.estimator) == acked(
                    m,
                    e,
                    records_expand(rs.take(i as int)),
                    received_at,
                ),
            decreases rs.len() - i,
        {
            let ghost done = records_expand(rs.take(i as int));
            let record = ack.records[i];
            let (start, end): (u24, u24) = match record {
                Record::Range(start, end) => (start, end),
                Record::Single(seq_num) => (seq_num, seq_num),
            };
            let ghost nums = record.expand();
            assert(record.wf());
            let mut n: u32 = start.0;
            assert(done + nums.take(0) =~= done);
            while n <= end.0
                invariant
                    start == record.first(),
                    end == record.last(),
                    nums == record.expand(),
                    start.wf(),
                    end.wf(),
                    start.0 <= end.0 ==> start.0 <= n <= end.0 + 1,
                    start.0 > end.0 ==> n == start.0,
                    self.wf(),
                    self.last_record_expired_at == old(self).last_record_expired_at,
                    (self.map@, self.estimator) == acked(
                        m,
                        e,
                        done + nums.take(n - start.0),
                        received_at,
                    ),
                decreases end.0 + 1 - n,
            {
                proof {
                    let k = n - start.0;
                    assert((done + nums.take(k + 1)).drop_last() =~= done + nums.take(k));
                    assert((done + nums.take(k + 1)).last() == u24(n));
                }
                self.ack_one(n, received_at);
                n = n + 1;
            }
            proof {
                assert(done + nums.take(n - start.0) =~= done + nums);
                assert(rs.take(i + 1).drop_last() =~= rs.take(i as int));
                assert(rs.take(i + 1).last() == record);
            }
            i = i + 1;
        }
        assert(rs.take(i as int) =~= rs);
    }

    /// One number was asked for.
    fn resend_one(&mut self, n: u32, buf: &mut SendBuffer)
        requires
            old(self).wf(),
            old(buf)@.wf(),
        ensures
            final(self).wf(),
            final(buf)@.wf(),
            final(buf).cap == old(buf).cap,
            final(self).last_record_expired_at == old(self).last_record_expired_at,
            final(self).estimator == old(self).estimator,
            old(self).map@.contains_key(n) ==> final(self).map@ == old(self).map@.remove(n)
                && final(buf)@ == (Waiting {
                resend: insert_all(
                    old(buf)@.resend,
                    with_penalty(old(self).map@[n].frames@, raised(old(self).map@[n].penalty)),
                ),
                ..old(buf)@
            }),
            !old(self).map@.contains_key(n) ==> final(self).map@ == old(self).map@ && final(buf)@
                == old(buf)@,
    {
        if !self.map.contains_key(&n) {
            return ;
        }
        if let Some(entry) = self.map.remove(&n) {
            buf.resend(entry.frames, entry.penalty);
        }
    }

    /// A NACK arrived: what it covers is sent again.
    pub fn on_nack_into(&mut self, nack: AckOrNack, buf: &mut SendBuffer)
        requires
            old(self).wf(),
            old(buf)@.wf(),
            nack.wf(),
        ensures
            final(self).wf(),
            final(buf)@.wf(),
            final(buf).cap == old(buf).cap,
            final(self).last_record_expired_at == old(self).last_record_expired_at,
            final(self).estimator == old(self).estimator,
            ({
                let (m, queue) = asked_again(
                    old(self).map@,
                    old(buf)@.resend,
                    records_expand(nack.records@),
                );
                &&& final(self).map@ == m
                &&& final(buf)@ == (Waiting { resend: queue, ..old(buf)@ })
            }),
    {
        let ghost rs = nack.records@;
        let ghost m = self.map@;
        let ghost q = buf@.resend;
        let mut i: usize = 0;
        assert(rs.take(0) =~= Seq::empty());
        while i < nack.records.len()
            invariant
                i <= rs.len(),
                rs == nack.records@,
                records_wf(rs),
                self.wf(),
                buf@.wf(),
                buf.cap == old(buf).cap,
                self.last_record_expired_at == old(self).last_record_expired_at,
                self.estimator == old(self).estimator,
                buf@ == (Waiting { resend: buf@.resend, ..old(buf)@ }),
                (self.map@, buf@.resend) == asked_again(m, q, records_expand(rs.take(i as int))),
            decreases rs.len() - i,
        {
            let ghost done = records_expand(rs.take(i as int));
            let record = nack.records[i];
            let (start, end): (u24, u24) = match record {
                Record::Range(start, end) => (start, end),
                Record::Single(seq_num) => (seq_num, seq_num),
            };
            let ghost nums = record.expand();
            assert(record.wf());
            let mut n: u32 = start.0;
            assert(done + nums.take(0) =~= done);
            while n <= end.0
                invariant
                    start == record.first(),
                    end == record.last(),
                    nums == record.expand(),
                    start.wf(),
                    end.wf(),
                    start.0 <= end.0 ==> start.0 <= n <= end.0 + 1,
                    start.0 > end.0 ==> n == start.0,
                    self.wf(),
                    buf@.wf(),
                    buf.cap == old(buf).cap,
                    self.last_record_expired_at == old(self).last_record_expired_at,
                    self.estimator == old(self).estimator,
                    buf@ == (Waiting { resend: buf@.resend, ..old(buf)@ }),
                    (self.map@, buf@.resend) == asked_again(m, q, done + nums.take(n - start.0)),
                decreases end.0 + 1 - n,
            {
                proof {
                    let k = n - start.0;
                    assert((done + nums.take(k + 1)).drop_last() =~= done + nums.take(k));
                    assert((done + nums.take(k + 1)).last() == u24(n));
                }
                self.resend_one(n, buf);
                n = n + 1;
            }
            proof {
                assert(done + nums.take(n - start.0) =~= done + nums);
                assert(rs.take(i + 1).drop_last() =~= rs.take(i as int));
                assert(rs.take(i + 1).last() == record);
            }
            i = i + 1;
        }
        assert(rs.take(i as int) =~= rs);
    }

    /// Collects all frames that are overdue at `now` into the buffer and removes their entries.
    pub fn process_stales(&mut self, buf: &mut SendBuffer, now: u64)
        requires
            old(self).wf(),
            old(buf)@.wf(),
        ensures
            final(self).wf(),
            final(buf)@.wf(),
            final(buf).cap == old(buf).cap,
            final(buf)@ == (Waiting { resend: final(buf)@.resend, ..old(buf)@ }),
            scanned(
                old(self).resending(old(buf)@.resend),
                final(self).resending(final(buf)@.resend),
                now,
            ),
    {
        if self.map.is_empty() {
            return ;
        }
        if (now as u128) < self.last_record_expired_at {
            return ;
        }
        let ghost m0 = self.map@;
        let ghost q0 = buf@.resend;
        let rto: u128 = self.estimator.rto();
        let wait: u128 = if rto < MAX_SKIP_SCAN_RTO {
            rto
        } else {
            MAX_SKIP_SCAN_RTO
        };
        let latest: u128 = now as u128 + wait;
        let mut next: u128 = latest;
        let mut lost = false;
        let numbers = numbers_of(&self.map);
        let mut i: usize = 0;
        let ghost mut bound: nat = 0;
        proof {
            assert(overdue(m0, now, 0) =~= Seq::empty());
        }
        while i < numbers.len()
            invariant
                i <= numbers@.len(),
                old(self).wf(),
                m0 == old(self).map@,
                forall|a: int, b: int| 0 <= a < b < numbers@.len() ==> numbers@[a] < numbers@[b],
                forall|a: int| 0 <= a < numbers@.len() ==> m0.contains_key(#[trigger] numbers@[a]),
                forall|n: u32| #[trigger] m0.contains_key(n) ==> numbers@.contains(n),
                self.wf(),
                buf@.wf(),
                buf.cap == old(buf).cap,
                buf@ == (Waiting { resend: buf@.resend, ..old(buf)@ }),
                self.estimator == old(self).estimator,
                self.last_record_expired_at == old(self).last_record_expired_at,
                i == 0 ==> bound == 0,
                i > 0 ==> bound == numbers@[i - 1] + 1,
                (self.map@, buf@.resend) == asked_again(m0, q0, overdue(m0, now, bound)),
                lost == (overdue(m0, now, bound).len() > 0),
                now < next <= latest,
                forall|n: u32| #[trigger]
                    self.map@.contains_key(n) <==> m0.contains_key(n) && !(n < bound
                        && m0[n].expired_at <= now),
                forall|n: u32| #[trigger] self.map@.contains_key(n) ==> self.map@[n] == m0[n],
                forall|n: u32|
                    n < bound && #[trigger] self.map@.contains_key(n) ==> next
                        <= m0[n].expired_at,
                next == latest || exists|n: u32| #[trigger]
                    self.map@.contains_key(n) && n < bound && next == m0[n].expired_at,
            decreases numbers@.len() - i,
        {
            let n: u32 = numbers[i];
            assert(m0.contains_key(n));
            proof {
                assert forall|k: u32| bound <= k < n implies !m0.contains_key(k) by {
                    if m0.contains_key(k) {
                        assert(numbers@.contains(k));
                    }
                }
                lemma_overdue_skip(m0, now, bound, n as nat);
            }
            let ghost before = overdue(m0, now, n as nat);
            assert(self.map@.contains_key(n));
            let expired_at: u128 = match self.map.get(&n) {
                Some(entry) => entry.expired_at,
                None => 0,
            };
            if expired_at <= now as u128 {
                proof {
                    assert(overdue(m0, now, (n + 1) as nat) == before.push(u24(n)));
                    assert(before.push(u24(n)).drop_last() =~= before);
                }
                let ghost gone = self.map@;
                self.resend_one(n, buf);
                lost = true;
                proof {
                    if next != latest {
                        let w = choose|w: u32| #[trigger]
                            gone.contains_key(w) && w < bound && next == m0[w].expired_at;
                        assert(self.map@.contains_key(w));
                    }
                }
            } else {
                if expired_at < next {
                    next = expired_at;
                    assert(self.map@.contains_key(n) && n < n + 1 && next == m0[n].expired_at);
                }
            }
            proof {
                bound = (n + 1) as nat;
            }
            i = i + 1;
        }
        proof {
            assert forall|k: u32| bound <= k < U24_RANGE implies !m0.contains_key(k) by {
                if m0.contains_key(k) {
                    assert(numbers@.contains(k));
                }
            }
            assert(bound <= U24_RANGE) by {
                if i > 0 {
                    assert(m0.contains_key(numbers@[i - 1]));
                }
            }
            lemma_overdue_skip(m0, now, bound, U24_RANGE as nat);
            assert forall|k: u32| #[trigger] self.map@.contains_key(k) implies next
                <= self.map@[k].expired_at by {
                assert(m0.contains_key(k));
                assert(k < U24_RANGE);
            }
        }
        self.last_record_expired_at = next;
        if lost {
            // clear the estimator if detected packet loss
            self.estimator.clear();
        }
    }

    /// Whether no frame set is kept.
    pub fn is_empty(&self) -> (r: bool)
        ensures
            r == (self.map@.dom() == Set::<u32>::empty()),
    {
        self.map.is_empty()
    }

    /// The frame set that is overdue next, and when; the least number where there are several.
    /// There is nothing to wait for where some frame set is overdue at `now`, or none is kept.
    pub fn poll_wait(&self, now: u64) -> (r: Option<(u24, u128)>)
        ensures
            match r {
                Some((seq_num, expired_at)) => {
                    &&& self.map@.contains_key(seq_num.0)
                    &&& self.map@[seq_num.0].expired_at == expired_at
                    &&& now < expired_at
                    &&& forall|n: u32| #[trigger]
                        self.map@.contains_key(n) ==> expired_at < self.map@[n].expired_at || (
                        expired_at == self.map@[n].expired_at && seq_num.0 <= n)
                },
                None => self.map@.dom() == Set::<u32>::empty() || exists|n: u32| #[trigger]
                    self.map@.contains_key(n) && self.map@[n].expired_at <= now,
            },
    {
        let numbers = numbers_of(&self.map);
        let mut first: Option<(u24, u128)> = None;
        let mut i: usize = 0;
        while i < numbers.len()
            invariant
                i <= numbers@.len(),
                forall|a: int, b: int| 0 <= a < b < numbers@.len() ==> numbers@[a] < numbers@[b],
                forall|a: int|
                    0 <= a < numbers@.len() ==> self.map@.contains_key(#[trigger] numbers@[a]),
                match first {
                    Some((seq_num, expired_at)) => {
                        &&& i > 0
                        &&& self.map@.contains_key(seq_num.0)
                        &&& self.map@[seq_num.0].expired_at == expired_at
                        &&& forall|a: int|
                            0 <= a < i ==> expired_at < self.map@[#[trigger] numbers@[a]].expired_at
                                || (expired_at == self.map@[numbers@[a]].expired_at && seq_num.0
                                <= numbers@[a])
                        &&& seq_num.0 <= numbers@[i - 1]
                    },
                    None => i == 0,
                },
            decreases numbers@.len() - i,
        {
            let n: u32 = numbers[i];
            assert(self.map@.contains_key(numbers@[i as int]));
            if let Some(entry) = self.map.get(&n) {
                let sooner = match first {
                    Some((_, expired_at)) => entry.expired_at < expired_at,
                    None => true,
                };
                if sooner {
                    first = Some((u24(n), entry.expired_at));
                }
            }
            i = i + 1;
        }
        match first {
            Some((seq_num, expired_at)) => {
                if expired_at > now as u128 {
                    proof {
                        assert forall|n: u32| #[trigger] self.map@.contains_key(n) implies expired_at
                            < self.map@[n].expired_at || (expired_at == self.map@[n].expired_at
                            && seq_num.0 <= n) by {
                            assert(numbers@.contains(n));
                        }
                    }
                    Some((seq_num, expired_at))
                } else {
                    None
                }
            },
            None => {
                proof {
                    assert forall|n: u32| !self.map@.dom().contains(n) by {
                        if self.map@.contains_key(n) {
                            assert(numbers@.contains(n));
                        }
                    }
                    assert(self.map@.dom() =~= Set::<u32>::empty());
                }
                None
            },
        }
    }
}

proof fn lemma_overdue_skip(m: Map<u32, ResendEntry>, now: u64, a: nat, b: nat)
    requires
        a <= b <= u32::MAX,
        forall|k: u32| a <= k < b ==> !m.contains_key(k),
    ensures
        overdue(m, now, b) == overdue(m, now, a),
    decreases b,
{
    if a < b {
        lemma_overdue_skip(m, now, a, (b - 1) as nat);
        assert(!m.contains_key((b - 1) as u32));
    }
}

/// Some of the numbers is `n`.
pub open spec fn covers(nums: Seq<u24>, n: u32) -> bool {
    exists|i: int| 0 <= i < nums.len() && (#[trigger] nums[i]).0 == n
}

proof fn lemma_covers_last(nums: Seq<u24>, n: u32)
    requires
        nums.len() > 0,
    ensures
        covers(nums, n) == (covers(nums.drop_last(), n) || nums.last().0 == n),
{
    if covers(nums.drop_last(), n) {
        let i = choose|i: int| 0 <= i < nums.len() - 1 && (#[trigger] nums.drop_last()[i]).0 == n;
        assert(nums[i].0 == n);
    }
    if covers(nums, n) {
        let i = choose|i: int| 0 <= i < nums.len() && (#[trigger] nums[i]).0 == n;
        if i < nums.len() - 1 {
            assert(nums.drop_last()[i].0 == n);
        }
    }
    if nums.last().0 == n {
        assert(nums[nums.len() - 1].0 == n);
    }
}

/// What was acknowledged is not sent again, and all else is kept as it was.
pub proof fn lemma_acked(m: Map<u32, ResendEntry>, e: RFC6298Impl, nums: Seq<u24>, at: u64)
    ensures
        forall|n: u32| #[trigger]
            acked(m, e, nums, at).0.contains_key(n) <==> m.contains_key(n) && !covers(nums, n),
        forall|n: u32| #[trigger]
            acked(m, e, nums, at).0.contains_key(n) ==> acked(m, e, nums, at).0[n] == m[n],
    decreases nums.len(),
{
    if nums.len() > 0 {
        let (before, _) = acked(m, e, nums.drop_last(), at);
        let (after, _) = acked(m, e, nums, at);
        lemma_acked(m, e, nums.drop_last(), at);
        assert forall|n: u32| (#[trigger] after.contains_key(n) <==> m.contains_key(n) && !covers(
            nums,
            n,
        )) && (after.contains_key(n) ==> after[n] == m[n]) by {
            lemma_covers_last(nums, n);
            assert(before.contains_key(n) <==> m.contains_key(n) && !covers(nums.drop_last(), n));
            assert(before.contains_key(n) ==> before[n] == m[n]);
        }
    }
}

/// What was asked for is kept no longer, and all else is kept as it was.
pub proof fn lemma_asked_again(m: Map<u32, ResendEntry>, queue: Seq<PenaltyFrame>, nums: Seq<u24>)
    ensures
        forall|n: u32| #[trigger]
            asked_again(m, queue, nums).0.contains_key(n) <==> m.contains_key(n) && !covers(
                nums,
                n,
            ),
        forall|n: u32| #[trigger]
            asked_again(m, queue, nums).0.contains_key(n) ==> asked_again(m, queue, nums).0[n]
                == m[n],
    decreases nums.len(),
{
    if nums.len() > 0 {
        let (before, _) = asked_again(m, queue, nums.drop_last());
        let (after, _) = asked_again(m, queue, nums);
        lemma_asked_again(m, queue, nums.drop_last());
        assert forall|n: u32| (#[trigger] after.contains_key(n) <==> m.contains_key(n) && !covers(
            nums,
            n,
        )) && (after.contains_key(n) ==> after[n] == m[n]) by {
            lemma_covers_last(nums, n);
            assert(before.contains_key(n) <==> m.contains_key(n) && !covers(nums.drop_last(), n));
            assert(before.contains_key(n) ==> before[n] == m[n]);
        }
    }
}

/// No frame is lost on the way to be sent again: every frame of a frame set that is kept and
/// asked for waits to be sent, with its penalty raised; and what waited before still waits.
pub proof fn lemma_frames_wait(
    m: Map<u32, ResendEntry>,
    queue: Seq<PenaltyFrame>,
    nums: Seq<u24>,
    n: u32,
    i: int,
)
    requires
        sorted(queue),
        m.contains_key(n),
        covers(nums, n),
        0 <= i < m[n].frames@.len(),
    ensures
        asked_again(m, queue, nums).1.contains(
            PenaltyFrame { penalty: raised(m[n].penalty), frame: m[n].frames@[i] },
        ),
    decreases nums.len(),
{
    let init = nums.drop_last();
    let (m1, q1) = asked_again(m, queue, init);
    let x = PenaltyFrame { penalty: raised(m[n].penalty), frame: m[n].frames@[i] };
    lemma_covers_last(nums, n);
    lemma_asked_again(m, queue, init);
    lemma_queue_sorted(m, queue, init);
    let k = nums.last().0;
    if m1.contains_key(k) {
        let added = with_penalty(m1[k].frames@, raised(m1[k].penalty));
        lemma_insert_all(q1, added);
        if covers(init, n) {
            lemma_frames_wait(m, queue, init, n, i);
            let j = choose|j: int| 0 <= j < q1.len() && q1[j] == x;
            assert(insert_all(q1, added).contains(q1[j]));
        } else {
            assert(added[i] == x);
            assert(insert_all(q1, added).contains(added[i]));
        }
    } else {
        if !covers(init, n) {
            assert(m1.contains_key(n));
        }
        lemma_frames_wait(m, queue, init, n, i);
    }
}

pub(crate) proof fn lemma_queue_sorted(
    m: Map<u32, ResendEntry>,
    queue: Seq<PenaltyFrame>,
    nums: Seq<u24>,
)
    requires
        sorted(queue),
    ensures
        sorted(asked_again(m, queue, nums).1),
    decreases nums.len(),
{
    if nums.len() > 0 {
        lemma_queue_sorted(m, queue, nums.drop_last());
        let (m1, q1) = asked_again(m, queue, nums.drop_last());
        let k = nums.last().0;
        lemma_insert_all(q1, with_penalty(m1[k].frames@, raised(m1[k].penalty)));
    }
}

/// A frame set is overdue exactly when its time has come.
pub proof fn lemma_overdue(m: Map<u32, ResendEntry>, now: u64, bound: nat)
    requires
        bound <= u32::MAX,
    ensures
        forall|n: u32| #[trigger]
            covers(overdue(m, now, bound), n) <==> n < bound && m.contains_key(n)
                && m[n].expired_at <= now,
    decreases bound,
{
    if bound > 0 {
        let k = (bound - 1) as u32;
        let before = overdue(m, now, (bound - 1) as nat);
        let nums = overdue(m, now, bound);
        lemma_overdue(m, now, (bound - 1) as nat);
        assert forall|n: u32| #[trigger] covers(nums, n) <==> n < bound && m.contains_key(n)
            && m[n].expired_at <= now by {
            if m.contains_key(k) && m[k].expired_at <= now {
                lemma_covers_last(nums, n);
                assert(nums.drop_last() =~= before);
            }
            assert(covers(before, n) <==> n < bound - 1 && m.contains_key(n) && m[n].expired_at
                <= now);
        }
    }
}

proof fn lemma_increasing(keys: Seq<u32>)
    requires
        increasing_seq(keys),
    ensures
        forall|i: int, j: int| 0 <= i < j < keys.len() ==> keys[i] < keys[j],
{
    assert forall|i: int, j: int| 0 <= i < j < keys.len() implies keys[i] < keys[j] by {
        assert(keys[i].cmp_spec(&keys[j]) is Less);
    }
}

} // verus!
