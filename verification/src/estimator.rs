//! How long the way to the peer and back takes. All times are in nanoseconds.
use vstd::prelude::*;

verus! {

/// The round trip time before one was measured: 500 milliseconds.
pub const INITIAL_RTT: u64 = 500_000_000;

/// The granularity of the timer: 1 millisecond, as RFC 9002 recommends in section 6.1.2.
pub const TIMER_GRANULARITY: u128 = 1_000_000;

/// RTT estimation based on RFC6298.
#[derive(Debug, Clone, Copy, PartialEq, Eq, Structural)]
pub struct RFC6298Impl {
    /// The most recent RTT measurement made when receiving an ack for a previously unacked packet.
    pub latest: u64,
    /// The smoothed RTT of the connection, computed as described in RFC6298.
    pub smoothed: Option<u64>,
    /// The RTT variance, computed as described in RFC6298.
    pub var: u64,
}

/// How far two times are apart.
pub open spec fn distance(a: u64, b: u64) -> int {
    if a > b {
        a - b
    } else {
        b - a
    }
}

impl RFC6298Impl {
    /// The estimate of the round trip time.
    pub open spec fn spec_rtt(self) -> u64 {
        match self.smoothed {
            Some(smoothed) => smoothed,
            None => self.latest,
        }
    }

    /// How long to wait for an acknowledgement.
    pub open spec fn spec_rto(self) -> int {
        self.spec_rtt() + if 4 * self.var > TIMER_GRANULARITY {
            4 * self.var as int
        } else {
            TIMER_GRANULARITY as int
        }
    }

    /// The estimate after one more measurement. The first one is taken as it is.
    pub open spec fn updated(self, rtt: u64) -> RFC6298Impl {
        match self.smoothed {
            Some(smoothed) => RFC6298Impl {
                latest: rtt,
                smoothed: Some(((7 * smoothed + rtt) / 8) as u64),
                var: ((3 * self.var + distance(smoothed, rtt)) / 4) as u64,
            },
            None => RFC6298Impl { latest: rtt, smoothed: Some(rtt), var: (rtt / 2) as u64 },
        }
    }

    /// An estimate without measurements.
    pub fn new() -> (r: RFC6298Impl)
        ensures
            r == (RFC6298Impl { latest: INITIAL_RTT, smoothed: None, var: 0 }),
    {
        RFC6298Impl { latest: INITIAL_RTT, smoothed: None, var: 0 }
    }

    /// The current best RTT estimation.
    pub fn rtt(&self) -> (r: u64)
        ensures
            r == self.spec_rtt(),
    {
        match self.smoothed {
            Some(smoothed) => smoothed,
            None => self.latest,
        }
    }

    /// The current RTO estimation.
    pub fn rto(&self) -> (r: u128)
        ensures
            r == self.spec_rto(),
            r <= 5 * u64::MAX,
    {
        let spread: u128 = 4 * self.var as u128;
        let spread: u128 = if spread > TIMER_GRANULARITY {
            spread
        } else {
            TIMER_GRANULARITY
        };
        self.rtt() as u128 + spread
    }

    /// Once smoothed and var are cleared, they should be initialized with the next RTT sample.
    pub fn clear(&mut self)
        ensures
            *final(self) == (RFC6298Impl { smoothed: None, ..*old(self) }),
    {
        self.smoothed = None;
    }

    /// Takes one more measurement into account.
    pub fn update(&mut self, rtt: u64)
        ensures
            *final(self) == old(self).updated(rtt),
    {
        self.latest = rtt;
        match self.smoothed {
            Some(smoothed) => {
                let sample: u64 = if smoothed > rtt {
                    smoothed - rtt
                } else {
                    rtt - smoothed
                };
                self.var = ((3 * self.var as u128 + sample as u128) / 4) as u64;
                self.smoothed = Some(((7 * smoothed as u128 + rtt as u128) / 8) as u64);
            },
            None => {
                self.smoothed = Some(rtt);
                self.var = rtt / 2;
            },
        }
    }
}

/// The estimate of the round trip time lies between what it was and the new measurement.
pub proof fn lemma_smoothed_between(e: RFC6298Impl, rtt: u64)
    requires
        e.smoothed is Some,
    ensures
        rtt <= e.spec_rtt() ==> rtt <= e.updated(rtt).spec_rtt() <= e.spec_rtt(),
        e.spec_rtt() <= rtt ==> e.spec_rtt() <= e.updated(rtt).spec_rtt() <= rtt,
{
}

/// One waits longer than the round trip takes, by at least the granularity of the timer.
pub proof fn lemma_rto_above_rtt(e: RFC6298Impl)
    ensures
        e.spec_rto() >= e.spec_rtt() + TIMER_GRANULARITY,
{
}

/// What a measurement does to the estimate, as RFC 6298 has it. The first one is the round trip
/// time, and half of it the variance. Each further one moves the round trip time by an eighth of
/// the way towards it, and the variance by a quarter of the way towards how far it was off. Both
/// are rounded down.
pub proof fn lemma_updated(e: RFC6298Impl, rtt: u64)
    ensures
        ({
            let f = e.updated(rtt);
            &&& f.latest == rtt
            &&& f.smoothed is Some
            &&& f.spec_rtt() == f.smoothed->Some_0
            &&& e.smoothed is None ==> f.spec_rtt() == rtt && 2 * f.var <= rtt <= 2 * f.var + 1
            &&& e.smoothed matches Some(srtt) ==> {
                &&& 8 * f.spec_rtt() <= 7 * srtt + rtt < 8 * f.spec_rtt() + 8
                &&& srtt >= rtt ==> 4 * f.var <= 3 * e.var + (srtt - rtt) < 4 * f.var + 4
                &&& srtt < rtt ==> 4 * f.var <= 3 * e.var + (rtt - srtt) < 4 * f.var + 4
            }
        }),
{
}

/// How long to wait for an acknowledgement: the round trip time and four times its variance, but
/// at least a millisecond more than the round trip time. Before the first measurement the round
/// trip time is the one that was measured last, or assumed.
pub proof fn lemma_rto(e: RFC6298Impl)
    ensures
        e.smoothed is None ==> e.spec_rtt() == e.latest,
        e.spec_rto() >= e.spec_rtt() + 4 * e.var,
        e.spec_rto() >= e.spec_rtt() + 1_000_000,
        e.spec_rto() == e.spec_rtt() + 4 * e.var || e.spec_rto() == e.spec_rtt() + 1_000_000,
{
}

} // verus!
