//! Timers: who is to be woken when. All times are in nanoseconds.
use std::collections::HashMap;

use vstd::prelude::*;

verus! {

/// Someone who is to be woken at `when`.
#[derive(Debug)]
pub struct Timer<W> {
    pub when: u128,
    pub key: u64,
    pub waker: W,
}

/// One timer fires before another: it is due earlier, or at the same time with a lesser key.
pub open spec fn before(when: u128, key: u64, other_when: u128, other_key: u64) -> bool {
    when < other_when || (when == other_when && key < other_key)
}

/// The timers are in the order in which they fire, and no two have both time and key in common.
pub open spec fn in_order<W>(ts: Seq<Timer<W>>) -> bool {
    forall|i: int, j: int|
        0 <= i < j < ts.len() ==> before(
            (#[trigger] ts[i]).when,
            ts[i].key,
            (#[trigger] ts[j]).when,
            ts[j].key,
        )
}

/// How many of the timers fire before this one.
pub open spec fn rank<W>(ts: Seq<Timer<W>>, when: u128, key: u64) -> int
    decreases ts.len(),
{
    if ts.len() == 0 {
        0
    } else if before(ts[0].when, ts[0].key, when, key) {
        1 + rank(ts.skip(1), when, key)
    } else {
        0
    }
}

/// There is a timer with this time and key; it stands at its rank.
pub open spec fn present<W>(ts: Seq<Timer<W>>, when: u128, key: u64) -> bool {
    let at = rank(ts, when, key);
    at < ts.len() && ts[at].when == when && ts[at].key == key
}

/// The timers with one more; it takes the place of one with the same time and key.
pub open spec fn inserted<W>(ts: Seq<Timer<W>>, t: Timer<W>) -> Seq<Timer<W>> {
    let at = rank(ts, t.when, t.key);
    if present(ts, t.when, t.key) {
        ts.update(at, t)
    } else {
        ts.insert(at, t)
    }
}

/// How many of the timers are due at `now`, one set for exactly `now` among them.
pub open spec fn due_count<W>(ts: Seq<Timer<W>>, now: u128) -> int
    decreases ts.len(),
{
    if ts.len() > 0 && ts[0].when <= now {
        1 + due_count(ts.skip(1), now)
    } else {
        0
    }
}

/// `m` without the keys of the timers.
pub open spec fn without_keys<W>(m: Map<u64, u128>, ts: Seq<Timer<W>>) -> Map<u64, u128>
    decreases ts.len(),
{
    if ts.len() == 0 {
        m
    } else {
        without_keys(m, ts.drop_last()).remove(ts.last().key)
    }
}

/// How long it is at `now` until the first timer is due, where there is one.
pub open spec fn wait_for<W>(ts: Seq<Timer<W>>, now: u128) -> Option<u128> {
    if ts.len() == 0 {
        None
    } else if ts[0].when >= now {
        Some((ts[0].when - now) as u128)
    } else {
        Some(0)
    }
}

/// A simple timer reactor.
#[verifier::reject_recursive_types(W)]
pub struct Timers<W> {
    /// The registered timers, in the order in which they fire.
    pub timers: Vec<Timer<W>>,
    /// When the timer that was registered last under a key fires. This is used to cancel timers.
    pub mapping: HashMap<u64, u128>,
}

impl<W> Timers<W> {
    /// The timers are in order, and each key stands for one of them.
    pub open spec fn wf(self) -> bool {
        &&& in_order(self.timers@)
        &&& forall|k: u64| #[trigger]
            self.mapping@.contains_key(k) ==> present(self.timers@, self.mapping@[k], k)
    }

    /// No timers.
    pub fn new() -> (r: Timers<W>)
        ensures
            r.wf(),
            r.timers@ == Seq::<Timer<W>>::empty(),
            r.mapping@ == Map::<u64, u128>::empty(),
    {
        broadcast use vstd::std_specs::hash::group_hash_axioms;

        Timers { timers: Vec::new(), mapping: HashMap::new() }
    }

    /// The place of a timer with this time and key.
    fn rank_of(&self, when: u128, key: u64) -> (r: usize)
        ensures
            r == rank(self.timers@, when, key),
            r <= self.timers@.len(),
    {
        let ghost ts = self.timers@;
        let mut at: usize = 0;
        assert(ts.skip(0) =~= ts);
        while at < self.timers.len()
            invariant_except_break
                rank(ts, when, key) == at + rank(ts.skip(at as int), when, key),
            invariant
                ts == self.timers@,
                at <= ts.len(),
            ensures
                at == rank(ts, when, key),
            decreases ts.len() - at,
        {
            assert(ts.skip(at as int)[0] == ts[at as int]);
            assert(ts.skip(at as int).skip(1) =~= ts.skip(at + 1));
            let t = &self.timers[at];
            if !(t.when < when || (t.when == when && t.key < key)) {
                break;
            }
            at = at + 1;
        }
        at
    }

    /// Registers a timer.
    pub fn insert_timer(&mut self, key: u64, when: u128, waker: W)
        requires
            old(self).wf(),
        ensures
            final(self).wf(),
            final(self).timers@ == inserted(old(self).timers@, Timer { when, key, waker }),
            final(self).mapping@ == old(self).mapping@.insert(key, when),
    {
        broadcast use vstd::std_specs::hash::group_hash_axioms;

        let ghost ts = self.timers@;
        let at: usize = self.rank_of(when, key);
        let t = Timer { when, key, waker };
        let replaces = at < self.timers.len() && self.timers[at].when == when
            && self.timers[at].key == key;
        if replaces {
            self.timers.remove(at);
        }
        self.timers.insert(at, t);
        self.mapping.insert(key, when);
        proof {
            assert(self.timers@ =~= inserted(ts, t));
            lemma_inserted(ts, t);
            assert forall|k: u64| #[trigger] self.mapping@.contains_key(k) implies present(
                self.timers@,
                self.mapping@[k],
                k,
            ) by {
                lemma_present_iff(self.timers@, self.mapping@[k], k);
                if k != key {
                    assert(old(self).mapping@.contains_key(k));
                    lemma_present_iff(ts, self.mapping@[k], k);
                }
            }
        }
    }

    /// Cancels the timer that was registered last under a key, where there is one.
    pub fn cancel_timer(&mut self, key: u64) -> (r: Option<W>)
        requires
            old(self).wf(),
        ensures
            final(self).wf(),
            final(self).mapping@ == old(self).mapping@.remove(key),
            if old(self).mapping@.contains_key(key) {
                let at = rank(old(self).timers@, old(self).mapping@[key], key);
                &&& r == Some(old(self).timers@[at].waker)
                &&& final(self).timers@ == old(self).timers@.remove(at)
            } else {
                r is None && final(self).timers@ == old(self).timers@
            },
    {
        broadcast use vstd::std_specs::hash::group_hash_axioms;

        let ghost ts = self.timers@;
        match self.mapping.remove(&key) {
            Some(when) => {
                let at: usize = self.rank_of(when, key);
                assert(old(self).mapping@.contains_key(key));
                let t = self.timers.remove(at);
                proof {
                    lemma_removed(ts, at as int);
                    assert forall|k: u64| #[trigger] self.mapping@.contains_key(k) implies present(
                        self.timers@,
                        self.mapping@[k],
                        k,
                    ) by {
                        assert(old(self).mapping@.contains_key(k));
                        lemma_present_iff(ts, self.mapping@[k], k);
                        lemma_present_iff(self.timers@, self.mapping@[k], k);
                    }
                }
                Some(t.waker)
            },
            None => {
                assert(self.mapping@ =~= old(self).mapping@.remove(key));
                None
            },
        }
    }

    /// Takes out the timers that are due at `now`, in the order in which they fire.
    pub fn process_timers(&mut self, now: u128) -> (r: Vec<Timer<W>>)
        requires
            old(self).wf(),
        ensures
            final(self).wf(),
            ({
                let n = due_count(old(self).timers@, now);
                &&& 0 <= n <= old(self).timers@.len()
                &&& r@ == old(self).timers@.take(n)
                &&& final(self).timers@ == old(self).timers@.skip(n)
                &&& final(self).mapping@ == without_keys(old(self).mapping@, r@)
            }),
    {
        broadcast use vstd::std_specs::hash::group_hash_axioms;

        let ghost ts = self.timers@;
        let mut n: usize = 0;
        assert(ts.skip(0) =~= ts);
        while n < self.timers.len()
            invariant_except_break
                due_count(ts, now) == n + due_count(ts.skip(n as int), now),
            invariant
                ts == self.timers@,
                *self == *old(self),
                n <= ts.len(),
            ensures
                n == due_count(ts, now),
            decreases ts.len() - n,
        {
            assert(ts.skip(n as int)[0] == ts[n as int]);
            assert(ts.skip(n as int).skip(1) =~= ts.skip(n + 1));
            if self.timers[n].when > now {
                break;
            }
            n = n + 1;
        }
        let mut ready = self.timers.split_off(n);
        // the timers that are pending stay
        std::mem::swap(&mut ready, &mut self.timers);
        assert(ready@ =~= ts.take(n as int));
        assert(self.timers@ =~= ts.skip(n as int));
        let mut i: usize = 0;
        assert(ready@.take(0) =~= Seq::empty());
        while i < ready.len()
            invariant
                i <= ready@.len(),
                self.timers@ == ts.skip(n as int),
                self.mapping@ == without_keys(old(self).mapping@, ready@.take(i as int)),
            decreases ready@.len() - i,
        {
            broadcast use vstd::std_specs::hash::group_hash_axioms;

            assert(ready@.take(i + 1).drop_last() =~= ready@.take(i as int));
            assert(ready@.take(i + 1).last() == ready@[i as int]);
            let ghost m = self.mapping@;
            let key: u64 = ready[i].key;
            let gone = self.mapping.remove(&key);
            assert(self.mapping@ =~= m.remove(key));
            i = i + 1;
        }
        assert(ready@.take(i as int) =~= ready@);
        proof {
            lemma_pending(ts, old(self).mapping@, n as int);
        }
        ready
    }

    /// How long to wait at `now` for the next timer, where there is one.
    pub fn next_wait(&self, now: u128) -> (r: Option<u128>)
        requires
            self.wf(),
        ensures
            r == wait_for(self.timers@, now),
            match r {
                Some(d) => {
                    &&& self.timers@.len() > 0
                    &&& d == (if self.timers@[0].when >= now {
                        self.timers@[0].when - now
                    } else {
                        0
                    })
                },
                None => self.timers@.len() == 0,
            },
    {
        if self.timers.len() == 0 {
            return None;
        }
        let when: u128 = self.timers[0].when;
        if when >= now {
            Some(when - now)
        } else {
            Some(0)
        }
    }
}

proof fn lemma_rank<W>(ts: Seq<Timer<W>>, when: u128, key: u64)
    requires
        in_order(ts),
    ensures
        0 <= rank(ts, when, key) <= ts.len(),
        forall|i: int|
            0 <= i < rank(ts, when, key) ==> before((#[trigger] ts[i]).when, ts[i].key, when, key),
        forall|i: int|
            rank(ts, when, key) <= i < ts.len() ==> !before(
                (#[trigger] ts[i]).when,
                ts[i].key,
                when,
                key,
            ),
    decreases ts.len(),
{
    if ts.len() > 0 {
        let tail = ts.skip(1);
        if before(ts[0].when, ts[0].key, when, key) {
            lemma_rank(tail, when, key);
            assert forall|i: int| 0 <= i < rank(ts, when, key) implies before(
                (#[trigger] ts[i]).when,
                ts[i].key,
                when,
                key,
            ) by {
                if i > 0 {
                    assert(tail[i - 1] == ts[i]);
                }
            }
            assert forall|i: int| rank(ts, when, key) <= i < ts.len() implies !before(
                (#[trigger] ts[i]).when,
                ts[i].key,
                when,
                key,
            ) by {
                assert(tail[i - 1] == ts[i]);
            }
        } else {
            assert forall|i: int| 0 <= i < ts.len() implies !before(
                (#[trigger] ts[i]).when,
                ts[i].key,
                when,
                key,
            ) by {
                if i > 0 {
                    assert(before(ts[0].when, ts[0].key, ts[i].when, ts[i].key));
                }
            }
        }
    }
}

proof fn lemma_present_iff<W>(ts: Seq<Timer<W>>, when: u128, key: u64)
    requires
        in_order(ts),
    ensures
        present(ts, when, key) <==> exists|i: int|
            0 <= i < ts.len() && (#[trigger] ts[i]).when == when && ts[i].key == key,
{
    lemma_rank(ts, when, key);
    let at = rank(ts, when, key);
    if exists|i: int| 0 <= i < ts.len() && (#[trigger] ts[i]).when == when && ts[i].key == key {
        let i = choose|i: int|
            0 <= i < ts.len() && (#[trigger] ts[i]).when == when && ts[i].key == key;
        if i > at {
            assert(before(ts[at].when, ts[at].key, ts[i].when, ts[i].key));
        }
    }
}

proof fn lemma_inserted<W>(ts: Seq<Timer<W>>, t: Timer<W>)
    requires
        in_order(ts),
    ensures
        in_order(inserted(ts, t)),
        forall|i: int|
            0 <= i < ts.len() ==> exists|j: int|
                0 <= j < inserted(ts, t).len() && (#[trigger] inserted(ts, t)[j]).when == (
                #[trigger] ts[i]).when && inserted(ts, t)[j].key == ts[i].key,
        exists|j: int|
            0 <= j < inserted(ts, t).len() && (#[trigger] inserted(ts, t)[j]).when == t.when
                && inserted(ts, t)[j].key == t.key,
{
    let at = rank(ts, t.when, t.key);
    let us = inserted(ts, t);
    lemma_rank(ts, t.when, t.key);
    assert(us[at] == t);
    if present(ts, t.when, t.key) {
        assert forall|i: int| 0 <= i < ts.len() implies exists|j: int|
            0 <= j < us.len() && (#[trigger] us[j]).when == (#[trigger] ts[i]).when && us[j].key
                == ts[i].key by {
            assert(us[i].when == ts[i].when && us[i].key == ts[i].key);
        }
        assert forall|i: int, j: int| 0 <= i < j < us.len() implies before(
            (#[trigger] us[i]).when,
            us[i].key,
            (#[trigger] us[j]).when,
            us[j].key,
        ) by {
            assert(before(ts[i].when, ts[i].key, ts[j].when, ts[j].key));
        }
    } else {
        assert forall|i: int| 0 <= i < ts.len() implies exists|j: int|
            0 <= j < us.len() && (#[trigger] us[j]).when == (#[trigger] ts[i]).when && us[j].key
                == ts[i].key by {
            if i < at {
                assert(us[i] == ts[i]);
            } else {
                assert(us[i + 1] == ts[i]);
            }
        }
        assert forall|i: int, j: int| 0 <= i < j < us.len() implies before(
            (#[trigger] us[i]).when,
            us[i].key,
            (#[trigger] us[j]).when,
            us[j].key,
        ) by {
            let a = if i < at {
                i
            } else {
                i - 1
            };
            let b = if j < at {
                j
            } else {
                j - 1
            };
            if i != at {
                assert(us[i] == ts[a]);
            }
            if j != at {
                assert(us[j] == ts[b]);
            }
            if i == at {
                assert(!before(ts[b].when, ts[b].key, t.when, t.key));
                if ts[b].when == t.when && ts[b].key == t.key {
                    if b > at {
                        assert(before(ts[at].when, ts[at].key, ts[b].when, ts[b].key));
                    }
                }
            }
        }
    }
}

proof fn lemma_removed<W>(ts: Seq<Timer<W>>, at: int)
    requires
        in_order(ts),
        0 <= at < ts.len(),
    ensures
        in_order(ts.remove(at)),
        forall|i: int|
            0 <= i < ts.len() && i != at ==> ts.remove(at).contains(#[trigger] ts[i]),
{
    let us = ts.remove(at);
    assert forall|i: int| 0 <= i < ts.len() && i != at implies us.contains(#[trigger] ts[i]) by {
        if i < at {
            assert(us[i] == ts[i]);
        } else {
            assert(us[i - 1] == ts[i]);
        }
    }
}

proof fn lemma_without_keys<W>(m: Map<u64, u128>, ts: Seq<Timer<W>>, k: u64)
    ensures
        without_keys(m, ts).contains_key(k) ==> m.contains_key(k) && without_keys(m, ts)[k] == m[k]
            && forall|i: int| 0 <= i < ts.len() ==> (#[trigger] ts[i]).key != k,
    decreases ts.len(),
{
    if ts.len() > 0 {
        lemma_without_keys(m, ts.drop_last(), k);
        if without_keys(m, ts).contains_key(k) {
            assert forall|i: int| 0 <= i < ts.len() implies (#[trigger] ts[i]).key != k by {
                if i < ts.len() - 1 {
                    assert(ts.drop_last()[i].key != k);
                }
            }
        }
    }
}

proof fn lemma_pending<W>(ts: Seq<Timer<W>>, m: Map<u64, u128>, n: int)
    requires
        in_order(ts),
        0 <= n <= ts.len(),
        forall|k: u64| #[trigger] m.contains_key(k) ==> present(ts, m[k], k),
    ensures
        in_order(ts.skip(n)),
        forall|k: u64| #[trigger]
            without_keys(m, ts.take(n)).contains_key(k) ==> present(
                ts.skip(n),
                without_keys(m, ts.take(n))[k],
                k,
            ),
{
    let us = ts.skip(n);
    assert forall|i: int, j: int| 0 <= i < j < us.len() implies before(
        (#[trigger] us[i]).when,
        us[i].key,
        (#[trigger] us[j]).when,
        us[j].key,
    ) by {
        assert(before(ts[i + n].when, ts[i + n].key, ts[j + n].when, ts[j + n].key));
    }
    assert forall|k: u64| #[trigger] without_keys(m, ts.take(n)).contains_key(k) implies present(
        us,
        without_keys(m, ts.take(n))[k],
        k,
    ) by {
        lemma_without_keys(m, ts.take(n), k);
        lemma_present_iff(ts, m[k], k);
        lemma_present_iff(us, m[k], k);
        let i = choose|i: int|
            0 <= i < ts.len() && (#[trigger] ts[i]).when == m[k] && ts[i].key == k;
        if i < n {
            assert(ts.take(n)[i].key != k);
        }
        assert(us[i - n] == ts[i]);
    }
}

/// Every timer that is taken out is due, and none that stays is.
pub proof fn lemma_due<W>(ts: Seq<Timer<W>>, now: u128)
    requires
        in_order(ts),
    ensures
        0 <= due_count(ts, now) <= ts.len(),
        forall|i: int| 0 <= i < due_count(ts, now) ==> (#[trigger] ts[i]).when <= now,
        forall|i: int| due_count(ts, now) <= i < ts.len() ==> (#[trigger] ts[i]).when > now,
    decreases ts.len(),
{
    if ts.len() > 0 {
        let tail = ts.skip(1);
        if ts[0].when <= now {
            lemma_due(tail, now);
            assert forall|i: int| 0 <= i < due_count(ts, now) implies (#[trigger] ts[i]).when
                <= now by {
                if i > 0 {
                    assert(tail[i - 1] == ts[i]);
                }
            }
            assert forall|i: int| due_count(ts, now) <= i < ts.len() implies (
            #[trigger] ts[i]).when > now by {
                assert(tail[i - 1] == ts[i]);
            }
        } else {
            assert forall|i: int| 0 <= i < ts.len() implies (#[trigger] ts[i]).when > now by {
                if i > 0 {
                    assert(before(ts[0].when, ts[0].key, ts[i].when, ts[i].key));
                }
            }
        }
    }
}

/// A timer that is registered is there, in the place of one with the same time and key; every
/// other one stays, and none is added beside it. They fire by their times, at one time by their
/// keys.
pub proof fn lemma_registered<W>(ts: Seq<Timer<W>>, t: Timer<W>)
    requires
        in_order(ts),
    ensures
        forall|u: Timer<W>| #[trigger]
            inserted(ts, t).contains(u) <==> u == t || (ts.contains(u) && !(u.when == t.when
                && u.key == t.key)),
        forall|i: int, j: int|
            0 <= i < j < inserted(ts, t).len() ==> (#[trigger] inserted(ts, t)[i]).when < (
            #[trigger] inserted(ts, t)[j]).when || (inserted(ts, t)[i].when == inserted(
                ts,
                t,
            )[j].when && inserted(ts, t)[i].key < inserted(ts, t)[j].key),
{
    let at = rank(ts, t.when, t.key);
    let us = inserted(ts, t);
    lemma_rank(ts, t.when, t.key);
    lemma_inserted(ts, t);
    assert(us[at] == t);
    assert forall|u: Timer<W>| #[trigger] us.contains(u) <==> u == t || (ts.contains(u) && !(u.when
        == t.when && u.key == t.key)) by {
        if us.contains(u) && u != t {
            let i = choose|i: int| 0 <= i < us.len() && us[i] == u;
            if i < at {
                assert(ts[i] == u);
                assert(before(ts[i].when, ts[i].key, t.when, t.key));
            } else if present(ts, t.when, t.key) {
                assert(ts[i] == u);
                assert(before(ts[at].when, ts[at].key, ts[i].when, ts[i].key));
            } else {
                assert(ts[i - 1] == u);
                if u.when == t.when && u.key == t.key {
                    if i - 1 > at {
                        assert(before(ts[at].when, ts[at].key, ts[i - 1].when, ts[i - 1].key));
                    }
                }
            }
        }
        if ts.contains(u) && !(u.when == t.when && u.key == t.key) {
            let i = choose|i: int| 0 <= i < ts.len() && ts[i] == u;
            if i < at || present(ts, t.when, t.key) {
                assert(us[i] == u);
            } else {
                assert(us[i + 1] == u);
            }
        }
    }
}

/// The timer that a key stands for is found where it is.
pub proof fn lemma_found<W>(ts: Seq<Timer<W>>, when: u128, key: u64)
    requires
        in_order(ts),
    ensures
        (exists|i: int| 0 <= i < ts.len() && (#[trigger] ts[i]).when == when && ts[i].key == key)
            ==> 0 <= rank(ts, when, key) < ts.len() && ts[rank(ts, when, key)].when == when
            && ts[rank(ts, when, key)].key == key,
{
    lemma_present_iff(ts, when, key);
    lemma_rank(ts, when, key);
}

/// A key stands for a timer no longer once one under it was taken out, and every other key stands
/// for what it did.
pub proof fn lemma_keys_gone<W>(m: Map<u64, u128>, ts: Seq<Timer<W>>, k: u64)
    ensures
        without_keys(m, ts).contains_key(k) <==> m.contains_key(k) && forall|i: int|
            0 <= i < ts.len() ==> (#[trigger] ts[i]).key != k,
        without_keys(m, ts).contains_key(k) ==> without_keys(m, ts)[k] == m[k],
    decreases ts.len(),
{
    if ts.len() > 0 {
        let init = ts.drop_last();
        lemma_keys_gone(m, init, k);
        assert(ts[ts.len() - 1] == ts.last());
        if forall|i: int| 0 <= i < ts.len() ==> (#[trigger] ts[i]).key != k {
            assert forall|i: int| 0 <= i < init.len() implies (#[trigger] init[i]).key != k by {
                assert(ts[i].key != k);
            }
        } else {
            let i = choose|i: int| 0 <= i < ts.len() && (#[trigger] ts[i]).key == k;
            if i < init.len() {
                assert(init[i].key == k);
            }
        }
    }
}

/// One waits until the first timer is due and no longer: before, none is due; then, one is. One
/// does not wait where one is due already.
pub proof fn lemma_wait<W>(ts: Seq<Timer<W>>, now: u128)
    requires
        in_order(ts),
    ensures
        match wait_for(ts, now) {
            None => ts.len() == 0,
            Some(d) => {
                &&& exists|i: int| 0 <= i < ts.len() && (#[trigger] ts[i]).when <= now + d
                &&& d > 0 ==> forall|i: int|
                    0 <= i < ts.len() ==> (#[trigger] ts[i]).when >= now + d
            },
        },
{
    if ts.len() > 0 {
        assert(ts[0].when <= now + wait_for(ts, now)->Some_0);
        assert forall|i: int| 0 < i < ts.len() implies (#[trigger] ts[i]).when >= ts[0].when by {
            assert(before(ts[0].when, ts[0].key, ts[i].when, ts[i].key));
        }
    }
}

} // verus!
