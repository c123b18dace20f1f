//! The parts of split messages that wait for the others.
use std::num::NonZeroUsize;

use bytes::BytesMut;
use lru::LruCache;
use vstd::prelude::*;

use crate::buf::{put_bytes_mut, Contents};
use crate::packet::connected::frame::Frame;
use crate::sorted_queue::{insert_sorted, lemma_slot, slot, sorted, Keyed, SortedQueue};

verus! {

/// A frame that carries a part, by its place in the message.
#[derive(Debug)]
pub struct FramePart<B> {
    pub parted_index: u32,
    pub frame: Frame<B>,
}

impl<B> Keyed for FramePart<B> {
    open spec fn spec_key(&self) -> nat {
        self.parted_index as nat
    }

    fn key(&self) -> (r: u64) {
        self.parted_index as u64
    }
}

impl<B: Contents> View for FramePart<B> {
    type V = FramePart<Seq<u8>>;

    open spec fn view(&self) -> FramePart<Seq<u8>> {
        FramePart { parted_index: self.parted_index, frame: self.frame@ }
    }
}

/// The parts of one message, by their places.
pub type PartQueue = SortedQueue<FramePart<BytesMut>>;

/// What a run of parts holds.
pub open spec fn parts_view<B: Contents>(s: Seq<FramePart<B>>) -> Seq<FramePart<Seq<u8>>> {
    Seq::new(s.len(), |i: int| s[i]@)
}

/// The bodies of the parts, one behind the other.
pub open spec fn joined(ps: Seq<FramePart<Seq<u8>>>) -> Seq<u8>
    decreases ps.len(),
{
    if ps.len() == 0 {
        Seq::empty()
    } else {
        joined(ps.drop_last()) + ps.last().frame.body
    }
}

/// The frame that the parts of a message make together: the first one with the bodies of all. A
/// single part stays as it is.
pub open spec fn merged(ps: Seq<FramePart<Seq<u8>>>) -> Frame<Seq<u8>> {
    if ps.len() == 1 {
        ps[0].frame
    } else {
        Frame { body: joined(ps), ..ps[0].frame.whole() }
    }
}

/// What stands behind `k`.
pub open spec fn lookup<K, V>(s: Seq<(K, V)>, k: K) -> Option<V>
    decreases s.len(),
{
    if s.len() == 0 {
        None
    } else if s[0].0 == k {
        Some(s[0].1)
    } else {
        lookup(s.drop_first(), k)
    }
}

/// `s` without what stands behind `k`.
pub open spec fn without<K, V>(s: Seq<(K, V)>, k: K) -> Seq<(K, V)>
    decreases s.len(),
{
    if s.len() == 0 {
        s
    } else if s[0].0 == k {
        s.drop_first()
    } else {
        seq![s[0]] + without(s.drop_first(), k)
    }
}

/// What stays beside `k` once `k` was used: where `k` is new and there is room for `cap` entries,
/// all taken, the one that was not used for the longest time is dropped.
pub open spec fn others<V>(s: Seq<(u16, V)>, cap: nat, k: u16) -> Seq<(u16, V)> {
    if lookup(s, k) is Some {
        without(s, k)
    } else if s.len() == cap {
        s.drop_last()
    } else {
        s
    }
}

/// `lru::LruCache`: a map that drops the entry which was not used for the longest time when it
/// is full.
#[verifier::external_type_specification]
#[verifier::external_body]
#[verifier::reject_recursive_types(K)]
#[verifier::reject_recursive_types(V)]
#[verifier::reject_recursive_types(S)]
pub struct ExLruCache<K, V, S>(lru::LruCache<K, V, S>);

/// The hasher that `lru::LruCache` uses by default.
#[verifier::external_type_specification]
#[verifier::external_body]
pub struct ExDefaultHasher(lru::DefaultHasher);

/// The entries of the cache, the one used last first.
pub uninterp spec fn cache_items(c: LruCache<u16, PartQueue>) -> Seq<(u16, PartQueue)>;

/// The number of entries that the cache has room for.
pub uninterp spec fn cache_cap(c: LruCache<u16, PartQueue>) -> nat;

/// `LruCache::new`: a cache without entries. It reserves room for all of them, and panics where
/// that much cannot be addressed.
#[verifier::external_body]
pub(crate) fn new_cache(cap: usize) -> (r: LruCache<u16, PartQueue>)
    requires
        0 < cap <= isize::MAX / 64,
    ensures
        cache_items(r) == Seq::<(u16, PartQueue)>::empty(),
        cache_cap(r) == cap,
{
    LruCache::new(NonZeroUsize::new(cap).unwrap())
}

/// `LruCache::get_or_insert_mut` with a queue without parts as the default: the entry of `k`,
/// which is then the one used last. A new entry takes the place of the one that was not used for
/// the longest time where the cache is full.
#[verifier::external_body]
pub(crate) fn cache_entry(c: &mut LruCache<u16, PartQueue>, k: u16) -> (r: &mut PartQueue)
    ensures
        match lookup(cache_items(*old(c)), k) {
            Some(q) => *r == q,
            None => (*r)@ == Seq::<FramePart<BytesMut>>::empty(),
        },
        cache_items(*final(c)) == seq![(k, *final(r))] + others(
            cache_items(*old(c)),
            cache_cap(*old(c)),
            k,
        ),
        cache_cap(*final(c)) == cache_cap(*old(c)),
{
    c.get_or_insert_mut(k, || PartQueue::new())
}

/// `LruCache::pop`: takes the entry of `k` out.
#[verifier::external_body]
pub(crate) fn cache_pop(c: &mut LruCache<u16, PartQueue>, k: u16) -> (r: Option<PartQueue>)
    ensures
        r == lookup(cache_items(*old(c)), k),
        cache_items(*final(c)) == without(cache_items(*old(c)), k),
        cache_cap(*final(c)) == cache_cap(*old(c)),
{
    c.pop(&k)
}

/// `LruCache::len`: the number of entries.
#[verifier::external_body]
pub(crate) fn cache_len(c: &LruCache<u16, PartQueue>) -> (r: usize)
    ensures
        r == cache_items(*c).len(),
{
    c.len()
}

/// `LruCache::peek`: the entry of `k`, which does not count as a use.
#[verifier::external_body]
pub(crate) fn cache_peek(c: &LruCache<u16, PartQueue>, k: u16) -> (r: Option<&PartQueue>)
    ensures
        match r {
            Some(q) => lookup(cache_items(*c), k) == Some(*q),
            None => lookup(cache_items(*c), k) is None,
        },
{
    c.peek(&k)
}

/// What the entries of a cache hold.
pub open spec fn items_view(s: Seq<(u16, PartQueue)>) -> Seq<(u16, Seq<FramePart<Seq<u8>>>)> {
    Seq::new(s.len(), |i: int| (s[i].0, parts_view(s[i].1@)))
}

/// The parts of every entry are in order.
pub open spec fn items_wf(s: Seq<(u16, PartQueue)>) -> bool {
    forall|i: int| 0 <= i < s.len() ==> (#[trigger] s[i]).1.wf()
}

/// Joins the parts of a message, of which there is at least one, in the order of their places.
pub(crate) fn merge_parts(parts: PartQueue) -> (r: Frame<BytesMut>)
    requires
        parts.wf(),
        parts@.len() > 0,
    ensures
        r@ == merged(parts_view(parts@)),
{
    let ghost all = parts@;
    let ghost ps = parts_view(all);
    let mut queue: PartQueue = parts;
    let first = queue.pop().unwrap();
    let mut frame = first.frame;
    let ghost mut n: int = 1;
    assert(ps.take(1)[0] == first@);
    while !queue.is_empty()
        invariant
            queue.wf(),
            ps == parts_view(all),
            1 <= n <= all.len(),
            queue@ == all.skip(n),
            frame@ == merged(ps.take(n)),
        decreases queue@.len(),
    {
        let part = queue.pop().unwrap();
        proof {
            assert(all.skip(n).skip(1) =~= all.skip(n + 1));
            assert(ps.take(n + 1).drop_last() =~= ps.take(n));
            assert(ps.take(n + 1).last() == part@);
            if n == 1 {
                assert(ps.take(1).drop_last() =~= Seq::empty());
                assert(joined(ps.take(1).drop_last()) =~= Seq::empty());
                assert(joined(ps.take(1)) =~= ps[0].frame.body);
            }
        }
        put_bytes_mut(&mut frame.body, part.frame.body);
        frame = frame.reassembled();
        proof {
            n = n + 1;
        }
    }
    assert(ps.take(n) =~= ps);
    frame
}

pub(crate) proof fn lemma_parts_view_insert(s: Seq<FramePart<BytesMut>>, x: FramePart<BytesMut>)
    requires
        sorted(s),
    ensures
        parts_view(insert_sorted(s, x)) == insert_sorted(parts_view(s), x@),
        sorted(parts_view(s)),
{
    lemma_slot_view(s, x.spec_key());
    lemma_slot(s, x.spec_key());
    assert forall|i: int, j: int| 0 <= i < j < s.len() implies (#[trigger] parts_view(
        s,
    )[i]).spec_key() <= (#[trigger] parts_view(s)[j]).spec_key() by {
        assert(s[i].spec_key() <= s[j].spec_key());
    }
    assert(parts_view(insert_sorted(s, x)) =~= insert_sorted(parts_view(s), x@));
}

proof fn lemma_slot_view(s: Seq<FramePart<BytesMut>>, k: nat)
    ensures
        slot(parts_view(s), k) == slot(s, k),
    decreases s.len(),
{
    if s.len() > 0 {
        lemma_slot_view(s.drop_last(), k);
        assert(parts_view(s).drop_last() =~= parts_view(s.drop_last()));
    }
}

pub(crate) proof fn lemma_lookup_view(s: Seq<(u16, PartQueue)>, k: u16)
    ensures
        lookup(items_view(s), k) == (match lookup(s, k) {
            Some(q) => Some(parts_view(q@)),
            None => None,
        }),
        without(items_view(s), k) == items_view(without(s, k)),
        items_wf(s) ==> items_wf(without(s, k)),
        items_wf(s) ==> (lookup(s, k) matches Some(q) ==> q.wf()),
    decreases s.len(),
{
    if s.len() > 0 {
        let tail = s.drop_first();
        lemma_lookup_view(tail, k);
        assert(items_view(s).drop_first() =~= items_view(tail));
        assert(without(items_view(s), k) =~= items_view(without(s, k)));
        if items_wf(s) {
            assert forall|i: int| 0 <= i < tail.len() implies (#[trigger] tail[i]).1.wf() by {
                assert(s[i + 1].1.wf());
            }
            assert(s[0].1.wf());
        }
    } else {
        assert(items_view(s) =~= Seq::empty());
        assert(without(items_view(s), k) =~= items_view(without(s, k)));
    }
}

pub(crate) proof fn lemma_others_view(s: Seq<(u16, PartQueue)>, cap: nat, k: u16)
    requires
        cap > 0,
    ensures
        others(items_view(s), cap, k) == items_view(others(s, cap, k)),
        items_wf(s) ==> items_wf(others(s, cap, k)),
{
    lemma_lookup_view(s, k);
    if lookup(s, k) is None && s.len() == cap {
        assert(items_view(s).drop_last() =~= items_view(s.drop_last()));
    }
}

} // verus!
