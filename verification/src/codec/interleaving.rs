//! A split message whose parts arrive among other frames.
use vstd::prelude::*;

use crate::codec::arrival::{
    arrivals, collect_each, fresh_sets, frames_only, lemma_fresh_grouping, lemma_grouping,
    lemma_ready_stays,
};
use crate::codec::assembly::{
    as_parts, assembled, bodies, by_place, is_message, lemma_assembled, lemma_fresh_shuffled,
    lemma_shuffled, numbered_apart, numbers_of, one_of_each, parts_of, shuffled,
};
use crate::codec::decoder::dedup::{fresh_frames, numbers_seen};
use crate::codec::decoder::fragment::{collect_sets, gathered, refusal, Collected};
use crate::codec::decoder::parts::{lookup, others, without, FramePart};
use crate::codec::delivery::{lemma_split_message, lemma_split_numbers};
use crate::codec::encoder::fragment::{
    fits, frames_of, needs_split, numbered, upgraded, Counters,
};
use crate::packet::connected::frame::{Fragment, Frame};
use crate::packet::connected::frame_set::FrameSet;
use crate::packet::connected::reliability::Reliability;
use crate::sorted_queue::{insert_all, lemma_insert_all};
use crate::uint24::{u24, U24_RANGE};

verus! {

/// The frame is a part of the message `id`.
pub open spec fn is_part(f: Frame<Seq<u8>>, id: u16) -> bool {
    f.fragment matches Some(fragment) && fragment.parted_id == id
}

/// The parts of the message `id` among the frames, in order.
pub open spec fn parts_among(evs: Seq<(u24, Frame<Seq<u8>>)>, id: u16) -> Seq<Frame<Seq<u8>>>
    decreases evs.len(),
{
    if evs.len() == 0 {
        Seq::empty()
    } else if is_part(evs.last().1, id) {
        parts_among(evs.drop_last(), id).push(evs.last().1)
    } else {
        parts_among(evs.drop_last(), id)
    }
}

/// The other messages of which a part arrived since the last part of the message `id` did.
pub open spec fn rivals(evs: Seq<(u24, Frame<Seq<u8>>)>, id: u16) -> Set<u16>
    decreases evs.len(),
{
    if evs.len() == 0 {
        Set::empty()
    } else {
        match evs.last().1.fragment {
            None => rivals(evs.drop_last(), id),
            Some(fragment) => if fragment.parted_id == id {
                Set::empty()
            } else {
                rivals(evs.drop_last(), id).insert(fragment.parted_id)
            },
        }
    }
}

/// No frame of another message is refused.
pub open spec fn others_accepted(
    evs: Seq<(u24, Frame<Seq<u8>>)>,
    id: u16,
    limit_size: u32,
) -> bool {
    forall|i: int|
        0 <= i < evs.len() ==> ((#[trigger] evs[i]).1.fragment matches Some(fragment)
            ==> fragment.parted_id == id || refusal(fragment, limit_size) is None)
}

/// Between two parts of the message `id`, parts of fewer than `cap` other messages arrive.
pub open spec fn few_rivals(evs: Seq<(u24, Frame<Seq<u8>>)>, id: u16, cap: nat) -> bool {
    forall|n: int|
        0 <= n < evs.len() && parts_among(evs.take(n), id).len() > 0 ==> (#[trigger] rivals(
            evs.take(n),
            id,
        )).len() < cap
}

/// The entry of `id` stands at `p`, holds `ps`, and only entries of `set` stand before it, each
/// once.
spec fn stands_at<V>(s: Seq<(u16, V)>, p: int, id: u16, ps: V, set: Set<u16>) -> bool {
    &&& 0 <= p < s.len()
    &&& s[p] == (id, ps)
    &&& forall|i: int| 0 <= i < p ==> (#[trigger] s[i]).0 != id && set.contains(s[i].0)
    &&& forall|i: int, j: int| 0 <= i < j < p ==> (#[trigger] s[i]).0 != (#[trigger] s[j]).0
}

proof fn lemma_stands_lookup<V>(s: Seq<(u16, V)>, p: int, id: u16)
    requires
        0 <= p < s.len(),
        s[p].0 == id,
        forall|i: int| 0 <= i < p ==> (#[trigger] s[i]).0 != id,
    ensures
        lookup(s, id) == Some(s[p].1),
        without(s, id) == s.remove(p),
    decreases s.len(),
{
    let tail = s.drop_first();
    if p > 0 {
        assert(s[0].0 != id);
        assert forall|i: int| 0 <= i < p - 1 implies (#[trigger] tail[i]).0 != id by {
            assert(s[i + 1].0 != id);
        }
        lemma_stands_lookup(tail, p - 1, id);
        assert(seq![s[0]] + tail.remove(p - 1) =~= s.remove(p));
    } else {
        assert(s.remove(0) =~= tail);
    }
}

/// The first entry of `k`.
proof fn lemma_first_entry<V>(s: Seq<(u16, V)>, k: u16) -> (f: int)
    ensures
        lookup(s, k) is None ==> forall|i: int| 0 <= i < s.len() ==> (#[trigger] s[i]).0 != k,
        lookup(s, k) is Some ==> 0 <= f < s.len() && s[f].0 == k && without(s, k) == s.remove(f)
            && forall|i: int| 0 <= i < f ==> (#[trigger] s[i]).0 != k,
    decreases s.len(),
{
    if s.len() == 0 {
        0
    } else if s[0].0 == k {
        assert(s.remove(0) =~= s.drop_first());
        0
    } else {
        let tail = s.drop_first();
        let f = lemma_first_entry(tail, k);
        if lookup(tail, k) is Some {
            assert(seq![s[0]] + tail.remove(f) =~= s.remove(f + 1));
            assert forall|i: int| 0 <= i < f + 1 implies (#[trigger] s[i]).0 != k by {
                if i > 0 {
                    assert(tail[i - 1] == s[i]);
                }
            }
        } else {
            assert forall|i: int| 0 <= i < s.len() implies (#[trigger] s[i]).0 != k by {
                if i > 0 {
                    assert(tail[i - 1] == s[i]);
                }
            }
        }
        f + 1
    }
}

/// Fewer entries stand before that of `id` than `set` has members besides `k`, where `k` is not
/// among them.
proof fn lemma_place_bound<V>(
    s: Seq<(u16, V)>,
    p: int,
    id: u16,
    ps: V,
    set: Set<u16>,
    k: u16,
)
    requires
        stands_at(s, p, id, ps, set),
        set.finite(),
        forall|i: int| 0 <= i < p ==> (#[trigger] s[i]).0 != k,
    ensures
        p < set.insert(k).len(),
{
    let ids = Seq::new(p as nat, |i: int| s[i].0);
    assert(ids.no_duplicates()) by {
        assert forall|i: int, j: int| 0 <= i < ids.len() && 0 <= j < ids.len() && i
            != j implies ids[i] != ids[j] by {
            if i < j {
                assert(s[i].0 != s[j].0);
            } else {
                assert(s[j].0 != s[i].0);
            }
        }
    }
    ids.unique_seq_to_set();
    let rest = set.insert(k).remove(k);
    assert(ids.to_set().subset_of(rest)) by {
        assert forall|a: u16| ids.to_set().contains(a) implies rest.contains(a) by {
            assert(ids.contains(a));
            let i = choose|i: int| 0 <= i < ids.len() && ids[i] == a;
            assert(s[i].0 == a);
        }
    }
    vstd::set_lib::lemma_len_subset(ids.to_set(), rest);
}

/// The entry of `id` stays where another message gets its entry, or loses it.
proof fn lemma_stays<V>(
    s: Seq<(u16, V)>,
    p: int,
    id: u16,
    ps: V,
    set: Set<u16>,
    cap: nat,
    k: u16,
) -> (q: int)
    requires
        stands_at(s, p, id, ps, set),
        set.finite(),
        set.insert(k).len() < cap,
        k != id,
    ensures
        stands_at(others(s, cap, k), q, id, ps, set),
        forall|i: int| 0 <= i < q ==> (#[trigger] others(s, cap, k)[i]).0 != k,
{
    let rest = others(s, cap, k);
    let f = lemma_first_entry(s, k);
    if lookup(s, k) is Some {
        assert(rest == s.remove(f));
        if f < p {
            assert forall|i: int| 0 <= i < p - 1 implies (#[trigger] rest[i]).0 != k && rest[i].0
                != id && set.contains(rest[i].0) by {
                if i >= f {
                    assert(rest[i] == s[i + 1]);
                    assert(s[f].0 != s[i + 1].0);
                } else {
                    assert(rest[i] == s[i]);
                }
            }
            assert forall|i: int, j: int| 0 <= i < j < p - 1 implies (#[trigger] rest[i]).0 != (
            #[trigger] rest[j]).0 by {
                let a = if i >= f {
                    i + 1
                } else {
                    i
                };
                let b = if j >= f {
                    j + 1
                } else {
                    j
                };
                assert(s[a].0 != s[b].0);
            }
            p - 1
        } else {
            assert(f != p);
            assert forall|i: int| 0 <= i < p implies (#[trigger] rest[i]) == s[i] by {}
            p
        }
    } else {
        lemma_place_bound(s, p, id, ps, set, k);
        assert forall|i: int| 0 <= i < p implies (#[trigger] rest[i]) == s[i] by {}
        p
    }
}

/// With the entry of `k` in front, that of `id` stands one place further back.
proof fn lemma_pushed_back<V>(
    s: Seq<(u16, V)>,
    q: int,
    id: u16,
    ps: V,
    set: Set<u16>,
    k: u16,
    v: V,
)
    requires
        stands_at(s, q, id, ps, set),
        forall|i: int| 0 <= i < q ==> (#[trigger] s[i]).0 != k,
        k != id,
    ensures
        stands_at(seq![(k, v)] + s, q + 1, id, ps, set.insert(k)),
{
    let t = seq![(k, v)] + s;
    assert forall|i: int| 0 <= i < q + 1 implies (#[trigger] t[i]).0 != id && set.insert(
        k,
    ).contains(t[i].0) by {
        if i > 0 {
            assert(t[i] == s[i - 1]);
        }
    }
    assert forall|i: int, j: int| 0 <= i < j < q + 1 implies (#[trigger] t[i]).0 != (
    #[trigger] t[j]).0 by {
        assert(t[j] == s[j - 1]);
        if i > 0 {
            assert(t[i] == s[i - 1]);
        }
    }
}

proof fn lemma_rivals_finite(evs: Seq<(u24, Frame<Seq<u8>>)>, id: u16)
    ensures
        rivals(evs, id).finite(),
    decreases evs.len(),
{
    if evs.len() > 0 {
        lemma_rivals_finite(evs.drop_last(), id);
    }
}

/// The parts of `id` that arrived are kept: as long as some are missing, they wait together.
spec fn kept(
    start: Collected,
    cap: nat,
    limit_size: u32,
    id: u16,
    evs: Seq<(u24, Frame<Seq<u8>>)>,
) -> bool {
    let (c, e) = collect_each(start, cap, limit_size, evs);
    let mine = parts_among(evs, id);
    &&& e is None
    &&& if mine.len() == 0 {
        lookup(c.parts, id) is None
    } else {
        exists|p: int| #[trigger]
            stands_at(
                c.parts,
                p,
                id,
                insert_all(Seq::empty(), as_parts(mine)),
                rivals(evs, id),
            )
    }
}

proof fn lemma_prefix_conditions(
    evs: Seq<(u24, Frame<Seq<u8>>)>,
    id: u16,
    cap: nat,
    limit_size: u32,
    size: u32,
)
    requires
        evs.len() > 0,
        others_accepted(evs, id, limit_size),
        few_rivals(evs, id, cap),
        parts_of(parts_among(evs, id), size, id),
    ensures
        others_accepted(evs.drop_last(), id, limit_size),
        few_rivals(evs.drop_last(), id, cap),
        parts_of(parts_among(evs.drop_last(), id), size, id),
        is_part(evs.last().1, id) ==> (evs.last().1.fragment matches Some(f) && f.parted_size
            == size && f.parted_id == id && f.parted_index < size),
{
    let init = evs.drop_last();
    assert forall|i: int| 0 <= i < init.len() implies ((#[trigger] init[i]).1.fragment matches Some(
        fragment,
    ) ==> fragment.parted_id == id || refusal(fragment, limit_size) is None) by {
        assert(init[i] == evs[i]);
    }
    assert forall|n: int|
        0 <= n < init.len() && parts_among(init.take(n), id).len() > 0 implies (
    #[trigger] rivals(init.take(n), id)).len() < cap by {
        assert(init.take(n) =~= evs.take(n));
    }
    let all = parts_among(evs, id);
    let mine = parts_among(init, id);
    assert forall|i: int| 0 <= i < mine.len() implies ((
    #[trigger] mine[i]).fragment matches Some(f) && f.parted_size == size && f.parted_id == id
        && f.parted_index < size) by {
        assert(all[i] == mine[i]);
    }
    if is_part(evs.last().1, id) {
        assert(all[all.len() - 1] == evs.last().1);
    }
}

proof fn lemma_kept(
    start: Collected,
    cap: nat,
    limit_size: u32,
    size: u32,
    id: u16,
    evs: Seq<(u24, Frame<Seq<u8>>)>,
)
    requires
        cap > 0,
        limit_size == 0 || size <= limit_size,
        lookup(start.parts, id) is None,
        others_accepted(evs, id, limit_size),
        few_rivals(evs, id, cap),
        parts_among(evs, id).len() > 0 ==> rivals(evs, id).len() < cap,
        parts_of(parts_among(evs, id), size, id),
        parts_among(evs, id).len() < size,
    ensures
        kept(start, cap, limit_size, id, evs),
    decreases evs.len(),
{
    if evs.len() > 0 {
        let init = evs.drop_last();
        let ev = evs.last();
        let mine = parts_among(init, id);
        lemma_prefix_conditions(evs, id, cap, limit_size, size);
        assert(init =~= evs.take(evs.len() - 1));
        lemma_kept(start, cap, limit_size, size, id, init);
        lemma_rivals_finite(init, id);
        let (c, e) = collect_each(start, cap, limit_size, init);
        let (d, g) = collect_each(start, cap, limit_size, evs);
        assert(evs[evs.len() - 1] == ev);
        match ev.1.fragment {
            None => {},
            Some(fragment) => {
                let k = fragment.parted_id;
                let rest = others(c.parts, cap, k);
                let ps = gathered(c.parts, fragment, ev.1);
                if k == id {
                    lemma_gathered(c, id, mine, rivals(init, id), fragment, ev.1);
                    assert(stands_at(
                        d.parts,
                        0,
                        id,
                        insert_all(Seq::empty(), as_parts(mine.push(ev.1))),
                        rivals(evs, id),
                    ));
                } else {
                    assert(refusal(fragment, limit_size) is None);
                    if mine.len() == 0 {
                        lemma_absent_stays(c.parts, cap, id, k);
                        if ps.len() < fragment.parted_size {
                            assert(d.parts.drop_first() =~= rest);
                        }
                    } else {
                        let whole = insert_all(Seq::empty(), as_parts(mine));
                        let p = choose|p: int| #[trigger]
                            stands_at(c.parts, p, id, whole, rivals(init, id));
                        let q = lemma_stays(c.parts, p, id, whole, rivals(init, id), cap, k);
                        if ps.len() < fragment.parted_size {
                            lemma_pushed_back(rest, q, id, whole, rivals(init, id), k, ps);
                            assert(stands_at(d.parts, q + 1, id, whole, rivals(evs, id)));
                        } else {
                            assert(stands_at(d.parts, q, id, whole, rivals(evs, id)));
                        }
                    }
                }
            },
        }
    }
}

/// A part joins those that wait.
proof fn lemma_gathered(
    c: Collected,
    id: u16,
    mine: Seq<Frame<Seq<u8>>>,
    set: Set<u16>,
    fragment: Fragment,
    f: Frame<Seq<u8>>,
)
    requires
        f.fragment == Some(fragment),
        fragment.parted_id == id,
        if mine.len() == 0 {
            lookup(c.parts, id) is None
        } else {
            exists|p: int| #[trigger]
                stands_at(c.parts, p, id, insert_all(Seq::empty(), as_parts(mine)), set)
        },
    ensures
        gathered(c.parts, fragment, f) == insert_all(Seq::empty(), as_parts(mine.push(f))),
        gathered(c.parts, fragment, f).len() == mine.len() + 1,
{
    let ps = as_parts(mine.push(f));
    assert(ps.drop_last() =~= as_parts(mine));
    assert(ps.last() == (FramePart { parted_index: fragment.parted_index, frame: f }));
    lemma_insert_all(Seq::<FramePart<Seq<u8>>>::empty(), ps);
    if mine.len() == 0 {
        assert(insert_all(Seq::<FramePart<Seq<u8>>>::empty(), as_parts(mine)) =~= Seq::empty());
    } else {
        let whole = insert_all(Seq::empty(), as_parts(mine));
        let p = choose|p: int| #[trigger] stands_at(c.parts, p, id, whole, set);
        lemma_stands_lookup(c.parts, p, id);
    }
}

proof fn lemma_absent_stays<V>(s: Seq<(u16, V)>, cap: nat, id: u16, k: u16)
    requires
        cap > 0,
        lookup(s, id) is None,
        k != id,
    ensures
        lookup(others(s, cap, k), id) is None,
{
    let rest = others(s, cap, k);
    let f = lemma_first_entry(s, k);
    let g = lemma_first_entry(s, id);
    let h = lemma_first_entry(rest, id);
    if lookup(rest, id) is Some {
        if lookup(s, k) is Some {
            if h < f {
                assert(rest[h] == s[h]);
            } else {
                assert(rest[h] == s[h + 1]);
            }
        } else {
            assert(rest[h] == s[h]);
        }
    }
}

/// A message is put together among other frames, whoever split it and whatever its parts hold: they
/// may arrive in whatever order and however spread over frame sets, with whole messages and parts
/// of other messages in between, as long as parts of fewer than `cap` other messages come between
/// two of its own. With the last part, a frame is ready whose body is those of the parts in the
/// order of their places; none of the other parts makes anything ready. `n` is the place of the
/// last part.
pub proof fn lemma_assembled_among_others(
    start: Collected,
    cap: nat,
    limit_size: u32,
    id: u16,
    sets: Seq<(u24, Seq<Frame<Seq<u8>>>)>,
    n: int,
)
    requires
        cap > 0,
        lookup(start.parts, id) is None,
        0 <= n < arrivals(sets).len(),
        is_part(arrivals(sets)[n].1, id),
        one_of_each(parts_among(arrivals(sets).take(n + 1), id), id),
        limit_size == 0 || parts_among(arrivals(sets).take(n + 1), id).len() <= limit_size,
        others_accepted(arrivals(sets).take(n + 1), id, limit_size),
        few_rivals(arrivals(sets).take(n + 1), id, cap),
    ensures
        ({
            let evs = arrivals(sets);
            let mine = parts_among(evs.take(n + 1), id);
            let whole = FrameSet { seq_num: evs[n].0, set: assembled(mine) };
            let before = collect_each(start, cap, limit_size, evs.take(n));
            let after = collect_each(start, cap, limit_size, evs.take(n + 1));
            &&& assembled(mine).body == bodies(by_place(mine))
            &&& before.1 is None
            &&& after.1 is None
            &&& after.0.ready == before.0.ready.push(whole)
            &&& collect_sets(start, cap, limit_size, sets).0.ready.contains(whole)
            &&& forall|i: int|
                0 <= i < n && is_part((#[trigger] evs[i]).1, id) ==> collect_each(
                    start,
                    cap,
                    limit_size,
                    evs.take(i + 1),
                ).0.ready == collect_each(start, cap, limit_size, evs.take(i)).0.ready
        }),
{
    let all = arrivals(sets);
    let evs = all.take(n + 1);
    let init = all.take(n);
    let f = evs.last().1;
    let mine = parts_among(evs, id);
    let size = mine.len() as u32;
    let rest = parts_among(init, id);
    assert(evs.drop_last() =~= init);
    assert(f == all[n].1);
    lemma_assembled(mine, id);
    lemma_prefix_conditions(evs, id, cap, limit_size, size);
    assert(evs.take(n) =~= init);
    lemma_kept(start, cap, limit_size, size, id, init);
    let before = collect_each(start, cap, limit_size, init).0;
    lemma_gathered(before, id, rest, rivals(init, id), f.fragment->Some_0, f);
    let after = collect_each(start, cap, limit_size, evs).0;
    let whole = FrameSet { seq_num: all[n].0, set: assembled(mine) };
    lemma_grouping(start, cap, limit_size, sets);
    lemma_ready_stays(start, cap, limit_size, all, n + 1);
    let late = collect_each(start, cap, limit_size, all).0.ready;
    let at = before.ready.len() as int;
    assert(late.take(at + 1)[at] == whole);
    assert(late[at] == whole);
    assert forall|i: int| 0 <= i < n && is_part((#[trigger] all[i]).1, id) implies collect_each(
        start,
        cap,
        limit_size,
        all.take(i + 1),
    ).0.ready == collect_each(start, cap, limit_size, all.take(i)).0.ready by {
        lemma_early_part(start, cap, limit_size, size, id, evs, i);
        assert(evs.take(i + 1) =~= all.take(i + 1));
        assert(evs.take(i) =~= all.take(i));
    }
}

/// A split message is put together again among other frames: its parts may arrive in whatever
/// order and however spread over frame sets, with whole messages and parts of other messages in
/// between, as long as parts of fewer than `cap` other messages come between two of its own. With
/// its last part, the frame is ready that the message would have been sent in, had it not been
/// split; none of its other parts makes anything ready. `n` is the place of the last part.
pub proof fn lemma_reassembled_among_others(
    start: Collected,
    cap: nat,
    limit_size: u32,
    c: Counters,
    mtu: int,
    r: Reliability,
    channel: u8,
    data: Seq<u8>,
    sets: Seq<(u24, Seq<Frame<Seq<u8>>>)>,
    n: int,
)
    requires
        cap > 0,
        fits(mtu, r, data.len() as int),
        needs_split(mtu, r, data.len() as int),
        limit_size == 0 || frames_of(c, mtu, r, channel, data).len() <= limit_size,
        lookup(start.parts, c.parted_id) is None,
        0 <= n < arrivals(sets).len(),
        is_part(arrivals(sets)[n].1, c.parted_id),
        shuffled(
            parts_among(arrivals(sets).take(n + 1), c.parted_id),
            frames_of(c, mtu, r, channel, data),
        ),
        others_accepted(arrivals(sets).take(n + 1), c.parted_id, limit_size),
        few_rivals(arrivals(sets).take(n + 1), c.parted_id, cap),
    ensures
        ({
            let evs = arrivals(sets);
            let whole = FrameSet {
                seq_num: evs[n].0,
                set: numbered(c, upgraded(r), channel, 0, None, data),
            };
            let before = collect_each(start, cap, limit_size, evs.take(n));
            let after = collect_each(start, cap, limit_size, evs.take(n + 1));
            &&& before.1 is None
            &&& after.1 is None
            &&& after.0.ready == before.0.ready.push(whole)
            &&& collect_sets(start, cap, limit_size, sets).0.ready.contains(whole)
            &&& forall|i: int|
                0 <= i < n && is_part((#[trigger] evs[i]).1, c.parted_id) ==> collect_each(
                    start,
                    cap,
                    limit_size,
                    evs.take(i + 1),
                ).0.ready == collect_each(start, cap, limit_size, evs.take(i)).0.ready
        }),
{
    let mine = parts_among(arrivals(sets).take(n + 1), c.parted_id);
    lemma_split_message(c, mtu, r, channel, data);
    lemma_shuffled(mine, frames_of(c, mtu, r, channel, data), c.parted_id);
    lemma_assembled_among_others(start, cap, limit_size, c.parted_id, sets, n);
}

/// The parts of the message `id` among the frames, in order.
pub open spec fn parts_only(fs: Seq<Frame<Seq<u8>>>, id: u16) -> Seq<Frame<Seq<u8>>>
    decreases fs.len(),
{
    if fs.len() == 0 {
        Seq::empty()
    } else if is_part(fs.last(), id) {
        parts_only(fs.drop_last(), id).push(fs.last())
    } else {
        parts_only(fs.drop_last(), id)
    }
}

proof fn lemma_parts_among(evs: Seq<(u24, Frame<Seq<u8>>)>, id: u16)
    ensures
        parts_among(evs, id) == parts_only(frames_only(evs), id),
    decreases evs.len(),
{
    if evs.len() > 0 {
        lemma_parts_among(evs.drop_last(), id);
        assert(frames_only(evs).drop_last() =~= frames_only(evs.drop_last()));
    }
}

/// No part comes behind the place `n`.
proof fn lemma_no_more_parts(evs: Seq<(u24, Frame<Seq<u8>>)>, id: u16, n: int)
    requires
        0 <= n <= evs.len(),
        forall|i: int| n <= i < evs.len() ==> !is_part((#[trigger] evs[i]).1, id),
    ensures
        parts_among(evs.take(n), id) == parts_among(evs, id),
    decreases evs.len(),
{
    if n == evs.len() {
        assert(evs.take(n) =~= evs);
    } else {
        let init = evs.drop_last();
        assert(!is_part(evs[evs.len() - 1].1, id));
        assert forall|i: int| n <= i < init.len() implies !is_part((#[trigger] init[i]).1, id) by {
            assert(init[i] == evs[i]);
        }
        lemma_no_more_parts(init, id, n);
        assert(init.take(n) =~= evs.take(n));
    }
}

/// The members of the parts are those frames that are parts.
proof fn lemma_parts_members(fs: Seq<Frame<Seq<u8>>>, id: u16)
    ensures
        forall|i: int|
            0 <= i < parts_only(fs, id).len() ==> is_part(#[trigger] parts_only(fs, id)[i], id)
                && fs.contains(parts_only(fs, id)[i]),
        forall|i: int|
            0 <= i < fs.len() && is_part(#[trigger] fs[i], id) ==> parts_only(fs, id).contains(
                fs[i],
            ),
    decreases fs.len(),
{
    if fs.len() > 0 {
        let init = fs.drop_last();
        let before = parts_only(init, id);
        let after = parts_only(fs, id);
        lemma_parts_members(init, id);
        assert forall|i: int| 0 <= i < after.len() implies is_part(#[trigger] after[i], id)
            && fs.contains(after[i]) by {
            if i < before.len() {
                assert(after[i] == before[i]);
                assert(init.contains(before[i]));
                let k = choose|k: int| 0 <= k < init.len() && init[k] == before[i];
                assert(fs[k] == after[i]);
            } else {
                assert(fs[fs.len() - 1] == after[i]);
            }
        }
        assert forall|i: int| 0 <= i < fs.len() && is_part(
            #[trigger] fs[i],
            id,
        ) implies after.contains(fs[i]) by {
            if i < init.len() {
                assert(init[i] == fs[i]);
                assert(before.contains(init[i]));
                let k = choose|k: int| 0 <= k < before.len() && before[k] == init[i];
                assert(after[k] == fs[i]);
            } else {
                assert(after[after.len() - 1] == fs[i]);
            }
        }
    }
}

/// Where the numbers `nums` are those of the message `id` alone, other frames make no difference
/// to which of its parts pass as new.
proof fn lemma_fresh_among_others(
    seen: Set<u24>,
    nums: Set<u24>,
    id: u16,
    fs: Seq<Frame<Seq<u8>>>,
)
    requires
        forall|i: int|
            0 <= i < fs.len() ==> (is_part(#[trigger] fs[i], id) <==> (
            fs[i].reliable_frame_index matches Some(n) && nums.contains(n))),
    ensures
        parts_only(fresh_frames(seen, fs), id) == fresh_frames(seen, parts_only(fs, id)),
        forall|n: u24|
            nums.contains(n) ==> #[trigger] numbers_seen(seen, fs).contains(n) == numbers_seen(
                seen,
                parts_only(fs, id),
            ).contains(n),
    decreases fs.len(),
{
    if fs.len() > 0 {
        let init = fs.drop_last();
        let f = fs.last();
        let fresh = fresh_frames(seen, init);
        let mine = parts_only(init, id);
        assert forall|i: int| 0 <= i < init.len() implies (is_part(#[trigger] init[i], id) <==> (
        init[i].reliable_frame_index matches Some(n) && nums.contains(n))) by {
            assert(init[i] == fs[i]);
        }
        lemma_fresh_among_others(seen, nums, id, init);
        assert(fs[fs.len() - 1] == f);
        assert(fresh.push(f).drop_last() =~= fresh);
        assert(mine.push(f).drop_last() =~= mine);
        if let Some(n) = f.reliable_frame_index {
            if nums.contains(n) {
                assert(numbers_seen(seen, init).contains(n) == numbers_seen(seen, mine).contains(
                    n,
                ));
            }
        }
    }
}

/// A message is put together through deduplication among other frames, whoever split it: once each
/// of its parts arrived, in whatever order, as often as it may be and however spread over frame
/// sets, a frame is ready with the bodies of the parts in the order of their places. This holds as
/// long as no frame of another message has one of its numbers, and parts of fewer than `cap` other
/// messages come between two of its own. `n` is the place of the last part among the frames that
/// pass as new.
pub proof fn lemma_assembled_once_among_others(
    seen: Set<u24>,
    start: Collected,
    cap: nat,
    limit_size: u32,
    id: u16,
    parts: Seq<Frame<Seq<u8>>>,
    sets: Seq<(u24, Seq<Frame<Seq<u8>>>)>,
    n: int,
)
    requires
        cap > 0,
        lookup(start.parts, id) is None,
        is_message(parts, id),
        numbered_apart(parts),
        seen.disjoint(numbers_of(parts)),
        limit_size == 0 || parts.len() <= limit_size,
        forall|i: int|
            0 <= i < parts.len() ==> frames_only(arrivals(sets)).contains(#[trigger] parts[i]),
        forall|i: int|
            0 <= i < arrivals(sets).len() && is_part((#[trigger] arrivals(sets)[i]).1, id)
                ==> parts.contains(arrivals(sets)[i].1),
        forall|i: int|
            0 <= i < arrivals(sets).len() ==> ((
            #[trigger] arrivals(sets)[i]).1.reliable_frame_index matches Some(num) && numbers_of(
                parts,
            ).contains(num) ==> is_part(arrivals(sets)[i].1, id)),
        0 <= n < arrivals(fresh_sets(seen, sets)).len(),
        is_part(arrivals(fresh_sets(seen, sets))[n].1, id),
        forall|i: int|
            n < i < arrivals(fresh_sets(seen, sets)).len() ==> !is_part(
                (#[trigger] arrivals(fresh_sets(seen, sets))[i]).1,
                id,
            ),
        others_accepted(arrivals(fresh_sets(seen, sets)).take(n + 1), id, limit_size),
        few_rivals(arrivals(fresh_sets(seen, sets)).take(n + 1), id, cap),
    ensures
        ({
            let evs = arrivals(fresh_sets(seen, sets));
            let whole = FrameSet { seq_num: evs[n].0, set: assembled(parts) };
            let before = collect_each(start, cap, limit_size, evs.take(n));
            let after = collect_each(start, cap, limit_size, evs.take(n + 1));
            &&& assembled(parts).body == bodies(parts)
            &&& before.1 is None
            &&& after.1 is None
            &&& after.0.ready == before.0.ready.push(whole)
            &&& collect_sets(start, cap, limit_size, fresh_sets(seen, sets)).0.ready.contains(whole)
        }),
{
    let all = frames_only(arrivals(sets));
    let evs = arrivals(fresh_sets(seen, sets));
    let nums = numbers_of(parts);
    let mine = parts_only(all, id);
    assert forall|i: int| 0 <= i < all.len() implies (is_part(#[trigger] all[i], id) <==> (
    all[i].reliable_frame_index matches Some(num) && nums.contains(num))) by {
        assert(all[i] == arrivals(sets)[i].1);
        if is_part(all[i], id) {
            let k = choose|k: int| 0 <= k < parts.len() && parts[k] == all[i];
            assert(parts[k].reliable_frame_index is Some);
        }
    }
    lemma_fresh_grouping(seen, sets);
    lemma_fresh_among_others(seen, nums, id, all);
    lemma_parts_members(all, id);
    assert forall|i: int| 0 <= i < parts.len() implies mine.contains(#[trigger] parts[i]) by {
        assert(all.contains(parts[i]));
        let k = choose|k: int| 0 <= k < all.len() && all[k] == parts[i];
        assert(is_part(all[k], id));
    }
    assert forall|i: int| 0 <= i < mine.len() implies parts.contains(#[trigger] mine[i]) by {
        assert(all.contains(mine[i]));
        let k = choose|k: int| 0 <= k < all.len() && all[k] == mine[i];
        assert(arrivals(sets)[k].1 == mine[i]);
    }
    lemma_fresh_shuffled(seen, id, parts, mine);
    lemma_shuffled(fresh_frames(seen, mine), parts, id);
    lemma_parts_among(evs, id);
    lemma_no_more_parts(evs, id, n + 1);
    lemma_assembled_among_others(start, cap, limit_size, id, fresh_sets(seen, sets), n);
}

/// A split message is delivered through all layers that come before the order channels, with other
/// messages on the way at the same time: once each of its frames arrived, in whatever order, as
/// often as it may be and however spread over frame sets, the frame is ready that the message would
/// have been sent in, had it not been split. This holds as long as no frame of another message has
/// one of its numbers, and parts of fewer than `cap` other messages come between two of its own.
/// `n` is the place of the last part among the frames that pass as new.
pub proof fn lemma_delivered_among_others(
    seen: Set<u24>,
    start: Collected,
    cap: nat,
    limit_size: u32,
    c: Counters,
    mtu: int,
    r: Reliability,
    channel: u8,
    data: Seq<u8>,
    sets: Seq<(u24, Seq<Frame<Seq<u8>>>)>,
    n: int,
)
    requires
        cap > 0,
        fits(mtu, r, data.len() as int),
        needs_split(mtu, r, data.len() as int),
        frames_of(c, mtu, r, channel, data).len() <= U24_RANGE,
        limit_size == 0 || frames_of(c, mtu, r, channel, data).len() <= limit_size,
        lookup(start.parts, c.parted_id) is None,
        seen.disjoint(numbers_of(frames_of(c, mtu, r, channel, data))),
        forall|i: int|
            0 <= i < frames_of(c, mtu, r, channel, data).len() ==> frames_only(
                arrivals(sets),
            ).contains(#[trigger] frames_of(c, mtu, r, channel, data)[i]),
        forall|i: int|
            0 <= i < arrivals(sets).len() && is_part(
                (#[trigger] arrivals(sets)[i]).1,
                c.parted_id,
            ) ==> frames_of(c, mtu, r, channel, data).contains(arrivals(sets)[i].1),
        forall|i: int|
            0 <= i < arrivals(sets).len() ==> ((
            #[trigger] arrivals(sets)[i]).1.reliable_frame_index matches Some(num)
                && numbers_of(frames_of(c, mtu, r, channel, data)).contains(num) ==> is_part(
                arrivals(sets)[i].1,
                c.parted_id,
            )),
        0 <= n < arrivals(fresh_sets(seen, sets)).len(),
        is_part(arrivals(fresh_sets(seen, sets))[n].1, c.parted_id),
        forall|i: int|
            n < i < arrivals(fresh_sets(seen, sets)).len() ==> !is_part(
                (#[trigger] arrivals(fresh_sets(seen, sets))[i]).1,
                c.parted_id,
            ),
        others_accepted(arrivals(fresh_sets(seen, sets)).take(n + 1), c.parted_id, limit_size),
        few_rivals(arrivals(fresh_sets(seen, sets)).take(n + 1), c.parted_id, cap),
    ensures
        ({
            let evs = arrivals(fresh_sets(seen, sets));
            let whole = FrameSet {
                seq_num: evs[n].0,
                set: numbered(c, upgraded(r), channel, 0, None, data),
            };
            let before = collect_each(start, cap, limit_size, evs.take(n));
            let after = collect_each(start, cap, limit_size, evs.take(n + 1));
            &&& before.1 is None
            &&& after.1 is None
            &&& after.0.ready == before.0.ready.push(whole)
            &&& collect_sets(start, cap, limit_size, fresh_sets(seen, sets)).0.ready.contains(whole)
        }),
{
    let fs = frames_of(c, mtu, r, channel, data);
    lemma_split_message(c, mtu, r, channel, data);
    lemma_split_numbers(c, mtu, r, channel, data);
    lemma_assembled_once_among_others(seen, start, cap, limit_size, c.parted_id, fs, sets, n);
}

proof fn lemma_prefixes(
    evs: Seq<(u24, Frame<Seq<u8>>)>,
    id: u16,
    cap: nat,
    limit_size: u32,
    size: u32,
    n: int,
)
    requires
        0 <= n <= evs.len(),
        others_accepted(evs, id, limit_size),
        few_rivals(evs, id, cap),
        parts_of(parts_among(evs, id), size, id),
    ensures
        others_accepted(evs.take(n), id, limit_size),
        few_rivals(evs.take(n), id, cap),
        parts_of(parts_among(evs.take(n), id), size, id),
        parts_among(evs.take(n), id).len() <= parts_among(evs, id).len(),
        n < evs.len() && is_part(evs[n].1, id) ==> parts_among(evs.take(n), id).len()
            < parts_among(evs, id).len(),
    decreases evs.len() - n,
{
    if n == evs.len() {
        assert(evs.take(n) =~= evs);
    } else {
        let longer = evs.take(n + 1);
        lemma_prefixes(evs, id, cap, limit_size, size, n + 1);
        lemma_prefix_conditions(longer, id, cap, limit_size, size);
        assert(longer.drop_last() =~= evs.take(n));
        assert(longer.last() == evs[n]);
    }
}

/// A part that is not the last makes nothing ready.
proof fn lemma_early_part(
    start: Collected,
    cap: nat,
    limit_size: u32,
    size: u32,
    id: u16,
    evs: Seq<(u24, Frame<Seq<u8>>)>,
    i: int,
)
    requires
        0 <= i < evs.len() - 1,
        is_part(evs[i].1, id),
        is_part(evs.last().1, id),
        cap > 0,
        limit_size == 0 || size <= limit_size,
        lookup(start.parts, id) is None,
        others_accepted(evs, id, limit_size),
        few_rivals(evs, id, cap),
        parts_of(parts_among(evs, id), size, id),
        parts_among(evs, id).len() == size,
    ensures
        collect_each(start, cap, limit_size, evs.take(i + 1)).0.ready == collect_each(
            start,
            cap,
            limit_size,
            evs.take(i),
        ).0.ready,
{
    let last = evs.len() - 1;
    let longer = evs.take(i + 1);
    let init = evs.take(i);
    assert(evs.take(evs.len() as int) =~= evs);
    lemma_prefixes(evs, id, cap, limit_size, size, last);
    let short = evs.take(last);
    lemma_prefixes(short, id, cap, limit_size, size, i + 1);
    lemma_prefixes(short, id, cap, limit_size, size, i);
    assert(short.take(i + 1) =~= longer);
    assert(short.take(i) =~= init);
    assert(longer.drop_last() =~= init);
    assert(longer.last() == evs[i]);
    lemma_kept(start, cap, limit_size, size, id, init);
    lemma_prefix_conditions(longer, id, cap, limit_size, size);
    let f = evs[i].1;
    let before = collect_each(start, cap, limit_size, init).0;
    lemma_gathered(
        before,
        id,
        parts_among(init, id),
        rivals(init, id),
        f.fragment->Some_0,
        f,
    );
}

} // verus!
