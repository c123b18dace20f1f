//! How the parts of a message are put together, whoever split it.
use vstd::prelude::*;

use crate::codec::arrival::{
    arrivals, collect_each, drained, fresh_sets, frames_only, lemma_drained, lemma_fresh_grouping,
    lemma_grouping,
};
use crate::codec::decoder::dedup::{
    fresh_frames, lemma_first_passes, lemma_fresh_members, lemma_fresh_once, lemma_number_seen,
};
use crate::codec::decoder::fragment::{collect_sets, gathered, Collected};
use crate::codec::decoder::parts::{joined, lookup, merged, others, FramePart};
use crate::errors::PartedError;
use crate::packet::connected::frame::{Fragment, Frame};
use crate::packet::connected::frame_set::FrameSet;
use crate::sorted_queue::{insert_all, lemma_any_order, lemma_insert_all};
use crate::uint24::u24;

verus! {

/// The parts that frames carry, by their places.
pub open spec fn as_parts(fs: Seq<Frame<Seq<u8>>>) -> Seq<FramePart<Seq<u8>>> {
    Seq::new(
        fs.len(),
        |i: int|
            FramePart { parted_index: fs[i].fragment->Some_0.parted_index, frame: fs[i] },
    )
}

/// Every frame is a part of the message `id`, which has `size` parts.
pub open spec fn parts_of(arrived: Seq<Frame<Seq<u8>>>, size: u32, id: u16) -> bool {
    forall|i: int|
        0 <= i < arrived.len() ==> ((#[trigger] arrived[i]).fragment matches Some(f)
            && f.parted_size == size && f.parted_id == id && f.parted_index < size)
}

/// The frame at `i` carries the part of the place `k`.
pub open spec fn at_place(fs: Seq<Frame<Seq<u8>>>, i: int, k: int) -> bool {
    0 <= i < fs.len() && (fs[i].fragment matches Some(f) && f.parted_index == k)
}

/// Some frame carries the part of the place `k`.
pub open spec fn has_place(fs: Seq<Frame<Seq<u8>>>, k: int) -> bool {
    exists|i: int| #[trigger] at_place(fs, i, k)
}

/// The frames are all parts of the message `id`, whatever else they hold: as many as it has, and
/// one for each place, in whatever order.
pub open spec fn one_of_each(fs: Seq<Frame<Seq<u8>>>, id: u16) -> bool {
    &&& 1 <= fs.len() <= u32::MAX
    &&& parts_of(fs, fs.len() as u32, id)
    &&& forall|k: int| 0 <= k < fs.len() ==> #[trigger] has_place(fs, k)
}

/// The frames in the order of their places.
pub open spec fn by_place(fs: Seq<Frame<Seq<u8>>>) -> Seq<Frame<Seq<u8>>> {
    Seq::new(fs.len(), |k: int| fs[choose|i: int| #[trigger] at_place(fs, i, k)])
}

/// The bodies of the frames, one behind the other.
pub open spec fn bodies(fs: Seq<Frame<Seq<u8>>>) -> Seq<u8>
    decreases fs.len(),
{
    if fs.len() == 0 {
        Seq::empty()
    } else {
        bodies(fs.drop_last()) + fs.last().body
    }
}

/// The frame that the parts make together: the one of the first place as a frame that carries a
/// whole message, with the bodies of all, in the order of their places. A single part stays as it
/// is.
pub open spec fn assembled(fs: Seq<Frame<Seq<u8>>>) -> Frame<Seq<u8>> {
    if fs.len() == 1 {
        fs[0]
    } else {
        Frame { body: bodies(by_place(fs)), ..by_place(fs)[0].whole() }
    }
}

proof fn lemma_joined_bodies(fs: Seq<Frame<Seq<u8>>>)
    ensures
        joined(as_parts(fs)) == bodies(fs),
    decreases fs.len(),
{
    if fs.len() > 0 {
        lemma_joined_bodies(fs.drop_last());
        assert(as_parts(fs).drop_last() =~= as_parts(fs.drop_last()));
    }
}

/// Parts that arrive in whatever order are put in the order of their places, and make a frame
/// whose body is theirs in that order. Where more than one part there is, and the first is flagged
/// as a part, the frame holds nothing about fragments any more.
pub proof fn lemma_assembled(fs: Seq<Frame<Seq<u8>>>, id: u16)
    requires
        one_of_each(fs, id),
    ensures
        insert_all(Seq::empty(), as_parts(fs)) == as_parts(by_place(fs)),
        merged(insert_all(Seq::empty(), as_parts(fs))) == assembled(fs),
        forall|k: int|
            0 <= k < fs.len() ==> fs.contains(#[trigger] by_place(fs)[k])
                && by_place(fs)[k].fragment == Some(
                Fragment { parted_size: fs.len() as u32, parted_id: id, parted_index: k as u32 },
            ),
        assembled(fs).body == bodies(by_place(fs)),
        fs.len() > 1 && by_place(fs)[0].flags.parted ==> assembled(fs).fragment is None
            && !assembled(fs).flags.parted,
{
    let placed = by_place(fs);
    let all = as_parts(placed);
    let ps = as_parts(fs);
    assert forall|k: int| 0 <= k < fs.len() implies fs.contains(#[trigger] placed[k])
        && placed[k].fragment == Some(
        Fragment { parted_size: fs.len() as u32, parted_id: id, parted_index: k as u32 },
    ) && ps.contains(all[k]) by {
        assert(has_place(fs, k));
        let i = choose|i: int| #[trigger] at_place(fs, i, k);
        assert(placed[k] == fs[i]);
        assert(ps[i] == all[k]);
    }
    assert forall|k: int| 0 <= k < all.len() implies ps.contains(#[trigger] all[k]) by {
        assert(fs.contains(placed[k]));
    }
    lemma_any_order(all, ps);
    lemma_joined_bodies(placed);
    if fs.len() == 1 {
        assert(fs.contains(placed[0]));
        assert(placed.drop_last() =~= Seq::empty());
        assert(bodies(placed.drop_last()) =~= Seq::empty());
        assert(bodies(placed) =~= placed[0].body);
    }
}

/// What the layer holds while parts of a message arrive that it had none of.
proof fn lemma_collecting(
    start: Collected,
    cap: nat,
    limit_size: u32,
    size: u32,
    id: u16,
    evs: Seq<(u24, Frame<Seq<u8>>)>,
)
    requires
        0 < evs.len() < size,
        limit_size == 0 || size <= limit_size,
        lookup(start.parts, id) is None,
        parts_of(frames_only(evs), size, id),
    ensures
        collect_each(start, cap, limit_size, evs) == (
            Collected {
                parts: seq![(id, insert_all(Seq::empty(), as_parts(frames_only(evs))))] + others(
                    start.parts,
                    cap,
                    id,
                ),
                ready: start.ready,
            },
            None::<PartedError>,
        ),
    decreases evs.len(),
{
    let init = evs.drop_last();
    let fs = frames_only(evs);
    let ps = as_parts(fs);
    let rest = others(start.parts, cap, id);
    let f = evs.last().1;
    assert(fs[fs.len() - 1] == f);
    assert(frames_only(init) =~= fs.drop_last());
    assert(ps.drop_last() =~= as_parts(frames_only(init)));
    lemma_insert_all(Seq::<FramePart<Seq<u8>>>::empty(), ps);
    if init.len() == 0 {
        assert(collect_each(start, cap, limit_size, init) == (start, None::<PartedError>));
        assert(insert_all(Seq::<FramePart<Seq<u8>>>::empty(), ps.drop_last()) =~= Seq::empty());
    } else {
        assert forall|i: int| 0 <= i < frames_only(init).len() implies ((
        #[trigger] frames_only(init)[i]).fragment matches Some(f) && f.parted_size == size
            && f.parted_id == id && f.parted_index < size) by {
            assert(fs[i] == frames_only(init)[i]);
        }
        lemma_collecting(start, cap, limit_size, size, id, init);
        let before = seq![(id, insert_all(Seq::empty(), ps.drop_last()))] + rest;
        assert(before.drop_first() =~= rest);
    }
}

/// A message is put together in whatever order its parts arrive, and however they are spread over
/// frame sets, whatever they hold: once one part for each place arrived, exactly one frame is
/// ready. Its body is those of the parts in the order of their places. It counts as arrived with
/// the set that held the last part.
pub proof fn lemma_assembled_over_sets(
    start: Collected,
    cap: nat,
    limit_size: u32,
    id: u16,
    sets: Seq<(u24, Seq<Frame<Seq<u8>>>)>,
)
    requires
        lookup(start.parts, id) is None,
        one_of_each(frames_only(arrivals(sets)), id),
        limit_size == 0 || arrivals(sets).len() <= limit_size,
    ensures
        sets.len() > 0 && sets.last().1.len() > 0 ==> arrivals(sets).last().0 == sets.last().0,
        collect_sets(start, cap, limit_size, sets) == (
            Collected {
                parts: others(start.parts, cap, id),
                ready: start.ready.push(
                    FrameSet {
                        seq_num: arrivals(sets).last().0,
                        set: assembled(frames_only(arrivals(sets))),
                    },
                ),
            },
            None::<PartedError>,
        ),
        assembled(frames_only(arrivals(sets))).body == bodies(
            by_place(frames_only(arrivals(sets))),
        ),
{
    let evs = arrivals(sets);
    let arrived = frames_only(evs);
    let init = evs.drop_last();
    let size = arrived.len() as u32;
    let ps = as_parts(arrived);
    let rest = others(start.parts, cap, id);
    let f = evs.last().1;
    lemma_grouping(start, cap, limit_size, sets);
    lemma_assembled(arrived, id);
    lemma_insert_all(Seq::<FramePart<Seq<u8>>>::empty(), ps);
    assert(arrived[arrived.len() - 1] == f);
    assert(ps.drop_last() =~= as_parts(frames_only(init)));
    if init.len() == 0 {
        assert(collect_each(start, cap, limit_size, init) == (start, None::<PartedError>));
        assert(insert_all(Seq::<FramePart<Seq<u8>>>::empty(), ps.drop_last()) =~= Seq::empty());
        assert(gathered(start.parts, f.fragment->Some_0, f) == insert_all(Seq::empty(), ps));
    } else {
        assert forall|i: int| 0 <= i < frames_only(init).len() implies ((
        #[trigger] frames_only(init)[i]).fragment matches Some(f) && f.parted_size == size
            && f.parted_id == id && f.parted_index < size) by {
            assert(arrived[i] == frames_only(init)[i]);
        }
        lemma_collecting(start, cap, limit_size, size, id, init);
        let before = seq![(id, insert_all(Seq::empty(), as_parts(frames_only(init))))] + rest;
        assert(before.drop_first() =~= rest);
        assert(gathered(before, f.fragment->Some_0, f) == insert_all(Seq::empty(), ps));
    }
}

/// A layer that starts with nothing passes on exactly one frame for the parts of one message that
/// arrive in whatever order and however spread over frame sets, whatever they hold, and keeps
/// nothing. It makes no difference when what is ready is taken out.
pub proof fn lemma_exactly_one(cap: nat, id: u16, sets: Seq<(u24, Seq<Frame<Seq<u8>>>)>)
    requires
        cap > 0,
        one_of_each(frames_only(arrivals(sets)), id),
    ensures
        drained(Seq::empty(), cap, 0, sets) == (
            Collected {
                parts: Seq::empty(),
                ready: seq![
                    FrameSet {
                        seq_num: arrivals(sets).last().0,
                        set: assembled(frames_only(arrivals(sets))),
                    },
                ],
            },
            None::<PartedError>,
        ),
        assembled(frames_only(arrivals(sets))).body == bodies(
            by_place(frames_only(arrivals(sets))),
        ),
{
    let start = Collected { parts: Seq::empty(), ready: Seq::empty() };
    let whole = FrameSet {
        seq_num: arrivals(sets).last().0,
        set: assembled(frames_only(arrivals(sets))),
    };
    lemma_drained(Seq::empty(), cap, 0, sets);
    lemma_assembled_over_sets(start, cap, 0, id, sets);
    assert(start.ready.push(whole) =~= seq![whole]);
}

/// As many parts as a message has, no two of them for one place, are one for each place.
pub proof fn lemma_places_apart(fs: Seq<Frame<Seq<u8>>>, id: u16)
    requires
        1 <= fs.len() <= u32::MAX,
        parts_of(fs, fs.len() as u32, id),
        forall|i: int, j: int|
            0 <= i < j < fs.len() ==> (#[trigger] fs[i]).fragment->Some_0.parted_index != (
            #[trigger] fs[j]).fragment->Some_0.parted_index,
    ensures
        one_of_each(fs, id),
{
    let n = fs.len() as int;
    let places = Seq::new(fs.len(), |i: int| fs[i].fragment->Some_0.parted_index as int);
    assert(places.no_duplicates()) by {
        assert forall|i: int, j: int| 0 <= i < n && 0 <= j < n && i != j implies places[i]
            != places[j] by {
            if i < j {
                assert(fs[i].fragment->Some_0.parted_index != fs[j].fragment->Some_0.parted_index);
            } else {
                assert(fs[j].fragment->Some_0.parted_index != fs[i].fragment->Some_0.parted_index);
            }
        }
    }
    places.unique_seq_to_set();
    let range = vstd::set_lib::set_int_range(0, n);
    vstd::set_lib::lemma_int_range(0, n);
    assert(places.to_set().subset_of(range)) by {
        assert forall|a: int| places.to_set().contains(a) implies range.contains(a) by {
            let i = choose|i: int| 0 <= i < places.len() && places[i] == a;
            assert(fs[i].fragment is Some);
        }
    }
    vstd::set_lib::lemma_subset_equality(places.to_set(), range);
    assert forall|k: int| 0 <= k < n implies #[trigger] has_place(fs, k) by {
        assert(places.to_set().contains(k));
        let i = choose|i: int| 0 <= i < places.len() && places[i] == k;
        assert(fs[i].fragment is Some);
        assert(at_place(fs, i, k));
    }
}

/// The frames are the parts of the message `id`, in the order of their places.
pub open spec fn is_message(parts: Seq<Frame<Seq<u8>>>, id: u16) -> bool {
    &&& 1 <= parts.len() <= u32::MAX
    &&& forall|k: int|
        0 <= k < parts.len() ==> (#[trigger] parts[k]).fragment == Some(
            Fragment { parted_size: parts.len() as u32, parted_id: id, parted_index: k as u32 },
        )
}

/// The same frames in whatever order, each of them once.
pub open spec fn shuffled(
    arrived: Seq<Frame<Seq<u8>>>,
    parts: Seq<Frame<Seq<u8>>>,
) -> bool {
    &&& arrived.len() == parts.len()
    &&& forall|i: int| 0 <= i < parts.len() ==> arrived.contains(#[trigger] parts[i])
    &&& forall|i: int| 0 <= i < arrived.len() ==> parts.contains(#[trigger] arrived[i])
}

/// However the parts of a message are shuffled, there is one for each place, and they make the
/// same frame.
pub proof fn lemma_shuffled(
    arrived: Seq<Frame<Seq<u8>>>,
    parts: Seq<Frame<Seq<u8>>>,
    id: u16,
)
    requires
        is_message(parts, id),
        shuffled(arrived, parts),
    ensures
        one_of_each(arrived, id),
        by_place(arrived) == parts,
        assembled(arrived) == assembled(parts),
        assembled(parts).body == bodies(parts),
{
    assert forall|i: int| 0 <= i < arrived.len() implies ((
    #[trigger] arrived[i]).fragment matches Some(f) && f.parted_size == arrived.len() as u32
        && f.parted_id == id && f.parted_index < arrived.len() as u32) by {
        assert(parts.contains(arrived[i]));
    }
    assert forall|k: int| 0 <= k < arrived.len() implies #[trigger] has_place(arrived, k) by {
        assert(arrived.contains(parts[k]));
        let i = choose|i: int| 0 <= i < arrived.len() && arrived[i] == parts[k];
        assert(at_place(arrived, i, k));
    }
    lemma_assembled(arrived, id);
    assert forall|k: int| 0 <= k < parts.len() implies #[trigger] by_place(arrived)[k]
        == parts[k] by {
        let f = by_place(arrived)[k];
        assert(arrived.contains(f));
        let i = choose|i: int| 0 <= i < arrived.len() && arrived[i] == f;
        assert(parts.contains(arrived[i]));
        let l = choose|l: int| 0 <= l < parts.len() && parts[l] == f;
        assert(l as u32 == k as u32);
    }
    assert(by_place(arrived) =~= parts);
    assert forall|k: int| 0 <= k < parts.len() implies #[trigger] by_place(parts)[k]
        == parts[k] by {
        assert(at_place(parts, k, k));
        let i = choose|i: int| #[trigger] at_place(parts, i, k);
        assert(i as u32 == k as u32);
    }
    assert(by_place(parts) =~= parts);
    if parts.len() == 1 {
        assert(parts.contains(arrived[0]));
        assert(parts.drop_last() =~= Seq::empty());
        assert(bodies(parts.drop_last()) =~= Seq::empty());
        assert(bodies(parts) =~= parts[0].body);
    }
}

/// Every part has a number, and no two have the same.
pub open spec fn numbered_apart(parts: Seq<Frame<Seq<u8>>>) -> bool {
    &&& forall|k: int| 0 <= k < parts.len() ==> (#[trigger] parts[k]).reliable_frame_index is Some
    &&& forall|k: int, l: int|
        0 <= k < l < parts.len() ==> (#[trigger] parts[k]).reliable_frame_index != (
        #[trigger] parts[l]).reliable_frame_index
}

/// The numbers of the parts.
pub open spec fn numbers_of(parts: Seq<Frame<Seq<u8>>>) -> Set<u24> {
    Set::new(
        |n: u24|
            exists|k: int|
                0 <= k < parts.len() && (#[trigger] parts[k]).reliable_frame_index == Some(n),
    )
}

/// Of frames of a message, each at least once and in whatever order, those that pass as new are
/// its parts, each of them once.
pub(crate) proof fn lemma_fresh_shuffled(
    seen: Set<u24>,
    id: u16,
    parts: Seq<Frame<Seq<u8>>>,
    arrived: Seq<Frame<Seq<u8>>>,
)
    requires
        is_message(parts, id),
        numbered_apart(parts),
        seen.disjoint(numbers_of(parts)),
        forall|i: int| 0 <= i < parts.len() ==> arrived.contains(#[trigger] parts[i]),
        forall|i: int| 0 <= i < arrived.len() ==> parts.contains(#[trigger] arrived[i]),
    ensures
        shuffled(fresh_frames(seen, arrived), parts),
{
    let fresh = fresh_frames(seen, arrived);
    lemma_fresh_members(seen, arrived);
    lemma_fresh_once(seen, arrived);
    assert forall|i: int| 0 <= i < fresh.len() implies parts.contains(#[trigger] fresh[i]) by {
        assert(arrived.contains(fresh[i]));
        let j = choose|j: int| 0 <= j < arrived.len() && arrived[j] == fresh[i];
        assert(parts.contains(arrived[j]));
    }
    assert forall|k: int| 0 <= k < parts.len() implies fresh.contains(#[trigger] parts[k]) by {
        let n = parts[k].reliable_frame_index->Some_0;
        assert(numbers_of(parts).contains(n));
        assert(arrived.contains(parts[k]));
        let j = choose|j: int| 0 <= j < arrived.len() && arrived[j] == parts[k];
        lemma_number_seen(seen, arrived, j);
        lemma_first_passes(seen, arrived, n);
        let i = choose|i: int|
            0 <= i < fresh.len() && (#[trigger] fresh[i]).reliable_frame_index == Some(n);
        assert(parts.contains(fresh[i]));
        let l = choose|l: int| 0 <= l < parts.len() && parts[l] == fresh[i];
        if l < k {
            assert(parts[l].reliable_frame_index != parts[k].reliable_frame_index);
        } else if k < l {
            assert(parts[k].reliable_frame_index != parts[l].reliable_frame_index);
        }
    }
    assert(fresh.no_duplicates()) by {
        assert forall|i: int, j: int| 0 <= i < fresh.len() && 0 <= j < fresh.len() && i
            != j implies fresh[i] != fresh[j] by {
            assert(parts.contains(fresh[i]) && parts.contains(fresh[j]));
            if i < j {
                assert(fresh[i].reliable_frame_index != fresh[j].reliable_frame_index);
            } else {
                assert(fresh[j].reliable_frame_index != fresh[i].reliable_frame_index);
            }
        }
    }
    assert(parts.no_duplicates()) by {
        assert forall|i: int, j: int| 0 <= i < parts.len() && 0 <= j < parts.len() && i
            != j implies parts[i] != parts[j] by {
            assert(parts[i].fragment->Some_0.parted_index == i as u32);
            assert(parts[j].fragment->Some_0.parted_index == j as u32);
        }
    }
    assert(fresh.to_set() =~= parts.to_set());
    fresh.unique_seq_to_set();
    parts.unique_seq_to_set();
}

/// A message is put together through deduplication, whoever split it: whatever numbers arrived
/// before, as long as those of the message did not, once each part arrived, in whatever order, as
/// often as it may be and however spread over frame sets, exactly one frame is ready, with the
/// bodies of the parts in the order of their places.
pub proof fn lemma_assembled_once(
    seen: Set<u24>,
    start: Collected,
    cap: nat,
    limit_size: u32,
    id: u16,
    parts: Seq<Frame<Seq<u8>>>,
    sets: Seq<(u24, Seq<Frame<Seq<u8>>>)>,
)
    requires
        lookup(start.parts, id) is None,
        is_message(parts, id),
        numbered_apart(parts),
        seen.disjoint(numbers_of(parts)),
        limit_size == 0 || parts.len() <= limit_size,
        forall|i: int|
            0 <= i < parts.len() ==> frames_only(arrivals(sets)).contains(#[trigger] parts[i]),
        forall|i: int|
            0 <= i < arrivals(sets).len() ==> parts.contains((#[trigger] arrivals(sets)[i]).1),
    ensures
        arrivals(fresh_sets(seen, sets)).len() > 0,
        collect_sets(start, cap, limit_size, fresh_sets(seen, sets)) == (
            Collected {
                parts: others(start.parts, cap, id),
                ready: start.ready.push(
                    FrameSet {
                        seq_num: arrivals(fresh_sets(seen, sets)).last().0,
                        set: assembled(parts),
                    },
                ),
            },
            None::<PartedError>,
        ),
        assembled(parts).body == bodies(parts),
{
    let arrived = frames_only(arrivals(sets));
    assert forall|i: int| 0 <= i < arrived.len() implies parts.contains(#[trigger] arrived[i]) by {
        assert(arrived[i] == arrivals(sets)[i].1);
    }
    lemma_fresh_grouping(seen, sets);
    lemma_fresh_shuffled(seen, id, parts, arrived);
    lemma_shuffled(fresh_frames(seen, arrived), parts, id);
    lemma_assembled_over_sets(start, cap, limit_size, id, fresh_sets(seen, sets));
}

} // verus!
