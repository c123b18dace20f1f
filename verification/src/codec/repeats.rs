//! Parts that arrive more than once, where a part that waits does not count again.
use vstd::prelude::*;

use crate::codec::arrival::{arrivals, frames_only, tagged};
use crate::codec::assembly::{
    as_parts, assembled, bodies, is_message, lemma_assembled, lemma_shuffled, shuffled,
};
use crate::codec::decoder::fragment::{collect_all_once, collect_once, gathered_once, Collected};
use crate::codec::decoder::parts::{lookup, others, FramePart};
use crate::errors::PartedError;
use crate::packet::connected::frame::Frame;
use crate::packet::connected::frame_set::FrameSet;
use crate::sorted_queue::{insert_all, lemma_insert_all, lemma_insert_all_from};
use crate::uint24::u24;

verus! {

/// What the layer holds after frame sets, up to the first one with a frame that is refused, and
/// why that frame is, where a part that waits already does not count again.
pub open spec fn collect_sets_once(
    start: Collected,
    cap: nat,
    limit_size: u32,
    sets: Seq<(u24, Seq<Frame<Seq<u8>>>)>,
) -> (Collected, Option<PartedError>)
    decreases sets.len(),
{
    if sets.len() == 0 {
        (start, None)
    } else {
        let before = collect_sets_once(start, cap, limit_size, sets.drop_last());
        if before.1 is Some {
            before
        } else {
            collect_all_once(before.0, cap, limit_size, sets.last().0, sets.last().1)
        }
    }
}

/// The same, frame by frame.
pub open spec fn collect_each_once(
    start: Collected,
    cap: nat,
    limit_size: u32,
    evs: Seq<(u24, Frame<Seq<u8>>)>,
) -> (Collected, Option<PartedError>)
    decreases evs.len(),
{
    if evs.len() == 0 {
        (start, None)
    } else {
        let before = collect_each_once(start, cap, limit_size, evs.drop_last());
        if before.1 is Some {
            before
        } else {
            collect_once(before.0, cap, limit_size, evs.last().0, evs.last().1)
        }
    }
}

proof fn lemma_collect_tagged_once(
    start: Collected,
    cap: nat,
    limit_size: u32,
    evs: Seq<(u24, Frame<Seq<u8>>)>,
    seq_num: u24,
    fs: Seq<Frame<Seq<u8>>>,
)
    ensures
        collect_each_once(start, cap, limit_size, evs + tagged(seq_num, fs)) == ({
            let before = collect_each_once(start, cap, limit_size, evs);
            if before.1 is Some {
                before
            } else {
                collect_all_once(before.0, cap, limit_size, seq_num, fs)
            }
        }),
    decreases fs.len(),
{
    let all = evs + tagged(seq_num, fs);
    if fs.len() == 0 {
        assert(all =~= evs);
    } else {
        lemma_collect_tagged_once(start, cap, limit_size, evs, seq_num, fs.drop_last());
        assert(all.drop_last() =~= evs + tagged(seq_num, fs.drop_last()));
        assert(all.last() == (seq_num, fs.last()));
    }
}

/// How frames are grouped into sets makes no difference to what is collected.
pub proof fn lemma_grouping_once(
    start: Collected,
    cap: nat,
    limit_size: u32,
    sets: Seq<(u24, Seq<Frame<Seq<u8>>>)>,
)
    ensures
        collect_sets_once(start, cap, limit_size, sets) == collect_each_once(
            start,
            cap,
            limit_size,
            arrivals(sets),
        ),
    decreases sets.len(),
{
    if sets.len() > 0 {
        let init = sets.drop_last();
        lemma_grouping_once(start, cap, limit_size, init);
        lemma_collect_tagged_once(
            start,
            cap,
            limit_size,
            arrivals(init),
            sets.last().0,
            sets.last().1,
        );
    }
}

/// The frames without those that came before.
pub open spec fn firsts(fs: Seq<Frame<Seq<u8>>>) -> Seq<Frame<Seq<u8>>>
    decreases fs.len(),
{
    if fs.len() == 0 {
        Seq::empty()
    } else {
        let before = firsts(fs.drop_last());
        if before.contains(fs.last()) {
            before
        } else {
            before.push(fs.last())
        }
    }
}

/// The same frames, none of them twice.
proof fn lemma_firsts(fs: Seq<Frame<Seq<u8>>>)
    ensures
        firsts(fs).no_duplicates(),
        forall|i: int| 0 <= i < fs.len() ==> firsts(fs).contains(#[trigger] fs[i]),
        forall|i: int| 0 <= i < firsts(fs).len() ==> fs.contains(#[trigger] firsts(fs)[i]),
    decreases fs.len(),
{
    if fs.len() > 0 {
        let init = fs.drop_last();
        let before = firsts(init);
        let after = firsts(fs);
        lemma_firsts(init);
        assert forall|i: int| 0 <= i < fs.len() implies after.contains(#[trigger] fs[i]) by {
            if i < init.len() {
                assert(init[i] == fs[i]);
                let k = choose|k: int| 0 <= k < before.len() && before[k] == init[i];
                assert(after[k] == fs[i]);
            } else if !before.contains(fs.last()) {
                assert(after[before.len() as int] == fs[i]);
            }
        }
        assert forall|i: int| 0 <= i < after.len() implies fs.contains(#[trigger] after[i]) by {
            if i < before.len() {
                assert(init.contains(before[i]));
                let k = choose|k: int| 0 <= k < init.len() && init[k] == before[i];
                assert(fs[k] == after[i]);
            } else {
                assert(fs[fs.len() - 1] == after[i]);
            }
        }
        assert(after.no_duplicates()) by {
            assert forall|i: int, j: int| 0 <= i < after.len() && 0 <= j < after.len() && i
                != j implies after[i] != after[j] by {
                if i < before.len() && j < before.len() {
                    assert(before[i] != before[j]);
                } else if i < before.len() {
                    assert(before.contains(before[i]));
                } else {
                    assert(before.contains(before[j]));
                }
            }
        }
    }
}

/// A part joins those that wait, unless it waits already.
proof fn lemma_gathered_firsts(
    parts: Seq<(u16, Seq<FramePart<Seq<u8>>>)>,
    id: u16,
    fs: Seq<Frame<Seq<u8>>>,
    f: Frame<Seq<u8>>,
)
    requires
        f.fragment is Some,
        f.fragment->Some_0.parted_id == id,
        if fs.len() == 0 {
            lookup(parts, id) is None
        } else {
            lookup(parts, id) == Some(insert_all(Seq::empty(), as_parts(firsts(fs))))
        },
    ensures
        gathered_once(parts, f.fragment->Some_0, f) == insert_all(
            Seq::empty(),
            as_parts(firsts(fs.push(f))),
        ),
{
    let before = firsts(fs);
    let waiting = insert_all(Seq::empty(), as_parts(before));
    let part = FramePart { parted_index: f.fragment->Some_0.parted_index, frame: f };
    assert(fs.push(f).drop_last() =~= fs);
    if fs.len() == 0 {
        assert(as_parts(before) =~= Seq::empty());
        assert(waiting =~= Seq::empty());
    }
    lemma_insert_all(Seq::<FramePart<Seq<u8>>>::empty(), as_parts(before));
    lemma_insert_all_from(Seq::<FramePart<Seq<u8>>>::empty(), as_parts(before));
    if before.contains(f) {
        let k = choose|k: int| 0 <= k < before.len() && before[k] == f;
        assert(as_parts(before)[k] == part);
        assert(waiting.contains(as_parts(before)[k]));
    } else {
        if waiting.contains(part) {
            let i = choose|i: int| 0 <= i < waiting.len() && waiting[i] == part;
            assert(as_parts(before).contains(waiting[i]));
            let k = choose|k: int| 0 <= k < before.len() && as_parts(before)[k] == part;
            assert(before[k] == f);
        }
        let ps = as_parts(before.push(f));
        assert(ps.drop_last() =~= as_parts(before));
        assert(ps.last() == part);
    }
}

/// Not all parts arrived yet where one of them did not.
proof fn lemma_firsts_fewer(
    fs: Seq<Frame<Seq<u8>>>,
    parts: Seq<Frame<Seq<u8>>>,
    missing: Frame<Seq<u8>>,
)
    requires
        forall|i: int| 0 <= i < fs.len() ==> parts.contains(#[trigger] fs[i]),
        parts.contains(missing),
        !fs.contains(missing),
    ensures
        firsts(fs).len() < parts.len(),
{
    let got = firsts(fs);
    lemma_firsts(fs);
    assert forall|a: Frame<Seq<u8>>| got.to_set().contains(a) implies parts.to_set().remove(
        missing,
    ).contains(a) by {
        let i = choose|i: int| 0 <= i < got.len() && got[i] == a;
        assert(fs.contains(got[i]));
    }
    got.unique_seq_to_set();
    parts.lemma_cardinality_of_set();
    assert(parts.to_set().contains(missing));
    vstd::set_lib::lemma_len_subset(got.to_set(), parts.to_set().remove(missing));
}

/// What the layer holds while parts of a message arrive that it had none of.
proof fn lemma_collecting_once(
    start: Collected,
    cap: nat,
    limit_size: u32,
    id: u16,
    parts: Seq<Frame<Seq<u8>>>,
    missing: Frame<Seq<u8>>,
    evs: Seq<(u24, Frame<Seq<u8>>)>,
)
    requires
        evs.len() > 0,
        is_message(parts, id),
        limit_size == 0 || parts.len() <= limit_size,
        lookup(start.parts, id) is None,
        forall|i: int| 0 <= i < evs.len() ==> parts.contains((#[trigger] evs[i]).1),
        parts.contains(missing),
        !frames_only(evs).contains(missing),
    ensures
        collect_each_once(start, cap, limit_size, evs) == (
            Collected {
                parts: seq![
                    (id, insert_all(Seq::empty(), as_parts(firsts(frames_only(evs))))),
                ] + others(start.parts, cap, id),
                ready: start.ready,
            },
            None::<PartedError>,
        ),
    decreases evs.len(),
{
    let init = evs.drop_last();
    let fs = frames_only(evs);
    let rest = others(start.parts, cap, id);
    let f = evs.last().1;
    assert(evs[evs.len() - 1].1 == f);
    assert(fs =~= frames_only(init).push(f));
    assert forall|i: int| 0 <= i < fs.len() implies parts.contains(#[trigger] fs[i]) by {
        assert(fs[i] == evs[i].1);
    }
    lemma_firsts_fewer(fs, parts, missing);
    lemma_insert_all(Seq::<FramePart<Seq<u8>>>::empty(), as_parts(firsts(fs)));
    if init.len() == 0 {
        assert(collect_each_once(start, cap, limit_size, init) == (start, None::<PartedError>));
        lemma_gathered_firsts(start.parts, id, frames_only(init), f);
    } else {
        assert forall|i: int| 0 <= i < init.len() implies parts.contains(
            (#[trigger] init[i]).1,
        ) by {
            assert(init[i] == evs[i]);
        }
        assert(!frames_only(init).contains(missing)) by {
            if frames_only(init).contains(missing) {
                let i = choose|i: int|
                    0 <= i < init.len() && frames_only(init)[i] == missing;
                assert(fs[i] == missing);
            }
        }
        lemma_collecting_once(start, cap, limit_size, id, parts, missing, init);
        let before = seq![
            (id, insert_all(Seq::empty(), as_parts(firsts(frames_only(init))))),
        ] + rest;
        assert(before.drop_first() =~= rest);
        lemma_gathered_firsts(before, id, frames_only(init), f);
    }
}

/// A message is put together though its parts arrive more than once, in whatever order and however
/// spread over frame sets: with the frame that brings the last part for the first time, exactly one
/// frame is ready, with the bodies of the parts in the order of their places.
pub proof fn lemma_assembled_despite_repeats(
    start: Collected,
    cap: nat,
    limit_size: u32,
    id: u16,
    parts: Seq<Frame<Seq<u8>>>,
    sets: Seq<(u24, Seq<Frame<Seq<u8>>>)>,
)
    requires
        is_message(parts, id),
        limit_size == 0 || parts.len() <= limit_size,
        lookup(start.parts, id) is None,
        arrivals(sets).len() > 0,
        forall|i: int|
            0 <= i < arrivals(sets).len() ==> parts.contains((#[trigger] arrivals(sets)[i]).1),
        forall|i: int|
            0 <= i < parts.len() ==> frames_only(arrivals(sets)).contains(#[trigger] parts[i]),
        !frames_only(arrivals(sets).drop_last()).contains(arrivals(sets).last().1),
    ensures
        collect_sets_once(start, cap, limit_size, sets) == (
            Collected {
                parts: others(start.parts, cap, id),
                ready: start.ready.push(
                    FrameSet { seq_num: arrivals(sets).last().0, set: assembled(parts) },
                ),
            },
            None::<PartedError>,
        ),
        assembled(parts).body == bodies(parts),
{
    let evs = arrivals(sets);
    let init = evs.drop_last();
    let fs = frames_only(evs);
    let got = firsts(fs);
    let rest = others(start.parts, cap, id);
    let f = evs.last().1;
    assert(evs[evs.len() - 1].1 == f);
    assert(fs =~= frames_only(init).push(f));
    lemma_grouping_once(start, cap, limit_size, sets);
    lemma_firsts(fs);
    assert forall|i: int| 0 <= i < got.len() implies parts.contains(#[trigger] got[i]) by {
        assert(fs.contains(got[i]));
        let k = choose|k: int| 0 <= k < fs.len() && fs[k] == got[i];
        assert(evs[k].1 == got[i]);
    }
    assert forall|i: int| 0 <= i < parts.len() implies got.contains(#[trigger] parts[i]) by {
        assert(fs.contains(parts[i]));
        let k = choose|k: int| 0 <= k < fs.len() && fs[k] == parts[i];
        assert(got.contains(fs[k]));
    }
    assert(parts.no_duplicates()) by {
        assert forall|i: int, j: int| 0 <= i < parts.len() && 0 <= j < parts.len() && i
            != j implies parts[i] != parts[j] by {
            assert(parts[i].fragment->Some_0.parted_index == i as u32);
            assert(parts[j].fragment->Some_0.parted_index == j as u32);
        }
    }
    assert(got.to_set() =~= parts.to_set());
    got.unique_seq_to_set();
    parts.unique_seq_to_set();
    assert(shuffled(got, parts));
    lemma_shuffled(got, parts, id);
    lemma_assembled(got, id);
    lemma_insert_all(Seq::<FramePart<Seq<u8>>>::empty(), as_parts(got));
    if init.len() == 0 {
        assert(collect_each_once(start, cap, limit_size, init) == (start, None::<PartedError>));
        lemma_gathered_firsts(start.parts, id, frames_only(init), f);
    } else {
        assert forall|i: int| 0 <= i < init.len() implies parts.contains(
            (#[trigger] init[i]).1,
        ) by {
            assert(init[i] == evs[i]);
        }
        lemma_collecting_once(start, cap, limit_size, id, parts, f, init);
        let before = seq![
            (id, insert_all(Seq::empty(), as_parts(firsts(frames_only(init))))),
        ] + rest;
        assert(before.drop_first() =~= rest);
        lemma_gathered_firsts(before, id, frames_only(init), f);
    }
}

} // verus!
