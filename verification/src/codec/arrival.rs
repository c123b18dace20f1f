//! Frames as they arrive: in frame sets, grouped in whatever way.
use vstd::prelude::*;

use crate::codec::decoder::dedup::{fresh_frames, numbers_seen};
use crate::codec::decoder::fragment::{collect_all, collect_one, collect_sets, Collected};
use crate::codec::decoder::parts::FramePart;
use crate::errors::PartedError;
use crate::packet::connected::frame::Frame;
use crate::uint24::u24;

verus! {

/// The frames of a set, each with the number of the set.
pub open spec fn tagged(seq_num: u24, fs: Seq<Frame<Seq<u8>>>) -> Seq<(u24, Frame<Seq<u8>>)> {
    Seq::new(fs.len(), |i: int| (seq_num, fs[i]))
}

/// The frames of all sets, one after the other, each with the number of its set.
pub open spec fn arrivals(sets: Seq<(u24, Seq<Frame<Seq<u8>>>)>) -> Seq<(u24, Frame<Seq<u8>>)>
    decreases sets.len(),
{
    if sets.len() == 0 {
        Seq::empty()
    } else {
        arrivals(sets.drop_last()) + tagged(sets.last().0, sets.last().1)
    }
}

/// The frames without the numbers of their sets.
pub open spec fn frames_only(evs: Seq<(u24, Frame<Seq<u8>>)>) -> Seq<Frame<Seq<u8>>> {
    Seq::new(evs.len(), |i: int| evs[i].1)
}

/// What the layer of defragmentation holds after frames, one after the other, up to the first one
/// that is refused, and why that one is.
pub open spec fn collect_each(
    start: Collected,
    cap: nat,
    limit_size: u32,
    evs: Seq<(u24, Frame<Seq<u8>>)>,
) -> (Collected, Option<PartedError>)
    decreases evs.len(),
{
    if evs.len() == 0 {
        (start, None)
    } else {
        let before = collect_each(start, cap, limit_size, evs.drop_last());
        if before.1 is Some {
            before
        } else {
            collect_one(before.0, cap, limit_size, evs.last().0, evs.last().1)
        }
    }
}

proof fn lemma_collect_tagged(
    start: Collected,
    cap: nat,
    limit_size: u32,
    evs: Seq<(u24, Frame<Seq<u8>>)>,
    seq_num: u24,
    fs: Seq<Frame<Seq<u8>>>,
)
    ensures
        collect_each(start, cap, limit_size, evs + tagged(seq_num, fs)) == ({
            let before = collect_each(start, cap, limit_size, evs);
            if before.1 is Some {
                before
            } else {
                collect_all(before.0, cap, limit_size, seq_num, fs)
            }
        }),
    decreases fs.len(),
{
    let all = evs + tagged(seq_num, fs);
    if fs.len() == 0 {
        assert(all =~= evs);
    } else {
        lemma_collect_tagged(start, cap, limit_size, evs, seq_num, fs.drop_last());
        assert(all.drop_last() =~= evs + tagged(seq_num, fs.drop_last()));
        assert(all.last() == (seq_num, fs.last()));
    }
}

/// How frames are grouped into sets makes no difference to what is collected.
pub proof fn lemma_grouping(
    start: Collected,
    cap: nat,
    limit_size: u32,
    sets: Seq<(u24, Seq<Frame<Seq<u8>>>)>,
)
    ensures
        collect_sets(start, cap, limit_size, sets) == collect_each(
            start,
            cap,
            limit_size,
            arrivals(sets),
        ),
    decreases sets.len(),
{
    if sets.len() > 0 {
        let init = sets.drop_last();
        lemma_grouping(start, cap, limit_size, init);
        lemma_collect_tagged(
            start,
            cap,
            limit_size,
            arrivals(init),
            sets.last().0,
            sets.last().1,
        );
    }
}

/// What is ready stays so while more frames arrive.
pub proof fn lemma_ready_stays(
    start: Collected,
    cap: nat,
    limit_size: u32,
    evs: Seq<(u24, Frame<Seq<u8>>)>,
    n: int,
)
    requires
        0 <= n <= evs.len(),
    ensures
        ({
            let early = collect_each(start, cap, limit_size, evs.take(n)).0.ready;
            let late = collect_each(start, cap, limit_size, evs).0.ready;
            &&& early.len() <= late.len()
            &&& late.take(early.len() as int) == early
        }),
    decreases evs.len(),
{
    let early = collect_each(start, cap, limit_size, evs.take(n)).0.ready;
    let late = collect_each(start, cap, limit_size, evs).0.ready;
    if n == evs.len() {
        assert(evs.take(n) =~= evs);
        assert(late.take(early.len() as int) =~= early);
    } else {
        let init = evs.drop_last();
        let mid = collect_each(start, cap, limit_size, init).0.ready;
        lemma_ready_stays(start, cap, limit_size, init, n);
        assert(init.take(n) =~= evs.take(n));
        assert(late.take(early.len() as int) =~= mid.take(early.len() as int));
    }
}

/// What is collected does not depend on what is ready already.
proof fn lemma_ready_apart(
    c: Collected,
    cap: nat,
    limit_size: u32,
    seq_num: u24,
    fs: Seq<Frame<Seq<u8>>>,
)
    ensures
        ({
            let apart = collect_all(
                Collected { ready: Seq::empty(), ..c },
                cap,
                limit_size,
                seq_num,
                fs,
            );
            collect_all(c, cap, limit_size, seq_num, fs) == (
                Collected { parts: apart.0.parts, ready: c.ready + apart.0.ready },
                apart.1,
            )
        }),
    decreases fs.len(),
{
    let none = Collected { ready: Seq::empty(), ..c };
    let apart = collect_all(none, cap, limit_size, seq_num, fs);
    let both = collect_all(c, cap, limit_size, seq_num, fs);
    if fs.len() > 0 {
        lemma_ready_apart(c, cap, limit_size, seq_num, fs.drop_last());
    }
    assert(both.0.ready =~= c.ready + apart.0.ready);
}

/// What is passed on where all that is ready is taken out after each set, and what the layer holds
/// of parts then, up to the first set with a frame that is refused, and why that frame is.
pub open spec fn drained(
    parts: Seq<(u16, Seq<FramePart<Seq<u8>>>)>,
    cap: nat,
    limit_size: u32,
    sets: Seq<(u24, Seq<Frame<Seq<u8>>>)>,
) -> (Collected, Option<PartedError>)
    decreases sets.len(),
{
    if sets.len() == 0 {
        (Collected { parts, ready: Seq::empty() }, None)
    } else {
        let before = drained(parts, cap, limit_size, sets.drop_last());
        if before.1 is Some {
            before
        } else {
            let (c, e) = collect_all(
                Collected { ready: Seq::empty(), ..before.0 },
                cap,
                limit_size,
                sets.last().0,
                sets.last().1,
            );
            (Collected { parts: c.parts, ready: before.0.ready + c.ready }, e)
        }
    }
}

/// It makes no difference whether what is ready is taken out after each set or after the last one.
pub proof fn lemma_drained(
    parts: Seq<(u16, Seq<FramePart<Seq<u8>>>)>,
    cap: nat,
    limit_size: u32,
    sets: Seq<(u24, Seq<Frame<Seq<u8>>>)>,
)
    ensures
        drained(parts, cap, limit_size, sets) == collect_sets(
            Collected { parts, ready: Seq::empty() },
            cap,
            limit_size,
            sets,
        ),
    decreases sets.len(),
{
    if sets.len() > 0 {
        let init = sets.drop_last();
        lemma_drained(parts, cap, limit_size, init);
        lemma_ready_apart(
            drained(parts, cap, limit_size, init).0,
            cap,
            limit_size,
            sets.last().0,
            sets.last().1,
        );
    }
}

/// The sets without the frames that arrived before, where the numbers `seen` did.
pub open spec fn fresh_sets(seen: Set<u24>, sets: Seq<(u24, Seq<Frame<Seq<u8>>>)>) -> Seq<
    (u24, Seq<Frame<Seq<u8>>>),
>
    decreases sets.len(),
{
    if sets.len() == 0 {
        Seq::empty()
    } else {
        let init = sets.drop_last();
        fresh_sets(seen, init).push(
            (
                sets.last().0,
                fresh_frames(
                    numbers_seen(seen, frames_only(arrivals(init))),
                    sets.last().1,
                ),
            ),
        )
    }
}

proof fn lemma_seen_concat(seen: Set<u24>, a: Seq<Frame<Seq<u8>>>, b: Seq<Frame<Seq<u8>>>)
    ensures
        numbers_seen(seen, a + b) == numbers_seen(numbers_seen(seen, a), b),
        fresh_frames(seen, a + b) == fresh_frames(seen, a) + fresh_frames(
            numbers_seen(seen, a),
            b,
        ),
    decreases b.len(),
{
    let all = fresh_frames(seen, a + b);
    if b.len() == 0 {
        assert(a + b =~= a);
        assert(all =~= fresh_frames(seen, a) + fresh_frames(numbers_seen(seen, a), b));
    } else {
        lemma_seen_concat(seen, a, b.drop_last());
        assert((a + b).drop_last() =~= a + b.drop_last());
        assert((a + b).last() == b.last());
        assert(all =~= fresh_frames(seen, a) + fresh_frames(numbers_seen(seen, a), b));
    }
}

/// How frames are grouped into sets makes no difference to which of them pass as new.
pub proof fn lemma_fresh_grouping(seen: Set<u24>, sets: Seq<(u24, Seq<Frame<Seq<u8>>>)>)
    ensures
        frames_only(arrivals(fresh_sets(seen, sets))) == fresh_frames(
            seen,
            frames_only(arrivals(sets)),
        ),
        fresh_sets(seen, sets).len() == sets.len(),
    decreases sets.len(),
{
    let out = fresh_sets(seen, sets);
    if sets.len() == 0 {
        assert(frames_only(arrivals(out)) =~= Seq::empty());
        assert(frames_only(arrivals(sets)) =~= Seq::empty());
    } else {
        let init = sets.drop_last();
        let a = frames_only(arrivals(init));
        let fs = sets.last().1;
        lemma_fresh_grouping(seen, init);
        lemma_seen_concat(seen, a, fs);
        assert(frames_only(arrivals(sets)) =~= a + fs);
        assert(out.drop_last() =~= fresh_sets(seen, init));
        assert(frames_only(arrivals(out)) =~= frames_only(arrivals(fresh_sets(seen, init)))
            + out.last().1);
    }
}

} // verus!
