//! The timeline of one simulated processor: the stretches of ticks it was
//! busy and idle, worked out from the ranges of ticks it sat idle.
use vstd::prelude::*;

verus! {

/// A stretch of ticks, both ends included, spent busy or idle.
#[derive(Debug, Clone, Copy, PartialEq, Eq, Structural)]
pub struct ActivitySegment {
    pub busy: bool,
    pub begin: usize,
    pub end: usize,
}

/// The segments for idle ranges `ranges[..n]`, and the first tick after
/// them: before each idle range, the ticks since the last one (if any)
/// were busy.
pub open spec fn segments_upto(ranges: Seq<(usize, usize)>, n: nat) -> (Seq<ActivitySegment>, int)
    decreases n,
{
    if n == 0 || n > ranges.len() {
        (Seq::empty(), 0)
    } else {
        let (segs, cursor) = segments_upto(ranges, (n - 1) as nat);
        let (b, e) = ranges[n - 1];
        let segs1 = if b > cursor {
            segs.push(ActivitySegment { busy: true, begin: cursor as usize, end: (b - 1) as usize })
        } else {
            segs
        };
        (segs1.push(ActivitySegment { busy: false, begin: b, end: e }), e + 1)
    }
}

/// The idle ranges, with the one still open closed at `ticks`.
pub open spec fn closed_ranges(ranges: Seq<(usize, usize)>, idle_start: Option<usize>, ticks: usize) -> Seq<
    (usize, usize),
> {
    match idle_start {
        Some(s) => ranges.push((s, ticks)),
        None => ranges,
    }
}

/// The whole timeline up to tick `ticks`: the segments of the idle ranges,
/// then the ticks after the last idle range, busy, if any are left.
pub open spec fn activity_spec(ranges: Seq<(usize, usize)>, idle_start: Option<usize>, ticks: usize) -> Seq<
    ActivitySegment,
> {
    let all = closed_ranges(ranges, idle_start, ticks);
    let (segs, cursor) = segments_upto(all, all.len());
    if cursor < ticks {
        segs.push(ActivitySegment { busy: true, begin: cursor as usize, end: ticks })
    } else {
        segs
    }
}

/// The busy and idle segments of a processor that sat idle during
/// `idle_ranges` (and since `idle_start`, if it is idle now), up to tick
/// `ticks`.  No idle range may end at the last tick a `usize` can count.
pub fn activity_segments(idle_ranges: &Vec<(usize, usize)>, idle_start: Option<usize>, ticks: usize) -> (r: Vec<
    ActivitySegment,
>)
    requires
        forall|i: int| 0 <= i < idle_ranges@.len() ==> #[trigger] idle_ranges@[i].1 < usize::MAX,
        ticks < usize::MAX,
    ensures
        r@ == activity_spec(idle_ranges@, idle_start, ticks),
{
    let mut ranges: Vec<(usize, usize)> = Vec::new();
    let mut k: usize = 0;
    while k < idle_ranges.len()
        invariant
            k <= idle_ranges@.len(),
            ranges@ == idle_ranges@.subrange(0, k as int),
        decreases idle_ranges@.len() - k,
    {
        ranges.push(idle_ranges[k]);
        proof {
            assert(idle_ranges@.subrange(0, k + 1) =~= idle_ranges@.subrange(0, k as int).push(idle_ranges@[k as int]));
        }
        k += 1;
    }
    assert(ranges@ =~= idle_ranges@);
    if let Some(start) = idle_start {
        ranges.push((start, ticks));
    }
    let ghost all = closed_ranges(idle_ranges@, idle_start, ticks);
    assert(ranges@ =~= all);
    let mut events: Vec<ActivitySegment> = Vec::new();
    let mut cursor: usize = 0;
    let mut i: usize = 0;
    while i < ranges.len()
        invariant
            ranges@ == all,
            forall|k: int| 0 <= k < all.len() ==> #[trigger] all[k].1 < usize::MAX,
            i <= all.len(),
            (events@, cursor as int) == segments_upto(all, i as nat),
        decreases all.len() - i,
    {
        let (begin, end) = ranges[i];
        proof {
            assert(all[i as int].1 < usize::MAX);
        }
        if begin > cursor {
            events.push(ActivitySegment { busy: true, begin: cursor, end: begin - 1 });
        }
        events.push(ActivitySegment { busy: false, begin, end });
        cursor = end + 1;
        i += 1;
    }
    if cursor < ticks {
        events.push(ActivitySegment { busy: true, begin: cursor, end: ticks });
    }
    events
}

/// Idle ranges in order of time: each starts no later than it ends, and
/// ends before the next one starts.
pub open spec fn ranges_ordered(r: Seq<(usize, usize)>) -> bool {
    &&& forall|k: int| 0 <= k < r.len() ==> #[trigger] r[k].0 <= r[k].1
    &&& forall|k: int| 0 <= k < r.len() - 1 ==> #[trigger] r[k].1 < r[k + 1].0
}

/// The segments follow each other from tick 0 with neither gap nor
/// overlap, and no two busy ones are next to each other.
pub open spec fn tiles(segs: Seq<ActivitySegment>) -> bool {
    &&& segs.len() > 0 ==> segs[0].begin == 0
    &&& forall|k: int| 0 <= k < segs.len() ==> #[trigger] segs[k].begin <= segs[k].end
    &&& forall|k: int| 0 <= k < segs.len() - 1 ==> #[trigger] segs[k + 1].begin == segs[k].end + 1
    &&& forall|k: int| 0 <= k < segs.len() - 1 ==> !(#[trigger] segs[k].busy && segs[k + 1].busy)
}

proof fn lemma_segments_upto_tile(r: Seq<(usize, usize)>, n: nat)
    requires
        ranges_ordered(r),
        n <= r.len(),
        forall|k: int| 0 <= k < r.len() ==> #[trigger] r[k].1 < usize::MAX,
    ensures
        tiles(segments_upto(r, n).0),
        n == 0 ==> segments_upto(r, n).0.len() == 0 && segments_upto(r, n).1 == 0,
        n > 0 ==> {
            let (segs, cursor) = segments_upto(r, n);
            &&& segs.len() > 0
            &&& cursor == r[n - 1].1 + 1
            &&& segs.last().end + 1 == cursor
            &&& !segs.last().busy
        },
    decreases n,
{
    if n > 0 {
        lemma_segments_upto_tile(r, (n - 1) as nat);
        let (segs, cursor) = segments_upto(r, (n - 1) as nat);
        let (b, e) = r[n - 1];
        assert(b <= e);
        if n > 1 {
            assert(r[n - 2].1 < r[n - 1].0);
        }
        let segs1 = if b > cursor {
            segs.push(ActivitySegment { busy: true, begin: cursor as usize, end: (b - 1) as usize })
        } else {
            segs
        };
        let segs2 = segs1.push(ActivitySegment { busy: false, begin: b, end: e });
        assert(segments_upto(r, n).0 == segs2);
        assert forall|k: int| 0 <= k < segs2.len() - 1 implies #[trigger] segs2[k + 1].begin == segs2[k].end + 1 by {
            if k < segs.len() - 1 {
                assert(segs2[k] == segs[k] && segs2[k + 1] == segs[k + 1]);
            }
        }
        assert forall|k: int| 0 <= k < segs2.len() - 1 implies !(#[trigger] segs2[k].busy && segs2[k + 1].busy) by {
            if k < segs.len() - 1 {
                assert(segs2[k] == segs[k] && segs2[k + 1] == segs[k + 1]);
            }
        }
        assert forall|k: int| 0 <= k < segs2.len() implies #[trigger] segs2[k].begin <= segs2[k].end by {
            if k < segs.len() {
                assert(segs2[k] == segs[k]);
            }
        }
    }
}

/// Where the idle ranges come in order of time, the timeline covers every
/// tick from 0 on, each exactly once, up to at least the tick before
/// `ticks`, and never puts two busy segments side by side.
pub proof fn lemma_activity_tiles(ranges: Seq<(usize, usize)>, idle_start: Option<usize>, ticks: usize)
    requires
        ranges_ordered(closed_ranges(ranges, idle_start, ticks)),
        forall|k: int| 0 <= k < ranges.len() ==> #[trigger] ranges[k].1 < usize::MAX,
        ticks < usize::MAX,
    ensures
        tiles(activity_spec(ranges, idle_start, ticks)),
        ticks > 0 ==> activity_spec(ranges, idle_start, ticks).len() > 0,
        activity_spec(ranges, idle_start, ticks).len() > 0 ==> activity_spec(ranges, idle_start, ticks).last().end
            + 1 >= ticks,
{
    let all = closed_ranges(ranges, idle_start, ticks);
    assert forall|k: int| 0 <= k < all.len() implies #[trigger] all[k].1 < usize::MAX by {
        if k < ranges.len() {
            assert(all[k] == ranges[k]);
        }
    }
    lemma_segments_upto_tile(all, all.len());
    let (segs, cursor) = segments_upto(all, all.len());
    if cursor < ticks {
        let segs2 = segs.push(ActivitySegment { busy: true, begin: cursor as usize, end: ticks });
        assert forall|k: int| 0 <= k < segs2.len() - 1 implies #[trigger] segs2[k + 1].begin == segs2[k].end + 1 by {
            if k < segs.len() - 1 {
                assert(segs2[k] == segs[k] && segs2[k + 1] == segs[k + 1]);
            }
        }
        assert forall|k: int| 0 <= k < segs2.len() - 1 implies !(#[trigger] segs2[k].busy && segs2[k + 1].busy) by {
            if k < segs.len() - 1 {
                assert(segs2[k] == segs[k] && segs2[k + 1] == segs[k + 1]);
            }
        }
        assert forall|k: int| 0 <= k < segs2.len() implies #[trigger] segs2[k].begin <= segs2[k].end by {
            if k < segs.len() {
                assert(segs2[k] == segs[k]);
            }
        }
    }
}

} // verus!
