//! A tracker shard: runs SORT on one stream, reports the earliest unseen
//! start among the tracks that died, and encodes finished tracks as
//! records for the aggregator.
use vstd::prelude::*;
use crate::bbox::{Bbox, Frame};
use crate::codec::{frame_bytes, length_prefixed, record_bytes};
use crate::sort::{done_part, inactive_part, marked_seen, sort_step, Matcher, Sort};
use crate::tracker::{KalmanBoxTracker, MotionFilter, seen_in};

verus! {

/// Some time marked as seen on `t` lies between its start and last match.
pub open spec fn is_seen_spec<K>(t: KalmanBoxTracker<K>) -> bool {
    exists|k: int| 0 <= k < t.seen_ts@.len() && seen_in(t.start, t.last_match, #[trigger] t.seen_ts@[k])
}

/// The earliest start among `s`, or `u64::MAX` when `s` is empty.
pub open spec fn min_start<K>(s: Seq<KalmanBoxTracker<K>>) -> u64
    decreases s.len(),
{
    if s.len() == 0 {
        u64::MAX
    } else {
        let m = min_start(s.drop_last());
        if s.last().start < m {
            s.last().start
        } else {
            m
        }
    }
}

/// The latest start among the trackers of `s` that were never seen, or 0.
pub open spec fn max_unseen_start<K>(s: Seq<KalmanBoxTracker<K>>) -> u64
    decreases s.len(),
{
    if s.len() == 0 {
        0
    } else {
        let m = max_unseen_start(s.drop_last());
        if !is_seen_spec(s.last()) && s.last().start > m {
            s.last().start
        } else {
            m
        }
    }
}

/// The records that carry the histories of `s`, each as a frame of shard
/// `range_start` with `oldest`, prefixed by its length; a history too long
/// for a record is left out.
pub open spec fn records_of<K>(s: Seq<KalmanBoxTracker<K>>, range_start: u64, oldest: u64) -> Seq<Seq<u8>>
    decreases s.len(),
{
    if s.len() == 0 {
        Seq::empty()
    } else {
        let p = records_of(s.drop_last(), range_start, oldest);
        let payload = frame_bytes(range_start, oldest, s.last().history@);
        if payload.len() <= u32::MAX {
            p.push(record_bytes(payload))
        } else {
            p
        }
    }
}

/// SORT on one stream, with the time of its first frame as the shard's
/// name.
pub struct Tracker<K> {
    pub sort: Sort<K>,
    pub range_start: Option<u64>,
}

/// What one frame of the tracker yields.
pub struct TrackerOutput<K> {
    /// The latest start among the unseen tracks that died, when some track
    /// died.
    pub min_required: Option<u64>,
    /// The records to send to the aggregator.
    pub records: Vec<Vec<u8>>,
    /// The tracks that died.
    pub dead: Vec<KalmanBoxTracker<K>>,
}

/// The earliest start among `trackers`, `u64::MAX` when there are none.
pub fn oldest_start<K: MotionFilter>(trackers: &Vec<KalmanBoxTracker<K>>) -> (r: u64)
    ensures
        r == min_start(trackers@),
{
    let mut m: u64 = u64::MAX;
    let mut i: usize = 0;
    while i < trackers.len()
        invariant
            i <= trackers@.len(),
            m == min_start(trackers@.take(i as int)),
        decreases trackers@.len() - i,
    {
        proof {
            assert(trackers@.take(i + 1).drop_last() =~= trackers@.take(i as int));
        }
        if trackers[i].start < m {
            m = trackers[i].start;
        }
        i += 1;
    }
    assert(trackers@.take(i as int) =~= trackers@);
    m
}

/// The latest start among the tracks of `dead` that were never seen, 0
/// when all were.
pub fn latest_unseen_start<K: MotionFilter>(dead: &Vec<KalmanBoxTracker<K>>) -> (r: u64)
    ensures
        r == max_unseen_start(dead@),
{
    let mut m: u64 = 0;
    let mut i: usize = 0;
    while i < dead.len()
        invariant
            i <= dead@.len(),
            m == max_unseen_start(dead@.take(i as int)),
        decreases dead@.len() - i,
    {
        proof {
            assert(dead@.take(i + 1).drop_last() =~= dead@.take(i as int));
        }
        let seen = dead[i].is_seen();
        if !seen && dead[i].start > m {
            m = dead[i].start;
        }
        i += 1;
    }
    assert(dead@.take(i as int) =~= dead@);
    m
}

/// Encodes the history of each of `tracks` as a record for the aggregator.
pub fn encode_tracks<K: MotionFilter>(tracks: &Vec<KalmanBoxTracker<K>>, range_start: u64, oldest: u64) -> (r: Vec<Vec<u8>>)
    ensures
        r@.len() == records_of(tracks@, range_start, oldest).len(),
        forall|i: int|
            0 <= i < r@.len() ==> (#[trigger] r@[i])@ == records_of(tracks@, range_start, oldest)[i],
{
    let mut r: Vec<Vec<u8>> = Vec::new();
    let mut i: usize = 0;
    while i < tracks.len()
        invariant
            i <= tracks@.len(),
            r@.len() == records_of(tracks@.take(i as int), range_start, oldest).len(),
            forall|k: int|
                0 <= k < r@.len() ==> (#[trigger] r@[k])@ == records_of(
                    tracks@.take(i as int),
                    range_start,
                    oldest,
                )[k],
        decreases tracks@.len() - i,
    {
        proof {
            assert(tracks@.take(i + 1).drop_last() =~= tracks@.take(i as int));
        }
        let f = Frame { range_start, oldest, bboxes: tracks[i].history.clone() };
        let payload = f.ser();
        if payload.len() <= 0xffff_ffff {
            let rec = length_prefixed(&payload);
            r.push(rec);
        }
        i += 1;
    }
    assert(tracks@.take(i as int) =~= tracks@);
    r
}

impl<K: MotionFilter> Tracker<K> {
    pub fn new(height: usize, width: usize, max_age: u64, min_hits: u64) -> (r: Self)
        ensures
            r.sort.wf(),
            r.sort.width == width,
            r.sort.height == height,
            r.sort.max_age == max_age,
            r.sort.min_hits == min_hits,
            r.sort.trackers@.len() == 0,
            r.sort.frame_count == 0,
            r.sort.id_counter == 0,
            r.range_start is None,
    {
        Tracker { sort: Sort::new(width, height, max_age, min_hits), range_start: None }
    }

    /// The earliest start among the live trackers, `u64::MAX` when there
    /// are none.
    pub fn get_oldest_timestamp(&self) -> (r: u64)
        ensures
            r == min_start(self.sort.trackers@),
    {
        oldest_start(&self.sort.trackers)
    }

    /// Runs SORT on the mask boxes of the frame at time `pts`; the first
    /// frame's time names the shard.
    pub fn update<M: Matcher>(&mut self, bboxes: Vec<Bbox>, pts: u64, matcher: &M) -> (r:
        TrackerOutput<K>)
        requires
            old(self).sort.wf(),
            old(self).sort.frame_count < u64::MAX,
            old(self).sort.id_counter + bboxes@.len() <= u64::MAX,
        ensures
            final(self).sort.wf(),
            final(self).range_start == Some(
                match old(self).range_start {
                    Some(s) => s,
                    None => pts,
                },
            ),
            sort_step(old(self).sort, final(self).sort, bboxes@, pts, r.dead@),
            r.min_required == if r.dead@.len() == 0 {
                None
            } else {
                Some(max_unseen_start(r.dead@))
            },
            r.records@.len() == records_of(
                r.dead@,
                final(self).range_start->0,
                min_start(final(self).sort.trackers@),
            ).len(),
            forall|i: int|
                0 <= i < r.records@.len() ==> (#[trigger] r.records@[i])@ == records_of(
                    r.dead@,
                    final(self).range_start->0,
                    min_start(final(self).sort.trackers@),
                )[i],
    {
        let range_start = match self.range_start {
            Some(s) => s,
            None => pts,
        };
        self.range_start = Some(range_start);
        let dead = self.sort.update(bboxes, pts, matcher);
        let min_required = if dead.len() != 0 {
            Some(latest_unseen_start(&dead))
        } else {
            None
        };
        let oldest = self.get_oldest_timestamp();
        let records = encode_tracks(&dead, range_start, oldest);
        TrackerOutput { min_required, records, dead }
    }

    /// Marks time `pts` as seen (decoded for inference) on every tracker.
    pub fn seen(&mut self, pts: u64)
        requires
            old(self).sort.wf(),
        ensures
            final(self).sort.wf(),
            final(self).range_start == old(self).range_start,
            final(self).sort.frame_count == old(self).sort.frame_count,
            final(self).sort.id_counter == old(self).sort.id_counter,
            final(self).sort.max_age == old(self).sort.max_age,
            final(self).sort.min_hits == old(self).sort.min_hits,
            final(self).sort.trackers@.len() == old(self).sort.trackers@.len(),
            forall|i: int|
                0 <= i < final(self).sort.trackers@.len() ==> (#[trigger] final(self).sort.trackers@[i]).seen_ts@ == old(self).sort.trackers@[i].seen_ts@.push(pts),
            marked_seen(old(self).sort, final(self).sort, seq![pts]),
    {
        self.sort.mark_seen(pts);
    }

    /// At the end of the stream: removes the active tracks and returns the
    /// records of those that are long enough, or nothing when no frame was
    /// ever seen.
    pub fn flush(&mut self) -> (r: TrackerOutput<K>)
        requires
            old(self).sort.wf(),
        ensures
            final(self).sort.wf(),
            r.min_required is None,
            old(self).range_start is None ==> r.records@.len() == 0 && r.dead@.len() == 0,
            old(self).range_start is Some ==> {
                &&& r.records@.len() == records_of(
                    r.dead@,
                    old(self).range_start->0,
                    min_start(old(self).sort.trackers@),
                ).len()
                &&& forall|i: int|
                    0 <= i < r.records@.len() ==> (#[trigger] r.records@[i])@ == records_of(
                        r.dead@,
                        old(self).range_start->0,
                        min_start(old(self).sort.trackers@),
                    )[i]
                &&& r.dead@ == done_part(old(self).sort.trackers@, old(self).sort.min_hits)
                &&& final(self).sort.trackers@ == inactive_part(old(self).sort.trackers@)
            },
    {
        match self.range_start {
            None => TrackerOutput { min_required: None, records: Vec::new(), dead: Vec::new() },
            Some(range_start) => {
                let oldest = self.get_oldest_timestamp();
                let dead = self.sort.finalize();
                let records = encode_tracks(&dead, range_start, oldest);
                TrackerOutput { min_required: None, records, dead }
            },
        }
    }
}

} // verus!
